use slides_indexer::error::AppError;

#[test]
fn every_failure_carries_its_text() {
    assert_eq!(AppError::Io("no such file".to_string()).message(), "no such file");
    assert_eq!(AppError::Zip("invalid archive".to_string()).message(), "invalid archive");
    assert_eq!(AppError::Regex("bad pattern".to_string()).message(), "bad pattern");
    assert_eq!(AppError::SerdeJson("bad json".to_string()).message(), "bad json");
    assert_eq!(AppError::Message("Directory not linked: /x".to_string()).message(), "Directory not linked: /x");
}
