use slides_indexer::digest::{calculate_file_checksum, hash_of};

#[test]
fn the_id_of_a_path_is_its_sha1_in_hexadecimal() {
    assert_eq!(hash_of("abc"), "a9993e364706816aba3e25717850c26c9cd0d89d");
    assert_eq!(hash_of(""), "da39a3ee5e6b4b0d3255bfef95601890afd80709");
}

#[test]
fn the_id_depends_on_the_path_alone() {
    assert_eq!(hash_of("/decks/a.pptx"), hash_of("/decks/a.pptx"));
    assert_ne!(hash_of("/decks/a.pptx"), hash_of("/decks/b.pptx"));
    assert_eq!(hash_of("/decks/a.pptx").len(), 40);
}

#[test]
fn the_checksum_of_a_file_is_its_sha256_in_hexadecimal() {
    assert_eq!(
        calculate_file_checksum(b"abc"),
        "ba7816bf8f01cfea414140de5dae2223b00361a396177a9cb410ff61f20015ad"
    );
    assert_eq!(
        calculate_file_checksum(b""),
        "e3b0c44298fc1c149afbf4c8996fb92427ae41e4649b934ca495991b7852b855"
    );
}

#[test]
fn digests_are_written_in_lowercase() {
    let sum = calculate_file_checksum(b"any content");
    assert_eq!(sum.len(), 64);
    assert!(sum.chars().all(|c| c.is_ascii_digit() || ('a'..='f').contains(&c)));
}
