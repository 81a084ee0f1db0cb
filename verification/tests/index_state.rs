use slides_indexer::error::AppError;
use slides_indexer::extract::index_pptx;
use slides_indexer::models::{
    unique_items, AppState, ScanProgressPayload, SlideIndexItem, SlideKind,
};
use slides_indexer::scan::{ChecksumVerdict, FileProbe, ProbeDecision, ScanOutcome, Scanner};
use slides_indexer::state::{path_within, sanitize_directories, StateManager};

fn item(path: &str, updated_at: u64) -> SlideIndexItem {
    SlideIndexItem {
        id: format!("id-{}", path),
        path: path.to_string(),
        name: path.rsplit('/').next().unwrap().to_string(),
        kind: SlideKind::Pptx,
        slide_count: None,
        snippet: String::new(),
        keywords: vec![],
        updated_at,
        slides: vec![],
        checksum: None,
    }
}

fn state(directories: &[&str], items: Vec<SlideIndexItem>) -> AppState {
    AppState {
        directories: directories.iter().map(|d| d.to_string()).collect(),
        items,
        last_indexed_at: Some(1),
        warnings: vec!["old warning".to_string()],
    }
}

fn outcome(items: Vec<SlideIndexItem>, errors: &[&str], scanned: usize, cached: usize) -> ScanOutcome {
    ScanOutcome {
        items,
        errors: errors.iter().map(|e| e.to_string()).collect(),
        scanned_count: scanned,
        cached_count: cached,
    }
}

fn paths(manager: &StateManager) -> Vec<String> {
    manager.state().items.iter().map(|i| i.path.clone()).collect()
}

fn warning() -> Option<String> {
    Some("PDF extraction tools missing: tesseract.".to_string())
}

#[test]
fn a_fresh_state_is_empty() {
    let fresh = AppState::default();
    assert!(fresh.directories.is_empty());
    assert!(fresh.items.is_empty());
    assert_eq!(fresh.last_indexed_at, None);
    assert!(fresh.warnings.is_empty());
}

#[test]
fn a_path_lies_within_a_directory_or_is_it() {
    assert!(path_within("/decks", "/decks"));
    assert!(path_within("/decks/a.pptx", "/decks"));
    assert!(path_within("/decks/sub/a.pptx", "/decks"));
    assert!(path_within("/decks/a.pptx", "/decks/"));
    assert!(path_within("C:\\decks\\a.pptx", "C:\\decks"));
    assert!(!path_within("/decks2/a.pptx", "/decks"));
    assert!(!path_within("/deck", "/decks"));
    assert!(!path_within("/other/decks/a.pptx", "/decks"));
    assert!(!path_within("", "/decks"));
    assert!(!path_within("/decks/", "/decks/a"));
}

#[test]
fn directories_are_trimmed_and_kept_once_in_their_order() {
    let input = vec![
        "  /a  ".to_string(),
        "/b".to_string(),
        "".to_string(),
        "   ".to_string(),
        "/a".to_string(),
        "/B".to_string(),
        "/b\n".to_string(),
    ];
    assert_eq!(sanitize_directories(&input), vec!["/a", "/b", "/B"]);
    assert!(sanitize_directories(&vec![]).is_empty());
    // whitespace of every kind is trimmed, inner whitespace stays
    let spaced = vec!["\u{2003}/my decks\u{a0}\t".to_string(), "\u{3000}".to_string()];
    assert_eq!(sanitize_directories(&spaced), vec!["/my decks"]);
    for text in ["  a b  ", "\u{a0}x\u{2003}", "\n\n", "", "plain", " \u{feff} "] {
        assert_eq!(sanitize_directories(&vec![text.to_string()]).concat(), text.trim());
    }
}

#[test]
fn the_snapshot_carries_the_warning_about_missing_tools_once() {
    let manager = StateManager::new(state(&["/d"], vec![item("/d/a.pptx", 5)]));
    let snapshot = manager.get_state(&warning());
    assert_eq!(snapshot.warnings, vec!["old warning", "PDF extraction tools missing: tesseract."]);
    assert_eq!(snapshot.directories, vec!["/d"]);
    assert_eq!(snapshot.items.len(), 1);
    assert_eq!(snapshot.last_indexed_at, Some(1));
    // the stored state is not changed
    assert_eq!(manager.state().warnings, vec!["old warning"]);
    let same = manager.get_state(&Some("old warning".to_string()));
    assert_eq!(same.warnings, vec!["old warning"]);
    assert_eq!(manager.get_state(&None).warnings, vec!["old warning"]);
}

#[test]
fn replacing_the_directories_scans_nothing() {
    let mut manager = StateManager::new(state(&["/old"], vec![item("/old/a.pptx", 5)]));
    let summary = manager.update_directories(vec![" /new ".to_string(), "/new".to_string()], &warning());
    assert_eq!(manager.state().directories, vec!["/new"]);
    assert_eq!(paths(&manager), vec!["/old/a.pptx"]);
    assert_eq!(manager.state().last_indexed_at, Some(1));
    assert_eq!(summary.indexed, 1);
    assert_eq!(summary.scanned, None);
    assert_eq!(summary.cached, None);
    assert_eq!(summary.errors, vec!["PDF extraction tools missing: tesseract."]);
    assert_eq!(summary.last_indexed_at, Some(1));
    let summary = manager.update_directories(vec![], &None);
    assert!(manager.state().directories.is_empty());
    assert!(summary.errors.is_empty());
}

#[test]
fn a_rescan_starts_from_the_directories_and_the_stored_items() {
    let manager = StateManager::new(state(&["/a", "/b"], vec![item("/a/x.pptx", 5), item("/b/y.pdf", 4)]));
    let (directories, baseline) = manager.scan_plan();
    assert_eq!(directories, vec!["/a", "/b"]);
    assert_eq!(baseline.len(), 2);
    assert_eq!(baseline[0].path, "/a/x.pptx");
}

#[test]
fn a_rescan_without_directories_drops_every_item() {
    let mut manager = StateManager::new(state(&[], vec![item("/d/a.pptx", 5)]));
    let summary = manager.rescan(outcome(vec![item("/x", 1)], &["ignored"], 1, 0), 777, &warning());
    assert!(manager.state().items.is_empty());
    assert_eq!(manager.state().last_indexed_at, Some(777));
    assert_eq!(manager.state().warnings, vec!["PDF extraction tools missing: tesseract."]);
    assert_eq!(summary.indexed, 0);
    assert_eq!(summary.scanned, None);
    assert_eq!(summary.cached, None);
    assert_eq!(summary.errors, vec!["PDF extraction tools missing: tesseract."]);
    assert_eq!(summary.last_indexed_at, Some(777));
}

#[test]
fn a_rescan_replaces_the_items_by_those_of_the_scan() {
    let mut manager = StateManager::new(state(&["/d"], vec![item("/d/gone.pptx", 5)]));
    let scan = outcome(vec![item("/d/a.pptx", 10), item("/d/b.pptx", 30)], &["Directory not found: /e"], 1, 1);
    let summary = manager.rescan(scan, 888, &warning());
    assert_eq!(paths(&manager), vec!["/d/b.pptx", "/d/a.pptx"]);
    assert_eq!(manager.state().last_indexed_at, Some(888));
    assert_eq!(summary.indexed, 2);
    assert_eq!(summary.scanned, Some(1));
    assert_eq!(summary.cached, Some(1));
    assert_eq!(summary.errors, vec!["Directory not found: /e", "PDF extraction tools missing: tesseract."]);
    assert_eq!(manager.state().warnings, summary.errors);
    assert_eq!(manager.state().directories, vec!["/d"]);
}

#[test]
fn the_warning_is_not_repeated_among_the_errors() {
    let mut manager = StateManager::new(state(&["/d"], vec![]));
    let scan = outcome(vec![], &["PDF extraction tools missing: tesseract."], 0, 0);
    let summary = manager.rescan(scan, 1, &warning());
    assert_eq!(summary.errors, vec!["PDF extraction tools missing: tesseract."]);
}

#[test]
fn a_directory_that_is_not_linked_cannot_be_rescanned() {
    let mut manager = StateManager::new(state(&["/d"], vec![item("/d/a.pptx", 5)]));
    match manager.directory_plan("/other") {
        Err(AppError::Message(text)) => assert_eq!(text, "Directory not linked: /other"),
        _ => panic!("the directory is not linked"),
    }
    match manager.rescan_directory("/other", outcome(vec![], &[], 0, 0), 9, &None) {
        Err(error) => assert_eq!(error.message(), "Directory not linked: /other"),
        Ok(_) => panic!("the directory is not linked"),
    }
    // nothing changed
    assert_eq!(paths(&manager), vec!["/d/a.pptx"]);
    assert_eq!(manager.state().last_indexed_at, Some(1));
    assert_eq!(manager.state().warnings, vec!["old warning"]);
}

#[test]
fn the_rescan_of_a_directory_starts_from_the_items_within_it() {
    let items = vec![item("/d/a.pptx", 5), item("/e/b.pptx", 4), item("/d/sub/c.pdf", 3), item("/d2/x.ppt", 2)];
    let manager = StateManager::new(state(&["/d", "/e"], items));
    let baseline = manager.directory_plan("/d").unwrap();
    let found: Vec<&str> = baseline.iter().map(|i| i.path.as_str()).collect();
    assert_eq!(found, vec!["/d/a.pptx", "/d/sub/c.pdf"]);
}

#[test]
fn the_rescan_of_a_directory_leaves_the_other_items() {
    let items = vec![item("/d/a.pptx", 50), item("/e/b.pptx", 40), item("/d/sub/c.pdf", 30), item("/d2/x.ppt", 20)];
    let mut manager = StateManager::new(state(&["/d", "/e"], items));
    let scan = outcome(vec![item("/d/new.pptx", 45), item("/d/a.pptx", 10)], &["oops"], 1, 1);
    let summary = manager.rescan_directory("/d", scan, 999, &None).unwrap();
    assert_eq!(paths(&manager), vec!["/d/new.pptx", "/e/b.pptx", "/d2/x.ppt", "/d/a.pptx"]);
    assert_eq!(summary.indexed, 4);
    assert_eq!(summary.scanned, Some(1));
    assert_eq!(summary.cached, Some(1));
    assert_eq!(summary.errors, vec!["oops"]);
    assert_eq!(summary.last_indexed_at, Some(999));
    assert_eq!(manager.state().warnings, vec!["oops"]);
    assert_eq!(manager.state().last_indexed_at, Some(999));
}

#[test]
fn an_item_of_a_running_scan_takes_the_place_of_the_stored_one() {
    let mut manager = StateManager::new(state(&["/d"], vec![item("/d/a.pptx", 50), item("/d/b.pptx", 40)]));
    let mut newer = item("/d/b.pptx", 60);
    newer.snippet = "newer".to_string();
    manager.record_item(newer, 1234);
    assert_eq!(paths(&manager), vec!["/d/b.pptx", "/d/a.pptx"]);
    assert_eq!(manager.state().items[0].snippet, "newer");
    assert_eq!(manager.state().last_indexed_at, Some(1234));
    manager.record_item(item("/d/c.pptx", 55), 1235);
    assert_eq!(paths(&manager), vec!["/d/b.pptx", "/d/c.pptx", "/d/a.pptx"]);
    assert_eq!(manager.state().items.len(), 3);
}

#[test]
fn an_item_is_found_by_its_id() {
    let manager = StateManager::new(state(&["/d"], vec![item("/d/a.pptx", 5), item("/d/b.pptx", 4)]));
    assert_eq!(manager.find_item("id-/d/b.pptx").unwrap().path, "/d/b.pptx");
    assert!(manager.find_item("unknown").is_none());
    assert!(manager.find_item("").is_none());
}

#[test]
fn clearing_the_cache_keeps_the_directories() {
    let mut manager = StateManager::new(state(&["/d"], vec![item("/d/a.pptx", 5)]));
    manager.clear_cache(4321);
    assert!(manager.state().items.is_empty());
    assert!(manager.state().warnings.is_empty());
    assert_eq!(manager.state().directories, vec!["/d"]);
    assert_eq!(manager.state().last_indexed_at, Some(4321));
}

#[test]
fn search_tells_the_number_of_items_it_found() {
    let mut a = item("/d/a.pptx", 5);
    a.snippet = "foo bar".to_string();
    let mut b = item("/d/b.pptx", 4);
    b.snippet = "foo".to_string();
    let manager = StateManager::new(state(&["/d"], vec![a, b]));
    let response = manager.search("foo bar");
    assert_eq!(response.total, 1);
    assert_eq!(response.items[0].path, "/d/a.pptx");
    assert_eq!(response.last_indexed_at, Some(1));
    assert_eq!(manager.search("foo").total, 2);
    assert_eq!(manager.search("").total, 2);
    assert_eq!(manager.search("\"bar foo\"").total, 0);
}

#[test]
fn progress_notifications_name_the_file_and_what_happens_to_it() {
    let event = ScanProgressPayload::scanning("/d/a.pptx", "New file detected");
    assert_eq!(event.path.as_deref(), Some("/d/a.pptx"));
    assert_eq!(event.status.as_deref(), Some("scanning"));
    assert_eq!(event.debug_info.as_deref(), Some("New file detected"));
    let cached = ScanProgressPayload::cached("/d/a.pptx");
    assert_eq!(cached.path.as_deref(), Some("/d/a.pptx"));
    assert_eq!(cached.status.as_deref(), Some("cached"));
    assert_eq!(cached.debug_info, None);
    let ocr = ScanProgressPayload::ocr("/d/a.pdf", "New file detected");
    assert_eq!(ocr.status.as_deref(), Some("ocr"));
    assert_eq!(
        ocr.debug_info.as_deref(),
        Some("New file detected\n\nOCR processing:\nExtracting text from images...\nThis may take a few moments")
    );
    let bare = ScanProgressPayload::ocr("/d/a.pdf", "");
    assert_eq!(
        bare.debug_info.as_deref(),
        Some("OCR processing:\nExtracting text from images...\nThis may take a few moments")
    );
    let end = ScanProgressPayload::finished();
    assert!(end.path.is_none() && end.status.is_none() && end.debug_info.is_none());
}

/// A directory as a scan meets it: the files with their modification
/// time, their checksum and the XML of their slides.
struct Tree {
    files: Vec<(String, u64, String, Vec<String>)>,
}

impl Tree {
    fn scan(&self, manager: &mut StateManager, now: u64) -> slides_indexer::models::ScanSummary {
        let (_, baseline) = manager.scan_plan();
        let outcome = self.run(baseline, manager, now);
        manager.rescan(outcome, now, &None)
    }

    fn scan_directory(&self, directory: &str, manager: &mut StateManager, now: u64) -> slides_indexer::models::ScanSummary {
        let baseline = manager.directory_plan(directory).unwrap();
        let outcome = self.run(baseline, manager, now);
        manager.rescan_directory(directory, outcome, now, &None).unwrap()
    }

    fn run(&self, baseline: Vec<SlideIndexItem>, manager: &mut StateManager, now: u64) -> ScanOutcome {
        let mut scanner = Scanner::new(baseline);
        for (path, modified, checksum, slides) in &self.files {
            let name = path.rsplit('/').next().unwrap().to_string();
            let file = FileProbe { path: path.clone(), name: name.clone(), kind: SlideKind::Pptx, modified_at: Some(*modified) };
            match scanner.probe(&file) {
                ProbeDecision::Temporary | ProbeDecision::Seen => continue,
                ProbeDecision::Cached(reused) => {
                    manager.record_item(reused, now);
                    continue;
                },
                ProbeDecision::NeedsChecksum => {},
            }
            match scanner.resolve(&file, &Some(checksum.clone())) {
                ChecksumVerdict::Seen => {},
                ChecksumVerdict::Cached(reused) => manager.record_item(reused, now),
                ChecksumVerdict::Extract { .. } => {
                    let fresh = index_pptx(path, &name, slides, Some(*modified), Some(checksum.clone()), now);
                    manager.record_item(fresh.clone(), now);
                    scanner.record_extracted(fresh);
                },
            }
        }
        scanner.finish()
    }
}

fn slide(text: &str) -> String {
    format!("<p:sld><a:t>{}</a:t></p:sld>", text)
}

#[test]
fn a_deck_is_indexed_and_found() {
    let tree = Tree { files: vec![("/decks/a.pptx".to_string(), 100, "sum-a".to_string(), vec![slide("Quarterly Revenue Growth")])] };
    let mut manager = StateManager::new(AppState::default());
    manager.update_directories(vec!["/decks".to_string()], &None);
    let summary = tree.scan(&mut manager, 5000);
    assert_eq!(summary.indexed, 1);
    assert_eq!(summary.scanned, Some(1));
    assert_eq!(summary.cached, Some(0));
    assert_eq!(summary.last_indexed_at, Some(5000));
    let stored = &manager.state().items;
    assert_eq!(stored.len(), 1);
    assert_eq!(stored[0].kind, SlideKind::Pptx);
    assert_eq!(stored[0].slides.len(), 1);
    assert_eq!(stored[0].slides[0].text, "Quarterly Revenue Growth");
    assert_eq!(stored[0].snippet, "Quarterly Revenue Growth");
    let found = manager.search("revenue");
    assert_eq!(found.total, 1);
    assert_eq!(found.items[0].path, "/decks/a.pptx");
    let found = manager.search("\"quarterly revenue\"");
    assert_eq!(found.total, 1);
    assert_eq!(found.items[0].path, "/decks/a.pptx");
    assert_eq!(manager.search("marketing").total, 0);
    let id = stored[0].id.clone();
    assert_eq!(manager.find_item(&id).unwrap().path, "/decks/a.pptx");
}

#[test]
fn two_rescans_in_a_row_give_the_same_items() {
    let tree = Tree {
        files: vec![
            ("/decks/a.pptx".to_string(), 100, "sum-a".to_string(), vec![slide("Alpha deck")]),
            ("/decks/b.pptx".to_string(), 300, "sum-b".to_string(), vec![slide("Beta deck")]),
            ("/decks/c.pptx".to_string(), 200, "sum-c".to_string(), vec![slide("Gamma deck")]),
        ],
    };
    let mut manager = StateManager::new(AppState::default());
    manager.update_directories(vec!["/decks".to_string()], &None);
    let first = tree.scan(&mut manager, 1000);
    assert_eq!(first.scanned, Some(3));
    assert_eq!(first.cached, Some(0));
    let after_first: Vec<(String, u64, String)> =
        manager.state().items.iter().map(|i| (i.path.clone(), i.updated_at, i.snippet.clone())).collect();
    let second = tree.scan(&mut manager, 2000);
    assert_eq!(second.scanned, Some(0));
    assert_eq!(second.cached, Some(3));
    assert_eq!(second.indexed, 3);
    let after_second: Vec<(String, u64, String)> =
        manager.state().items.iter().map(|i| (i.path.clone(), i.updated_at, i.snippet.clone())).collect();
    assert_eq!(after_first, after_second);
    assert_eq!(paths(&manager), vec!["/decks/b.pptx", "/decks/c.pptx", "/decks/a.pptx"]);
}

#[test]
fn a_touched_file_with_the_same_content_is_not_extracted_again() {
    let mut tree = Tree { files: vec![("/decks/a.pptx".to_string(), 100, "sum-a".to_string(), vec![slide("Alpha deck")])] };
    let mut manager = StateManager::new(AppState::default());
    manager.update_directories(vec!["/decks".to_string()], &None);
    tree.scan(&mut manager, 1000);
    tree.files[0].1 = 150;
    let summary = tree.scan(&mut manager, 2000);
    assert_eq!(summary.scanned, Some(0));
    assert_eq!(summary.cached, Some(1));
    assert_eq!(manager.state().items[0].checksum.as_deref(), Some("sum-a"));
    assert_eq!(manager.state().items[0].updated_at, 100);
}

#[test]
fn a_file_with_new_content_is_extracted_again_in_place() {
    let mut tree = Tree { files: vec![("/decks/a.pptx".to_string(), 100, "sum-a".to_string(), vec![slide("Alpha deck")])] };
    let mut manager = StateManager::new(AppState::default());
    manager.update_directories(vec!["/decks".to_string()], &None);
    tree.scan(&mut manager, 1000);
    let id = manager.state().items[0].id.clone();
    tree.files[0] = ("/decks/a.pptx".to_string(), 150, "sum-b".to_string(), vec![slide("Omega deck")]);
    let summary = tree.scan(&mut manager, 2000);
    assert_eq!(summary.scanned, Some(1));
    assert_eq!(summary.cached, Some(0));
    assert_eq!(manager.state().items.len(), 1);
    assert_eq!(manager.state().items[0].id, id);
    assert_eq!(manager.state().items[0].snippet, "Omega deck");
    assert_eq!(manager.state().items[0].checksum.as_deref(), Some("sum-b"));
    assert_eq!(manager.state().items[0].updated_at, 150);
}

#[test]
fn a_removed_file_loses_its_item_when_its_directory_is_rescanned() {
    let mut tree = Tree {
        files: vec![
            ("/decks/a.pptx".to_string(), 100, "sum-a".to_string(), vec![slide("Alpha deck")]),
            ("/decks/b.pptx".to_string(), 300, "sum-b".to_string(), vec![slide("Beta deck")]),
        ],
    };
    let mut manager = StateManager::new(state(&["/decks", "/other"], vec![item("/other/o.pptx", 50)]));
    tree.scan_directory("/decks", &mut manager, 1000);
    assert_eq!(paths(&manager), vec!["/decks/b.pptx", "/decks/a.pptx", "/other/o.pptx"]);
    tree.files.remove(0);
    let summary = tree.scan_directory("/decks", &mut manager, 2000);
    assert_eq!(paths(&manager), vec!["/decks/b.pptx", "/other/o.pptx"]);
    assert_eq!(summary.indexed, 2);
    assert_eq!(summary.cached, Some(1));
    assert_eq!(summary.scanned, Some(0));
}

fn marked(path: &str, updated_at: u64, snippet: &str) -> SlideIndexItem {
    let mut made = item(path, updated_at);
    made.snippet = snippet.to_string();
    made
}

#[test]
fn of_items_of_one_path_the_first_is_kept() {
    let items = vec![marked("/a", 1, "first"), item("/b", 2), marked("/a", 3, "second"), item("/b", 4), item("/c", 5)];
    let kept = unique_items(items);
    let found: Vec<(&str, u64)> = kept.iter().map(|i| (i.path.as_str(), i.updated_at)).collect();
    assert_eq!(found, vec![("/a", 1), ("/b", 2), ("/c", 5)]);
    assert!(unique_items(vec![]).is_empty());
}

#[test]
fn a_rescan_keeps_one_item_for_a_path() {
    let mut manager = StateManager::new(state(&["/a", "/a/b"], vec![]));
    let scan = outcome(
        vec![marked("/a/b/x.pptx", 30, "one"), item("/a/y.pptx", 20), marked("/a/b/x.pptx", 30, "two")],
        &[],
        3,
        0,
    );
    let summary = manager.rescan(scan, 5, &None);
    assert_eq!(paths(&manager), vec!["/a/b/x.pptx", "/a/y.pptx"]);
    assert_eq!(manager.state().items[0].snippet, "one");
    assert_eq!(summary.indexed, 2);
    assert_eq!(summary.scanned, Some(3));
}

#[test]
fn the_rescan_of_a_directory_keeps_one_item_for_a_path() {
    let stored = vec![marked("/e/k.pptx", 50, "kept"), item("/d/a.pptx", 40), marked("/e/k.pptx", 30, "later")];
    let mut manager = StateManager::new(state(&["/d", "/e"], stored));
    let scan = outcome(
        vec![marked("/d/a.pptx", 45, "fresh"), marked("/d/a.pptx", 44, "again"), marked("/e/k.pptx", 99, "stray")],
        &[],
        2,
        0,
    );
    let summary = manager.rescan_directory("/d", scan, 9, &None).unwrap();
    assert_eq!(paths(&manager), vec!["/e/k.pptx", "/d/a.pptx"]);
    assert_eq!(manager.state().items[0].snippet, "kept");
    assert_eq!(manager.state().items[1].snippet, "fresh");
    assert_eq!(summary.indexed, 2);
}

#[test]
fn merging_an_item_leaves_one_item_for_every_path() {
    let stored = vec![marked("/d/a.pptx", 50, "old"), item("/d/b.pptx", 40), marked("/d/a.pptx", 30, "older"), item("/d/b.pptx", 20)];
    let mut manager = StateManager::new(state(&["/d"], stored));
    manager.record_item(marked("/d/a.pptx", 60, "new"), 7);
    assert_eq!(paths(&manager), vec!["/d/a.pptx", "/d/b.pptx"]);
    assert_eq!(manager.state().items[0].snippet, "new");
    assert_eq!(manager.state().items[1].updated_at, 40);
}

#[test]
fn nested_roots_give_one_item_for_every_file() {
    // the walk of /decks meets the files of /decks/sub, and the walk of
    // /decks/sub meets them again
    let tree = Tree {
        files: vec![
            ("/decks/a.pptx".to_string(), 100, "sum-a".to_string(), vec![slide("Alpha deck")]),
            ("/decks/sub/b.pptx".to_string(), 300, "sum-b".to_string(), vec![slide("Beta deck")]),
            ("/decks/sub/b.pptx".to_string(), 300, "sum-b".to_string(), vec![slide("Beta deck")]),
        ],
    };
    let mut manager = StateManager::new(AppState::default());
    manager.update_directories(vec!["/decks".to_string(), "/decks/sub".to_string()], &None);
    let first = tree.scan(&mut manager, 1000);
    assert_eq!(paths(&manager), vec!["/decks/sub/b.pptx", "/decks/a.pptx"]);
    assert_eq!(first.indexed, 2);
    assert_eq!(first.scanned, Some(2));
    assert_eq!(first.cached, Some(0));
    let second = tree.scan(&mut manager, 2000);
    assert_eq!(paths(&manager), vec!["/decks/sub/b.pptx", "/decks/a.pptx"]);
    assert_eq!(second.indexed, 2);
    assert_eq!(second.scanned, Some(0));
    assert_eq!(second.cached, Some(2));
}
