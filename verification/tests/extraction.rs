use slides_indexer::digest::hash_of;
use slides_indexer::extract::{
    build_previews_from_pages, collect_ocr_pages, index_pdf, index_ppt, index_pptx, is_slide_part,
    ocr_page_limit, split_text_pages, PdfDraft, PdfTier,
};
use slides_indexer::models::SlideKind;
use slides_indexer::tools::resolve_command_status;

fn slide(text: &str) -> String {
    format!("<p:sld><p:sp><a:p><a:r><a:t>{}</a:t></a:r></a:p></p:sp></p:sld>", text)
}

fn pdf_with_pages(pages: &[&str]) -> Vec<u8> {
    let mut file = Vec::new();
    file.extend_from_slice(b"%PDF-1.4\n");
    for page in pages {
        file.extend_from_slice(b"<< /Type /Page >>\nstream\n(");
        file.extend_from_slice(page.as_bytes());
        file.extend_from_slice(b") Tj\nendstream\n");
    }
    file
}

#[test]
fn slide_parts_are_told_by_their_name() {
    assert!(is_slide_part("ppt/slides/slide1.xml"));
    assert!(is_slide_part("ppt/slides/slide12.xml"));
    assert!(is_slide_part("ppt/slides/slide.xml"));
    assert!(!is_slide_part("ppt/slides/_rels/slide1.xml.rels"));
    assert!(!is_slide_part("ppt/slideLayouts/slideLayout1.xml"));
    assert!(!is_slide_part("ppt/slides/slide1.XML"));
    assert!(!is_slide_part("docProps/app.xml"));
    assert!(!is_slide_part(""));
}

#[test]
fn a_deck_with_one_slide_gives_one_preview() {
    let item = index_pptx(
        "/decks/a.pptx",
        "a.pptx",
        &vec![slide("Quarterly Revenue Growth")],
        Some(1_700_000_000_000),
        Some("abc123".to_string()),
        5,
    );
    assert_eq!(item.kind, SlideKind::Pptx);
    assert_eq!(item.path, "/decks/a.pptx");
    assert_eq!(item.name, "a.pptx");
    assert_eq!(item.id, hash_of("/decks/a.pptx"));
    assert_eq!(item.slides.len(), 1);
    assert_eq!(item.slides[0].index, 1);
    assert_eq!(item.slides[0].text, "Quarterly Revenue Growth");
    assert_eq!(item.snippet, "Quarterly Revenue Growth");
    assert_eq!(item.slide_count, Some(1));
    assert_eq!(item.updated_at, 1_700_000_000_000);
    assert_eq!(item.checksum.as_deref(), Some("abc123"));
    assert!(item.keywords.is_empty());
}

#[test]
fn slides_without_text_give_no_preview_and_do_not_count() {
    let parts = vec![slide("First"), slide("   "), slide("12345"), slide("Third one")];
    let item = index_pptx("/d/b.pptx", "b.pptx", &parts, None, None, 77);
    assert_eq!(item.slides.len(), 2);
    assert_eq!(item.slides[0].index, 1);
    assert_eq!(item.slides[0].text, "First");
    assert_eq!(item.slides[1].index, 2);
    assert_eq!(item.slides[1].text, "Third one");
    assert_eq!(item.slide_count, Some(2));
    assert_eq!(item.snippet, "First Third one");
    assert_eq!(item.updated_at, 77);
    assert_eq!(item.checksum, None);
}

#[test]
fn a_deck_without_text_has_no_preview_and_no_count() {
    let item = index_pptx("/d/empty.pptx", "empty.pptx", &vec![slide(""), slide("  ")], Some(3), None, 9);
    assert!(item.slides.is_empty());
    assert_eq!(item.slide_count, None);
    assert_eq!(item.snippet, "");
    assert!(item.keywords.is_empty());
    let none = index_pptx("/d/none.pptx", "none.pptx", &vec![], Some(3), None, 9);
    assert!(none.slides.is_empty());
    assert_eq!(none.slide_count, None);
}

#[test]
fn slide_text_is_cleaned() {
    let xml = "<a:t>Title</a:t><a:t>R&amp;D   budget</a:t><a:t>en-US</a:t><a:t>2024</a:t>";
    let item = index_pptx("/d/c.pptx", "c.pptx", &vec![xml.to_string()], Some(1), None, 0);
    assert_eq!(item.slides[0].text, "R&D budget");
}

#[test]
fn the_snippet_of_a_long_deck_has_240_characters() {
    let parts: Vec<String> = (0..100).map(|n| slide(&format!("deck part{} speaks", n))).collect();
    let item = index_pptx("/d/long.pptx", "long.pptx", &parts, Some(1), None, 0);
    assert_eq!(item.snippet.chars().count(), 240);
    assert_eq!(item.slides.len(), 100);
    assert_eq!(item.slides[99].index, 100);
    assert!(item.snippet.starts_with("deck part0 speaks deck part1 speaks"));
}

#[test]
fn a_legacy_deck_gives_one_preview_of_its_readable_bytes() {
    let mut bytes = Vec::new();
    bytes.extend_from_slice(&[0xD0, 0xCF, 0x11, 0xE0, 0x00, 0x01]);
    bytes.extend_from_slice(b"Annual report for the board of directors");
    bytes.extend_from_slice(&[0x00, 0xFF, 0x80]);
    let item = index_ppt("/d/old.ppt", "old.ppt", &bytes, Some(42), Some("sum".to_string()), 0);
    assert_eq!(item.kind, SlideKind::Ppt);
    assert_eq!(item.slides.len(), 1);
    assert_eq!(item.slides[0].index, 1);
    assert_eq!(item.slides[0].text, "Annual report for the board of directors");
    assert_eq!(item.snippet, "Annual report for the board of directors");
    assert_eq!(item.slide_count, None);
    assert!(item.keywords.is_empty());
    assert_eq!(item.id, hash_of("/d/old.ppt"));
    assert_eq!(item.updated_at, 42);
    assert_eq!(item.checksum.as_deref(), Some("sum"));
}

#[test]
fn a_legacy_deck_of_gibberish_has_no_preview() {
    let bytes: Vec<u8> = std::iter::repeat(b"a1!2@3#4$5%6^7&8*9(0)-_=+".iter().copied()).take(4).flatten().collect();
    let item = index_ppt("/d/noise.ppt", "noise.ppt", &bytes, None, None, 8);
    assert!(item.slides.is_empty());
    assert_eq!(item.snippet, "");
    assert!(item.keywords.is_empty());
    assert_eq!(item.slide_count, None);
    assert_eq!(item.updated_at, 8);
    let empty = index_ppt("/d/empty.ppt", "empty.ppt", &[0u8, 1, 2, 3], None, None, 8);
    assert!(empty.slides.is_empty());
    assert_eq!(empty.snippet, "");
}

#[test]
fn pages_worth_showing_become_previews() {
    let pages = vec![
        "First page here".to_string(),
        "   ".to_string(),
        "<b>Second</b> page".to_string(),
        "--".to_string(),
    ];
    let (previews, combined) = build_previews_from_pages(&pages);
    assert_eq!(previews.len(), 2);
    assert_eq!(previews[0].index, 1);
    assert_eq!(previews[0].text, "First page here");
    assert_eq!(previews[1].index, 2);
    assert_eq!(previews[1].text, "Second page");
    assert_eq!(combined, "First page here Second page");
    let (none, nothing) = build_previews_from_pages(&vec![]);
    assert!(none.is_empty());
    assert_eq!(nothing, "");
}

#[test]
fn the_output_of_the_text_extractor_is_split_at_form_feeds() {
    assert_eq!(split_text_pages("one\u{c}two\u{c}three"), vec!["one", "two", "three"]);
    assert_eq!(split_text_pages("  one \n\u{c}\u{c} \u{c}two\u{c}"), vec!["one", "two"]);
    assert!(split_text_pages("").is_empty());
    assert!(split_text_pages("\u{c}\u{c}").is_empty());
    assert_eq!(split_text_pages("no form feed"), vec!["no form feed"]);
}

#[test]
fn ocr_reads_at_most_40_page_images() {
    assert_eq!(ocr_page_limit(0), 0);
    assert_eq!(ocr_page_limit(39), 39);
    assert_eq!(ocr_page_limit(40), 40);
    assert_eq!(ocr_page_limit(41), 40);
    assert_eq!(ocr_page_limit(10_000), 40);
}

#[test]
fn ocr_pages_are_those_that_ran_and_are_not_blank() {
    let outputs = vec![
        Some("page one\n".to_string()),
        None,
        Some("  \n".to_string()),
        Some("page four".to_string()),
    ];
    assert_eq!(collect_ocr_pages(&outputs), vec!["page one\n", "page four"]);
    let many: Vec<Option<String>> = (0..50).map(|n| Some(format!("p{}", n))).collect();
    let pages = collect_ocr_pages(&many);
    assert_eq!(pages.len(), 40);
    assert_eq!(pages[39], "p39");
    assert!(collect_ocr_pages(&vec![]).is_empty());
}

#[test]
fn a_pdf_with_text_is_indexed_from_its_bytes() {
    let file = pdf_with_pages(&["Market overview for investors", "Risks and chances ahead"]);
    let item = index_pdf("/d/r.pdf", "r.pdf", &file, Some(9), Some("c".to_string()), 0);
    assert_eq!(item.kind, SlideKind::Pdf);
    assert_eq!(item.id, hash_of("/d/r.pdf"));
    assert_eq!(item.slides.len(), 2);
    assert_eq!(item.slides[0].index, 1);
    assert_eq!(item.slides[0].text, "Market overview for investors");
    assert_eq!(item.slides[1].index, 2);
    assert_eq!(item.slides[1].text, "Risks and chances ahead");
    assert_eq!(item.snippet, "Market overview for investors Risks and chances ahead");
    assert_eq!(item.slide_count, Some(2));
    assert!(item.keywords.is_empty());
    assert_eq!(item.updated_at, 9);
    assert_eq!(item.checksum.as_deref(), Some("c"));
}

#[test]
fn a_pdf_without_text_wants_more() {
    let draft = PdfDraft::start(b"%PDF-1.4 << /Type /Page >> no streams");
    assert!(draft.needs_more());
    let with_text = PdfDraft::start(&pdf_with_pages(&["Readable words on the page"]));
    assert!(!with_text.needs_more());
}

#[test]
fn the_tiers_are_tried_in_order_while_more_is_wanted() {
    let all = resolve_command_status(Some("a".into()), Some("b".into()), Some("c".into()));
    let only_ocr = resolve_command_status(Some("a".into()), Some("b".into()), None);
    let only_text = resolve_command_status(None, Some("b".into()), Some("c".into()));
    let none = resolve_command_status(None, None, None);
    let draft = PdfDraft::start(b"%PDF-1.4");
    assert_eq!(draft.next_tier(None, &all), Some(PdfTier::LayoutText));
    assert_eq!(draft.next_tier(Some(PdfTier::LayoutText), &all), Some(PdfTier::Ocr));
    assert_eq!(draft.next_tier(Some(PdfTier::Ocr), &all), None);
    assert_eq!(draft.next_tier(None, &only_ocr), Some(PdfTier::Ocr));
    assert_eq!(draft.next_tier(None, &only_text), Some(PdfTier::LayoutText));
    assert_eq!(draft.next_tier(Some(PdfTier::LayoutText), &only_text), None);
    assert_eq!(draft.next_tier(None, &none), None);
    let done = PdfDraft::start(&pdf_with_pages(&["Readable words on the page"]));
    assert_eq!(done.next_tier(None, &all), None);
}

#[test]
fn pages_of_a_later_tier_fill_what_is_missing() {
    let mut draft = PdfDraft::start(b"%PDF-1.4 /Type /Page");
    draft.absorb_pages(&vec!["Scanned page one".to_string(), "".to_string(), "Scanned page two".to_string()]);
    assert!(!draft.needs_more());
    let item = draft.finish("/d/s.pdf", "s.pdf", None, None, 123);
    assert_eq!(item.slides.len(), 2);
    assert_eq!(item.slides[0].text, "Scanned page one");
    assert_eq!(item.slides[1].index, 2);
    assert_eq!(item.snippet, "Scanned page one Scanned page two");
    assert_eq!(item.slide_count, Some(1));
    assert_eq!(item.updated_at, 123);
    assert!(item.keywords.is_empty());
}

#[test]
fn pages_of_a_later_tier_do_not_replace_a_snippet_source() {
    let mut draft = PdfDraft::start(&pdf_with_pages(&["Native words of the file"]));
    draft.absorb_pages(&vec!["Words of the tool".to_string()]);
    let item = draft.finish("/d/t.pdf", "t.pdf", Some(1), None, 0);
    assert_eq!(item.snippet, "Native words of the file");
    assert_eq!(item.slides.len(), 1);
    assert_eq!(item.slides[0].text, "Words of the tool");
    // the keywords come from the native text, without what the preview shows
    assert_eq!(item.keywords, vec!["native", "file"]);
}

#[test]
fn a_tier_without_pages_changes_nothing() {
    let mut draft = PdfDraft::start(&pdf_with_pages(&["Native words of the file"]));
    draft.absorb_pages(&vec![]);
    draft.absorb_pages(&vec!["  ".to_string(), "!!".to_string()]);
    let item = draft.finish("/d/t.pdf", "t.pdf", Some(1), None, 0);
    assert_eq!(item.snippet, "Native words of the file");
    assert_eq!(item.slides.len(), 1);
    assert_eq!(item.slides[0].text, "Native words of the file");
}

#[test]
fn a_pdf_without_any_text_gives_an_empty_item() {
    let item = index_pdf("/d/e.pdf", "e.pdf", b"%PDF-1.4", None, None, 4);
    assert!(item.slides.is_empty());
    assert_eq!(item.snippet, "");
    assert!(item.keywords.is_empty());
    assert_eq!(item.slide_count, None);
    assert_eq!(item.updated_at, 4);
}

#[test]
fn every_item_has_a_short_snippet_and_keywords_that_no_preview_shows() {
    let long_page: String = (0..80).map(|n| format!("word{} ", n)).collect();
    let file = pdf_with_pages(&[&long_page, "second page with other words"]);
    let mut draft = PdfDraft::start(&file);
    draft.absorb_pages(&vec!["word1 word2 only".to_string()]);
    let item = draft.finish("/d/k.pdf", "k.pdf", Some(1), None, 0);
    assert!(item.snippet.chars().count() <= 240);
    assert!(item.keywords.len() <= 40);
    assert_eq!(item.keywords.len(), 40);
    for keyword in &item.keywords {
        assert_ne!(keyword, "word1");
        assert_ne!(keyword, "word2");
        assert_ne!(keyword, "only");
    }
    assert_eq!(item.keywords[0], "word0");
    assert_eq!(item.keywords[1], "word3");
}
