//! From the content of a file to its item: one extractor for each format.
//! Reading the file, and running the outside programs that help with
//! PDFs, is the caller's part; what is done with their output is decided here.

use vstd::prelude::*;
use crate::chars::{
    ends_with, from_chars, has_prefix, has_suffix, starts_with, to_chars, trim_chars, trimmed,
};
use crate::digest::{hash_of, id_of};
use crate::keywords::{
    derive_keywords, keywords_disjoint, keywords_of, preview_texts, MAX_KEYWORDS,
};
use crate::models::{ItemView, PreviewView, SlideIndexItem, SlideKind, SlidePreview};
use crate::pdf::{extract_pdf_contents, pdf_contents};
use crate::text::{
    collapse_chars, collapsed, gibberish, has_meaningful_chars, if_text, is_gibberish_chars,
    joined, meaningful, normalize_chars, normalized, snippet_of, truncate_chars, views,
    MAX_SNIPPET_LENGTH,
};
use crate::tools::{is_ocr_available, CommandStatus};
use crate::xml::{extract_run_chars, text_runs};

verus! {

/// The most page images that OCR reads.
pub const MAX_OCR_PAGES: usize = 40;

/// A count as a 32-bit number, the greatest one standing for all beyond it.
pub open spec fn clamp_u32(n: nat) -> u32 {
    if n <= u32::MAX {
        n as u32
    } else {
        u32::MAX
    }
}

/// A count as a 32-bit number.
fn clamp(n: usize) -> (out: u32)
    ensures
        out == clamp_u32(n as nat),
{
    if n <= u32::MAX as usize {
        n as u32
    } else {
        u32::MAX
    }
}

/// The previews of the given texts: the text at position `i` has the index `i + 1`.
pub open spec fn previews_of(texts: Seq<Seq<char>>) -> Seq<PreviewView> {
    Seq::new(texts.len(), |i: int| PreviewView { index: clamp_u32((i + 1) as nat), text: texts[i] })
}

/// What holds of every item an extractor makes: its id belongs to its
/// path, its snippet has at most 240 characters, it has at most 40
/// keywords, and none of them is a token of one of its previews.
pub open spec fn item_made_well(item: ItemView) -> bool {
    &&& item.id == id_of(item.path)
    &&& item.snippet.len() <= MAX_SNIPPET_LENGTH
    &&& item.keywords.len() <= MAX_KEYWORDS
    &&& keywords_disjoint(item.keywords, preview_texts(item.slides))
}

/// The modification time of a new item: that of the file, or the present
/// time where the file's could not be read.
pub open spec fn stamp(modified_at: Option<u64>, now: u64) -> u64 {
    match modified_at {
        Some(modified) => modified,
        None => now,
    }
}

/// The texts as previews, in their order.
fn make_previews(texts: &Vec<Vec<char>>) -> (previews: Vec<SlidePreview>)
    ensures
        previews.deep_view() == previews_of(views(texts@)),
{
    let mut previews: Vec<SlidePreview> = Vec::new();
    let mut i: usize = 0;
    while i < texts.len()
        invariant
            i <= texts.len(),
            previews.len() == i,
            forall|k: int| 0 <= k < i ==> previews[k]@ == previews_of(views(texts@))[k],
        decreases texts.len() - i,
    {
        previews.push(SlidePreview { index: clamp(i + 1), text: from_chars(texts[i].as_slice()) });
        i += 1;
    }
    assert(previews.deep_view() =~= previews_of(views(texts@)));
    previews
}

/// An item put together from what an extractor found: the snippet is cut
/// from its source, and the keywords are derived from theirs beside the
/// previews; without a source for keywords there are none.
pub open spec fn assembled(
    path: Seq<char>,
    name: Seq<char>,
    kind: SlideKind,
    slide_count: Option<u32>,
    snippet_source: Seq<char>,
    keyword_source: Option<Seq<char>>,
    texts: Seq<Seq<char>>,
    modified_at: Option<u64>,
    checksum: Option<Seq<char>>,
    now: u64,
) -> ItemView {
    ItemView {
        id: id_of(path),
        path,
        name,
        kind,
        slide_count,
        snippet: snippet_of(snippet_source),
        keywords: match keyword_source {
            Some(source) => keywords_of(source, texts),
            None => Seq::empty(),
        },
        updated_at: stamp(modified_at, now),
        slides: previews_of(texts),
        checksum,
    }
}

/// Puts an item together.
fn assemble(
    path: &str,
    name: &str,
    kind: SlideKind,
    slide_count: Option<u32>,
    snippet_source: &[char],
    keyword_source: Option<&[char]>,
    texts: &Vec<Vec<char>>,
    modified_at: Option<u64>,
    checksum: Option<String>,
    now: u64,
) -> (item: SlideIndexItem)
    ensures
        item@ == assembled(
            path@,
            name@,
            kind,
            slide_count,
            snippet_source@,
            match keyword_source {
                Some(source) => Some(source@),
                None => None,
            },
            views(texts@),
            modified_at,
            checksum.deep_view(),
            now,
        ),
        item_made_well(item@),
{
    let previews = make_previews(texts);
    proof {
        lemma_preview_texts(views(texts@));
    }
    let keywords = match keyword_source {
        Some(source) => {
            let text = from_chars(source);
            derive_keywords(text.as_str(), &previews)
        },
        None => {
            let none: Vec<String> = Vec::new();
            assert(none.deep_view() =~= Seq::empty());
            none
        },
    };
    let snippet = truncate_chars(snippet_source);
    SlideIndexItem {
        id: hash_of(path),
        path: string_of(path),
        name: string_of(name),
        kind,
        slide_count,
        snippet: from_chars(snippet.as_slice()),
        keywords,
        updated_at: match modified_at {
            Some(modified) => modified,
            None => now,
        },
        slides: previews,
        checksum,
    }
}

/// An owned copy of a text.
fn string_of(text: &str) -> (out: String)
    ensures
        out@ == text@,
{
    let chars = to_chars(text);
    from_chars(chars.as_slice())
}

/// The previews' texts are the texts they were made of.
proof fn lemma_preview_texts(texts: Seq<Seq<char>>)
    ensures
        preview_texts(previews_of(texts)) == texts,
{
    assert(preview_texts(previews_of(texts)) =~= texts);
}

/// The texts of the slides that have any, each cleaned.
pub open spec fn kept_slide_texts(xmls: Seq<Seq<char>>) -> Seq<Seq<char>>
    decreases xmls.len(),
{
    if xmls.len() == 0 {
        Seq::empty()
    } else {
        kept_slide_texts(xmls.drop_last()) + if_text(normalized(text_runs(xmls.last())))
    }
}

/// The item of a presentation in the zip-based format, from the XML of
/// its slide parts in the order of the archive. A slide gives a preview if
/// its cleaned text is not empty; the previews are numbered from 1; the
/// snippet and the keywords come from the texts of all previews.
pub open spec fn pptx_item(
    path: Seq<char>,
    name: Seq<char>,
    xmls: Seq<Seq<char>>,
    modified_at: Option<u64>,
    checksum: Option<Seq<char>>,
    now: u64,
) -> ItemView {
    let texts = kept_slide_texts(xmls);
    let combined = collapsed(joined(texts));
    assembled(
        path,
        name,
        SlideKind::Pptx,
        if texts.len() == 0 {
            None
        } else {
            Some(clamp_u32(texts.len()))
        },
        combined,
        Some(combined),
        texts,
        modified_at,
        checksum,
        now,
    )
}

/// Whether the name of an archive entry is that of a slide part.
pub open spec fn is_slide_part_name(name: Seq<char>) -> bool {
    starts_with(name, "ppt/slides/slide"@) && ends_with(name, ".xml"@)
}

/// Whether an archive entry is a slide part: its name begins with
/// `ppt/slides/slide` and ends with `.xml`.
pub fn is_slide_part(name: &str) -> (slide: bool)
    ensures
        slide == is_slide_part_name(name@),
{
    let chars = to_chars(name);
    let head = to_chars("ppt/slides/slide");
    let tail = to_chars(".xml");
    has_prefix(chars.as_slice(), head.as_slice()) && has_suffix(chars.as_slice(), tail.as_slice())
}

/// Indexes a presentation in the zip-based format from the XML of its
/// slide parts, given in the order of the archive.
pub fn index_pptx(
    path: &str,
    name: &str,
    slide_parts: &Vec<String>,
    modified_at: Option<u64>,
    checksum: Option<String>,
    now: u64,
) -> (item: SlideIndexItem)
    ensures
        item@ == pptx_item(
            path@,
            name@,
            slide_parts.deep_view(),
            modified_at,
            checksum.deep_view(),
            now,
        ),
        item_made_well(item@),
{
    let mut texts: Vec<Vec<char>> = Vec::new();
    let mut i: usize = 0;
    assert(slide_parts.deep_view().take(0) =~= Seq::empty());
    assert(views(texts@) =~= Seq::empty());
    while i < slide_parts.len()
        invariant
            i <= slide_parts.len(),
            views(texts@) == kept_slide_texts(slide_parts.deep_view().take(i as int)),
        decreases slide_parts.len() - i,
    {
        let ghost prefix = slide_parts.deep_view().take(i + 1);
        let ghost before = views(texts@);
        assert(prefix.drop_last() =~= slide_parts.deep_view().take(i as int));
        assert(prefix.last() == slide_parts[i as int]@);
        let xml = to_chars(slide_parts[i].as_str());
        let runs = extract_run_chars(xml.as_slice());
        let text = normalize_chars(runs.as_slice());
        if text.len() > 0 {
            texts.push(text);
            assert(views(texts@) =~= before + if_text(normalized(text_runs(slide_parts[i as int]@))));
        } else {
            assert(before + Seq::<Seq<char>>::empty() =~= before);
        }
        i += 1;
    }
    assert(slide_parts.deep_view().take(slide_parts.len() as int) =~= slide_parts.deep_view());
    let combined = crate::text::join_words(&texts);
    let cleaned = collapse_chars(combined.as_slice());
    let slide_count = if texts.len() == 0 {
        None
    } else {
        Some(clamp(texts.len()))
    };
    assemble(
        path,
        name,
        SlideKind::Pptx,
        slide_count,
        cleaned.as_slice(),
        Some(cleaned.as_slice()),
        &texts,
        modified_at,
        checksum,
        now,
    )
}

/// The bytes of a file in the legacy binary format read as text: the
/// printable characters of ASCII, tab, line feed and carriage return stay,
/// every other byte is a space.
pub open spec fn ascii_text(bytes: Seq<u8>) -> Seq<char> {
    Seq::new(
        bytes.len(),
        |i: int|
            if bytes[i] == 9 || bytes[i] == 10 || bytes[i] == 13 || (0x20 <= bytes[i] && bytes[i]
                <= 0x7E) {
                bytes[i] as char
            } else {
                ' '
            },
    )
}

/// The item of a presentation in the legacy binary format. Its cleaned
/// text is its one preview, unless it is empty or gibberish: then the item
/// has no preview, an empty snippet and no keyword. The format tells no
/// number of slides.
pub open spec fn ppt_item(
    path: Seq<char>,
    name: Seq<char>,
    bytes: Seq<u8>,
    modified_at: Option<u64>,
    checksum: Option<Seq<char>>,
    now: u64,
) -> ItemView {
    let cleaned = normalized(ascii_text(bytes));
    let shown = cleaned.len() > 0 && !gibberish(cleaned);
    let texts = if shown {
        seq![cleaned]
    } else {
        Seq::empty()
    };
    let source = if shown {
        cleaned
    } else {
        Seq::empty()
    };
    assembled(
        path,
        name,
        SlideKind::Ppt,
        None,
        source,
        Some(source),
        texts,
        modified_at,
        checksum,
        now,
    )
}

/// Indexes a presentation in the legacy binary format from its bytes.
pub fn index_ppt(
    path: &str,
    name: &str,
    buffer: &[u8],
    modified_at: Option<u64>,
    checksum: Option<String>,
    now: u64,
) -> (item: SlideIndexItem)
    ensures
        item@ == ppt_item(path@, name@, buffer@, modified_at, checksum.deep_view(), now),
        item_made_well(item@),
{
    let mut ascii: Vec<char> = Vec::new();
    let mut i: usize = 0;
    while i < buffer.len()
        invariant
            i <= buffer.len(),
            ascii@ == ascii_text(buffer@).take(i as int),
        decreases buffer.len() - i,
    {
        let b = buffer[i];
        if b == 9 || b == 10 || b == 13 || (0x20 <= b && b <= 0x7E) {
            ascii.push(b as char);
        } else {
            ascii.push(' ');
        }
        assert(ascii@ =~= ascii_text(buffer@).take(i + 1));
        i += 1;
    }
    assert(ascii_text(buffer@).take(buffer@.len() as int) =~= ascii_text(buffer@));
    let cleaned = normalize_chars(ascii.as_slice());
    let shown = cleaned.len() > 0 && !is_gibberish_chars(cleaned.as_slice());
    let mut texts: Vec<Vec<char>> = Vec::new();
    let nothing: Vec<char> = Vec::new();
    assert(views(texts@) =~= Seq::empty());
    if shown {
        texts.push(cleaned);
        assert(views(texts@) =~= seq![normalized(ascii_text(buffer@))]);
        assemble(
            path,
            name,
            SlideKind::Ppt,
            None,
            texts[0].as_slice(),
            Some(texts[0].as_slice()),
            &texts,
            modified_at,
            checksum,
            now,
        )
    } else {
        assemble(
            path,
            name,
            SlideKind::Ppt,
            None,
            nothing.as_slice(),
            Some(nothing.as_slice()),
            &texts,
            modified_at,
            checksum,
            now,
        )
    }
}

/// The texts of the pages that are worth showing, each cleaned.
pub open spec fn kept_page_texts(pages: Seq<Seq<char>>) -> Seq<Seq<char>>
    decreases pages.len(),
{
    if pages.len() == 0 {
        Seq::empty()
    } else {
        let cleaned = normalized(pages.last());
        if meaningful(cleaned) {
            kept_page_texts(pages.drop_last()).push(cleaned)
        } else {
            kept_page_texts(pages.drop_last())
        }
    }
}

/// The cleaned texts of the pages that are worth showing.
fn keep_pages(raw_pages: &Vec<String>) -> (texts: Vec<Vec<char>>)
    ensures
        views(texts@) == kept_page_texts(raw_pages.deep_view()),
{
    let mut texts: Vec<Vec<char>> = Vec::new();
    let mut i: usize = 0;
    assert(raw_pages.deep_view().take(0) =~= Seq::empty());
    assert(views(texts@) =~= Seq::empty());
    while i < raw_pages.len()
        invariant
            i <= raw_pages.len(),
            views(texts@) == kept_page_texts(raw_pages.deep_view().take(i as int)),
        decreases raw_pages.len() - i,
    {
        let ghost prefix = raw_pages.deep_view().take(i + 1);
        let ghost before = views(texts@);
        assert(prefix.drop_last() =~= raw_pages.deep_view().take(i as int));
        assert(prefix.last() == raw_pages[i as int]@);
        let page = to_chars(raw_pages[i].as_str());
        let cleaned = normalize_chars(page.as_slice());
        if has_meaningful_chars(cleaned.as_slice()) {
            texts.push(cleaned);
            assert(views(texts@) =~= before.push(normalized(raw_pages[i as int]@)));
        }
        i += 1;
    }
    assert(raw_pages.deep_view().take(raw_pages.len() as int) =~= raw_pages.deep_view());
    texts
}

/// Cleans the raw text of pages. A page gives a preview if its cleaned
/// text is worth showing; the previews are numbered from 1. Beside the
/// previews stands their text, joined by spaces.
pub fn build_previews_from_pages(raw_pages: &Vec<String>) -> (built: (Vec<SlidePreview>, String))
    ensures
        built.0.deep_view() == previews_of(kept_page_texts(raw_pages.deep_view())),
        built.1@ == joined(kept_page_texts(raw_pages.deep_view())),
{
    let texts = keep_pages(raw_pages);
    let combined = crate::text::join_words(&texts);
    (make_previews(&texts), from_chars(combined.as_slice()))
}

/// The pages met so far and the page that is still open, after the
/// characters of `s` were read from left to right. A form feed ends a page.
pub open spec fn page_state(s: Seq<char>) -> (Seq<Seq<char>>, Seq<char>)
    decreases s.len(),
{
    if s.len() == 0 {
        (Seq::empty(), Seq::empty())
    } else {
        let (done, open) = page_state(s.drop_last());
        if s.last() == '\u{c}' {
            (done + if_text(trimmed(open)), Seq::empty())
        } else {
            (done, open.push(s.last()))
        }
    }
}

/// The pages of the output of the layout-text extractor: the parts
/// between form feeds, trimmed, the empty ones left out.
pub open spec fn form_feed_pages(raw: Seq<char>) -> Seq<Seq<char>> {
    let (done, open) = page_state(raw);
    done + if_text(trimmed(open))
}

/// Splits the output of the layout-text extractor into pages at the form
/// feeds, trims them and leaves out the empty ones.
pub fn split_text_pages(raw: &str) -> (pages: Vec<String>)
    ensures
        pages.deep_view() == form_feed_pages(raw@),
{
    let chars = to_chars(raw);
    let mut pages: Vec<String> = Vec::new();
    let mut open: Vec<char> = Vec::new();
    let mut i: usize = 0;
    assert(chars@.take(0) =~= Seq::empty());
    assert(pages.deep_view() =~= Seq::empty());
    while i < chars.len()
        invariant
            i <= chars.len(),
            (pages.deep_view(), open@) == page_state(chars@.take(i as int)),
        decreases chars.len() - i,
    {
        assert(chars@.take(i + 1).drop_last() =~= chars@.take(i as int));
        assert(chars@.take(i + 1).last() == chars@[i as int]);
        let ghost before = pages.deep_view();
        let ghost page = trimmed(open@);
        if chars[i] == '\u{c}' {
            let kept = trim_chars(open.as_slice());
            if kept.len() > 0 {
                pages.push(from_chars(kept.as_slice()));
                assert(pages.deep_view() =~= before + if_text(page));
            } else {
                assert(before + if_text(page) =~= before);
            }
            open = Vec::new();
        } else {
            open.push(chars[i]);
        }
        i += 1;
    }
    assert(chars@.take(chars@.len() as int) =~= chars@);
    let ghost before = pages.deep_view();
    let ghost page = trimmed(open@);
    let kept = trim_chars(open.as_slice());
    if kept.len() > 0 {
        pages.push(from_chars(kept.as_slice()));
        assert(pages.deep_view() =~= before + if_text(page));
    } else {
        assert(before + if_text(page) =~= before);
    }
    pages
}

/// The texts that OCR gave for the first `count` page images: an image
/// for which the engine failed, or whose text is blank, gives none.
pub open spec fn ocr_texts(outputs: Seq<Option<Seq<char>>>, count: int) -> Seq<Seq<char>>
    decreases count,
{
    if count <= 0 || count > outputs.len() {
        Seq::empty()
    } else {
        match outputs[count - 1] {
            Some(text) => if trimmed(text).len() > 0 {
                ocr_texts(outputs, count - 1).push(text)
            } else {
                ocr_texts(outputs, count - 1)
            },
            None => ocr_texts(outputs, count - 1),
        }
    }
}

/// The number of page images that OCR reads: all of them, but at most 40.
pub open spec fn ocr_limit(images: nat) -> nat {
    if images <= MAX_OCR_PAGES {
        images
    } else {
        MAX_OCR_PAGES as nat
    }
}

/// The number of page images that OCR is to read, of those that the
/// rasterizer made.
pub fn ocr_page_limit(images: usize) -> (limit: usize)
    ensures
        limit == ocr_limit(images as nat),
{
    if images <= MAX_OCR_PAGES {
        images
    } else {
        MAX_OCR_PAGES
    }
}

/// The pages that OCR gave, from what the engine put out for the page
/// images in the order of their file names: only the first 40 images
/// count, and an image gives a page if the engine ran and its text is not blank.
pub fn collect_ocr_pages(outputs: &Vec<Option<String>>) -> (pages: Vec<String>)
    ensures
        pages.deep_view() == ocr_texts(
            outputs.deep_view(),
            ocr_limit(outputs.len() as nat) as int,
        ),
{
    let limit = ocr_page_limit(outputs.len());
    let mut pages: Vec<String> = Vec::new();
    let mut i: usize = 0;
    assert(pages.deep_view() =~= Seq::empty());
    while i < limit
        invariant
            i <= limit <= outputs.len(),
            pages.deep_view() == ocr_texts(outputs.deep_view(), i as int),
        decreases limit - i,
    {
        let ghost before = pages.deep_view();
        assert(outputs.deep_view()[i as int] == outputs[i as int].deep_view());
        match &outputs[i] {
            Some(text) => {
                let chars = to_chars(text.as_str());
                let kept = trim_chars(chars.as_slice());
                if kept.len() > 0 {
                    pages.push(text.clone());
                    assert(pages.deep_view() =~= before.push(text@));
                }
            },
            None => {},
        }
        i += 1;
    }
    pages
}

/// The two ways to get the text of a PDF with the help of an outside program.
#[derive(Debug, Clone, Copy, PartialEq, Eq, Structural)]
pub enum PdfTier {
    /// The layout-text extractor.
    LayoutText,
    /// The rasterizer and the OCR engine.
    Ocr,
}

/// View of a [`PdfDraft`].
pub struct DraftView {
    pub texts: Seq<Seq<char>>,
    pub snippet_source: Seq<char>,
    pub keyword_source: Seq<char>,
    pub page_count: Option<nat>,
}

/// A text if it is worth showing, and the empty text otherwise.
pub open spec fn or_empty(text: Seq<char>) -> Seq<char> {
    if meaningful(text) {
        text
    } else {
        Seq::empty()
    }
}

/// The first text, unless it is not worth showing and the second is.
pub open spec fn filled_from(text: Seq<char>, other: Seq<char>) -> Seq<char> {
    if !meaningful(text) && meaningful(other) {
        other
    } else {
        text
    }
}

/// What the bytes of a PDF give without outside help: the previews of the
/// stream regions worth showing, the cleaned text of all regions as
/// source of the snippet, the text of the previews as source of the
/// keywords, each of the two standing in for the other where only one is
/// worth showing, and the estimate of the number of pages.
pub open spec fn native_draft(buffer: Seq<u8>) -> DraftView {
    let contents = pdf_contents(buffer);
    let texts = kept_page_texts(contents.pages);
    let snippet = or_empty(normalized(contents.text));
    let keyword = filled_from(or_empty(joined(texts)), snippet);
    DraftView {
        texts,
        snippet_source: filled_from(snippet, keyword),
        keyword_source: keyword,
        page_count: contents.page_count,
    }
}

impl DraftView {
    /// Whether more is wanted: there is no text worth showing for the
    /// snippet, or there is no preview.
    pub open spec fn insufficient(self) -> bool {
        !meaningful(self.snippet_source) || self.texts.len() == 0
    }

    /// The tier to try next, after the given one (or after none): the
    /// layout-text extractor first, then OCR, each only while more is
    /// wanted and only if its programs are there.
    pub open spec fn next_tier(self, after: Option<PdfTier>, text_tool: bool, ocr: bool) -> Option<
        PdfTier,
    > {
        if !self.insufficient() {
            None
        } else if after is None && text_tool {
            Some(PdfTier::LayoutText)
        } else if after != Some(PdfTier::Ocr) && ocr {
            Some(PdfTier::Ocr)
        } else {
            None
        }
    }

    /// The draft after a tier gave its pages: their previews take the
    /// place of the earlier ones if there are any, and their text fills
    /// each source that is still not worth showing.
    pub open spec fn with_pages(self, pages: Seq<Seq<char>>) -> DraftView {
        let texts = kept_page_texts(pages);
        let combined = joined(texts);
        DraftView {
            texts: if texts.len() > 0 {
                texts
            } else {
                self.texts
            },
            snippet_source: filled_from(self.snippet_source, or_empty(combined)),
            keyword_source: filled_from(self.keyword_source, or_empty(combined)),
            ..self
        }
    }

    /// The item that the draft gives.
    pub open spec fn item(
        self,
        path: Seq<char>,
        name: Seq<char>,
        modified_at: Option<u64>,
        checksum: Option<Seq<char>>,
        now: u64,
    ) -> ItemView {
        let keyword = filled_from(self.keyword_source, self.snippet_source);
        assembled(
            path,
            name,
            SlideKind::Pdf,
            match self.page_count {
                Some(count) => Some(clamp_u32(count)),
                None => None,
            },
            self.snippet_source,
            if meaningful(keyword) {
                Some(keyword)
            } else {
                None
            },
            self.texts,
            modified_at,
            checksum,
            now,
        )
    }
}

/// The text of a PDF as far as it is known, between the tiers of extraction.
pub struct PdfDraft {
    texts: Vec<Vec<char>>,
    snippet_source: Vec<char>,
    keyword_source: Vec<char>,
    page_count: Option<usize>,
}

impl View for PdfDraft {
    type V = DraftView;

    closed spec fn view(&self) -> DraftView {
        DraftView {
            texts: views(self.texts@),
            snippet_source: self.snippet_source@,
            keyword_source: self.keyword_source@,
            page_count: match self.page_count {
                Some(count) => Some(count as nat),
                None => None,
            },
        }
    }
}

/// A copy of the characters.
fn copy_chars(text: &[char]) -> (out: Vec<char>)
    ensures
        out@ == text@,
{
    let mut out: Vec<char> = Vec::new();
    crate::chars::push_all(&mut out, text);
    out
}

/// The first text, unless it is not worth showing and the second is.
fn fill_from(text: Vec<char>, other: &[char]) -> (out: Vec<char>)
    ensures
        out@ == filled_from(text@, other@),
{
    if !has_meaningful_chars(text.as_slice()) && has_meaningful_chars(other) {
        copy_chars(other)
    } else {
        text
    }
}

/// The text if it is worth showing, and the empty text otherwise.
fn keep_or_empty(text: Vec<char>) -> (out: Vec<char>)
    ensures
        out@ == or_empty(text@),
{
    if has_meaningful_chars(text.as_slice()) {
        text
    } else {
        Vec::new()
    }
}

impl PdfDraft {
    /// The first tier: what the bytes of the file give by themselves.
    pub fn start(buffer: &[u8]) -> (draft: PdfDraft)
        ensures
            draft@ == native_draft(buffer@),
    {
        let contents = extract_pdf_contents(buffer);
        let whole = to_chars(contents.text.as_str());
        let cleaned = normalize_chars(whole.as_slice());
        let texts = keep_pages(&contents.pages);
        let combined = crate::text::join_words(&texts);
        let snippet = keep_or_empty(cleaned);
        let keyword = fill_from(keep_or_empty(combined), snippet.as_slice());
        let snippet = fill_from(snippet, keyword.as_slice());
        PdfDraft {
            texts,
            snippet_source: snippet,
            keyword_source: keyword,
            page_count: contents.page_count,
        }
    }

    /// Whether more is wanted than the tiers gave so far.
    pub fn needs_more(&self) -> (more: bool)
        ensures
            more == self@.insufficient(),
    {
        !has_meaningful_chars(self.snippet_source.as_slice()) || self.texts.len() == 0
    }

    /// The tier to try next, after the given one, or after the first if
    /// none is given; nothing if the draft will do or no program is left.
    pub fn next_tier(&self, after: Option<PdfTier>, status: &CommandStatus) -> (next: Option<
        PdfTier,
    >)
        ensures
            next == self@.next_tier(
                after,
                status.paths.pdftotext is Some,
                status.paths.pdftoppm is Some && status.paths.tesseract is Some,
            ),
    {
        if !self.needs_more() {
            return None;
        }
        match after {
            None => {
                if status.paths.pdftotext.is_some() {
                    Some(PdfTier::LayoutText)
                } else if is_ocr_available(status) {
                    Some(PdfTier::Ocr)
                } else {
                    None
                }
            },
            Some(PdfTier::LayoutText) => {
                if is_ocr_available(status) {
                    Some(PdfTier::Ocr)
                } else {
                    None
                }
            },
            Some(PdfTier::Ocr) => None,
        }
    }

    /// Takes in the pages that a tier gave.
    pub fn absorb_pages(&mut self, pages: &Vec<String>)
        ensures
            final(self)@ == old(self)@.with_pages(pages.deep_view()),
    {
        let texts = keep_pages(pages);
        let combined = keep_or_empty(crate::text::join_words(&texts));
        if texts.len() > 0 {
            self.texts = texts;
        }
        let mut snippet: Vec<char> = Vec::new();
        let mut keyword: Vec<char> = Vec::new();
        std::mem::swap(&mut snippet, &mut self.snippet_source);
        std::mem::swap(&mut keyword, &mut self.keyword_source);
        self.snippet_source = fill_from(snippet, combined.as_slice());
        self.keyword_source = fill_from(keyword, combined.as_slice());
    }

    /// The item of the file, from what the tiers gave.
    pub fn finish(
        self,
        path: &str,
        name: &str,
        modified_at: Option<u64>,
        checksum: Option<String>,
        now: u64,
    ) -> (item: SlideIndexItem)
        ensures
            item@ == self@.item(path@, name@, modified_at, checksum.deep_view(), now),
            item_made_well(item@),
    {
        let keyword = fill_from(self.keyword_source, self.snippet_source.as_slice());
        let slide_count = match self.page_count {
            Some(count) => Some(clamp(count)),
            None => None,
        };
        if has_meaningful_chars(keyword.as_slice()) {
            assemble(
                path,
                name,
                SlideKind::Pdf,
                slide_count,
                self.snippet_source.as_slice(),
                Some(keyword.as_slice()),
                &self.texts,
                modified_at,
                checksum,
                now,
            )
        } else {
            assemble(
                path,
                name,
                SlideKind::Pdf,
                slide_count,
                self.snippet_source.as_slice(),
                None,
                &self.texts,
                modified_at,
                checksum,
                now,
            )
        }
    }
}

/// Indexes a PDF from its bytes alone, without the help of outside programs.
pub fn index_pdf(
    path: &str,
    name: &str,
    buffer: &[u8],
    modified_at: Option<u64>,
    checksum: Option<String>,
    now: u64,
) -> (item: SlideIndexItem)
    ensures
        item@ == native_draft(buffer@).item(
            path@,
            name@,
            modified_at,
            checksum.deep_view(),
            now,
        ),
        item_made_well(item@),
{
    PdfDraft::start(buffer).finish(path, name, modified_at, checksum, now)
}

} // verus!
