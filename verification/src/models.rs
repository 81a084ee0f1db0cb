//! The records of the index: documents, their previews, the persisted state
//! and the summaries handed back to callers. Each record has a mathematical
//! view in which text is a sequence of characters.

use vstd::prelude::*;
use vstd::string::StringExecFns;

verus! {

/// The three document formats the index knows.
#[derive(Debug, Clone, Copy, PartialEq, Eq, Structural)]
pub enum SlideKind {
    Pptx,
    Pdf,
    Ppt,
}

/// View of a [`SlidePreview`].
pub struct PreviewView {
    pub index: u32,
    pub text: Seq<char>,
}

/// Normalized text of one slide or page.
#[derive(Debug)]
pub struct SlidePreview {
    pub index: u32,
    pub text: String,
}

impl View for SlidePreview {
    type V = PreviewView;

    open spec fn view(&self) -> PreviewView {
        PreviewView { index: self.index, text: self.text@ }
    }
}

impl DeepView for SlidePreview {
    type V = PreviewView;

    open spec fn deep_view(&self) -> PreviewView {
        self@
    }
}

impl Clone for SlidePreview {
    fn clone(&self) -> (out: Self)
        ensures
            out@ == self@,
    {
        SlidePreview { index: self.index, text: self.text.clone() }
    }
}

/// View of a [`SlideIndexItem`].
pub struct ItemView {
    pub id: Seq<char>,
    pub path: Seq<char>,
    pub name: Seq<char>,
    pub kind: SlideKind,
    pub slide_count: Option<u32>,
    pub snippet: Seq<char>,
    pub keywords: Seq<Seq<char>>,
    pub updated_at: u64,
    pub slides: Seq<PreviewView>,
    pub checksum: Option<Seq<char>>,
}

/// One indexed document and the text derived from it.
#[derive(Debug)]
pub struct SlideIndexItem {
    pub id: String,
    pub path: String,
    pub name: String,
    pub kind: SlideKind,
    pub slide_count: Option<u32>,
    pub snippet: String,
    pub keywords: Vec<String>,
    pub updated_at: u64,
    pub slides: Vec<SlidePreview>,
    pub checksum: Option<String>,
}

impl View for SlideIndexItem {
    type V = ItemView;

    open spec fn view(&self) -> ItemView {
        ItemView {
            id: self.id@,
            path: self.path@,
            name: self.name@,
            kind: self.kind,
            slide_count: self.slide_count,
            snippet: self.snippet@,
            keywords: self.keywords.deep_view(),
            updated_at: self.updated_at,
            slides: self.slides.deep_view(),
            checksum: self.checksum.deep_view(),
        }
    }
}

impl DeepView for SlideIndexItem {
    type V = ItemView;

    open spec fn deep_view(&self) -> ItemView {
        self@
    }
}

impl Clone for SlideIndexItem {
    fn clone(&self) -> (out: Self)
        ensures
            out@ == self@,
    {
        let keywords = self.keywords.clone();
        let slides = self.slides.clone();
        let checksum = match &self.checksum {
            Some(sum) => Some(sum.clone()),
            None => None,
        };
        assert(keywords.deep_view() =~= self.keywords.deep_view());
        assert(slides.deep_view() =~= self.slides.deep_view());
        SlideIndexItem {
            id: self.id.clone(),
            path: self.path.clone(),
            name: self.name.clone(),
            kind: self.kind,
            slide_count: self.slide_count,
            snippet: self.snippet.clone(),
            keywords,
            updated_at: self.updated_at,
            slides,
            checksum,
        }
    }
}

/// No two items have the same path.
pub open spec fn one_per_path(items: Seq<ItemView>) -> bool {
    forall|i: int, j: int| 0 <= i < j < items.len() ==> items[i].path != items[j].path
}

/// Whether an item of the sequence has the path.
pub open spec fn has_path(items: Seq<ItemView>, path: Seq<char>) -> bool {
    exists|i: int| 0 <= i < items.len() && (#[trigger] items[i]).path == path
}

/// The items with, of each path, only the first item that has it.
pub open spec fn unique_paths(items: Seq<ItemView>) -> Seq<ItemView>
    decreases items.len(),
{
    if items.len() == 0 {
        Seq::empty()
    } else {
        let front = unique_paths(items.drop_last());
        if has_path(front, items.last().path) {
            front
        } else {
            front.push(items.last())
        }
    }
}

/// An item with a path that no other has can be added at the end.
pub proof fn lemma_push_one_per_path(items: Seq<ItemView>, item: ItemView)
    requires
        one_per_path(items),
        !has_path(items, item.path),
    ensures
        one_per_path(items.push(item)),
{
    let out = items.push(item);
    assert forall|i: int, j: int| 0 <= i < j < out.len() implies out[i].path != out[j].path by {
        assert(out[i] == items[i]);
        if j < items.len() {
            assert(out[j] == items[j]);
        }
    }
}

/// What is left has one item for each path, holds only items of the
/// sequence, and has an item for every path of the sequence.
pub proof fn lemma_unique_paths(items: Seq<ItemView>)
    ensures
        one_per_path(unique_paths(items)),
        unique_paths(items).len() <= items.len(),
        forall|k: int|
            0 <= k < unique_paths(items).len() ==> items.contains(
                #[trigger] unique_paths(items)[k],
            ),
        forall|path: Seq<char>|
            #![trigger has_path(items, path)]
            #![trigger has_path(unique_paths(items), path)]
            has_path(items, path) <==> has_path(unique_paths(items), path),
    decreases items.len(),
{
    if items.len() > 0 {
        let rest = items.drop_last();
        let front = unique_paths(rest);
        let out = unique_paths(items);
        lemma_unique_paths(rest);
        if !has_path(front, items.last().path) {
            lemma_push_one_per_path(front, items.last());
        }
        assert forall|k: int| 0 <= k < out.len() implies items.contains(#[trigger] out[k]) by {
            if k < front.len() {
                assert(out[k] == front[k]);
                let m = choose|m: int| 0 <= m < rest.len() && rest[m] == front[k];
                assert(items[m] == front[k]);
            } else {
                assert(items[items.len() - 1] == out[k]);
            }
        }
        assert forall|path: Seq<char>|
            #![trigger has_path(items, path)]
            #![trigger has_path(out, path)]
            has_path(items, path) <==> has_path(out, path) by {
            assert(has_path(rest, path) <==> has_path(front, path));
            if has_path(items, path) {
                let i = choose|i: int| 0 <= i < items.len() && (#[trigger] items[i]).path == path;
                if i < rest.len() {
                    assert(rest[i] == items[i]);
                    assert(has_path(rest, path));
                    let k = choose|k: int| 0 <= k < front.len() && (#[trigger] front[k]).path
                        == path;
                    assert(out[k] == front[k]);
                } else if has_path(front, items.last().path) {
                    let k = choose|k: int| 0 <= k < front.len() && (#[trigger] front[k]).path
                        == items.last().path;
                    assert(out[k] == front[k]);
                } else {
                    assert(out[out.len() - 1] == items.last());
                }
            }
            if has_path(out, path) {
                let k = choose|k: int| 0 <= k < out.len() && (#[trigger] out[k]).path == path;
                assert(items.contains(out[k]));
                let m = choose|m: int| 0 <= m < items.len() && items[m] == out[k];
                assert(items[m].path == path);
            }
        }
    }
}

/// Where no two items have the same path, all are left.
pub proof fn lemma_unique_paths_fixed(items: Seq<ItemView>)
    requires
        one_per_path(items),
    ensures
        unique_paths(items) == items,
    decreases items.len(),
{
    if items.len() == 0 {
        assert(items =~= Seq::empty());
    } else {
        let rest = items.drop_last();
        assert(one_per_path(rest)) by {
            assert forall|i: int, j: int| 0 <= i < j < rest.len() implies rest[i].path
                != rest[j].path by {
                assert(rest[i] == items[i] && rest[j] == items[j]);
            }
        }
        lemma_unique_paths_fixed(rest);
        if has_path(rest, items.last().path) {
            let i = choose|i: int| 0 <= i < rest.len() && (#[trigger] rest[i]).path
                == items.last().path;
            assert(items[i].path == items[items.len() - 1].path);
        }
        assert(rest.push(items.last()) =~= items);
    }
}

/// Whether one of the items has the path.
pub fn holds_path(items: &Vec<SlideIndexItem>, path: &String) -> (held: bool)
    ensures
        held == has_path(items.deep_view(), path@),
{
    let mut i: usize = 0;
    while i < items.len()
        invariant
            i <= items.len(),
            forall|k: int| 0 <= k < i ==> (#[trigger] items.deep_view()[k]).path != path@,
        decreases items.len() - i,
    {
        assert(items.deep_view()[i as int] == items[i as int]@);
        if items[i].path == *path {
            return true;
        }
        i += 1;
    }
    false
}

/// The items with, of each path, only the first item that has it.
pub fn unique_items(items: Vec<SlideIndexItem>) -> (out: Vec<SlideIndexItem>)
    ensures
        out.deep_view() == unique_paths(items.deep_view()),
        one_per_path(out.deep_view()),
        out.len() <= items.len(),
{
    let ghost input = items.deep_view();
    let mut pending = items;
    let mut reversed: Vec<SlideIndexItem> = Vec::new();
    while pending.len() > 0
        invariant
            pending.len() + reversed.len() == input.len(),
            forall|k: int| 0 <= k < pending.len() ==> pending[k]@ == input[k],
            forall|k: int|
                0 <= k < reversed.len() ==> (#[trigger] reversed[k])@ == input[input.len() - 1 - k],
        decreases pending.len(),
    {
        let item = pending.pop().unwrap();
        reversed.push(item);
    }
    let mut out: Vec<SlideIndexItem> = Vec::new();
    let ghost mut done: int = 0;
    assert(input.take(0) =~= Seq::<ItemView>::empty());
    assert(out.deep_view() =~= Seq::<ItemView>::empty());
    while reversed.len() > 0
        invariant
            0 <= done <= input.len(),
            reversed.len() == input.len() - done,
            forall|k: int|
                0 <= k < reversed.len() ==> (#[trigger] reversed[k])@ == input[input.len() - 1 - k],
            out.deep_view() == unique_paths(input.take(done)),
        decreases reversed.len(),
    {
        let ghost before = out.deep_view();
        let item = reversed.pop().unwrap();
        assert(item@ == input[done]);
        assert(input.take(done + 1).drop_last() =~= input.take(done));
        assert(input.take(done + 1).last() == input[done]);
        if !holds_path(&out, &item.path) {
            out.push(item);
            assert(out.deep_view() =~= before.push(input[done]));
        }
        proof {
            done = done + 1;
        }
    }
    assert(input.take(input.len() as int) =~= input);
    proof {
        lemma_unique_paths(input);
    }
    out
}

/// View of an [`AppState`].
pub struct StateView {
    pub directories: Seq<Seq<char>>,
    pub items: Seq<ItemView>,
    pub last_indexed_at: Option<u64>,
    pub warnings: Seq<Seq<char>>,
}

/// The persisted index: linked directories, the items found in them, the
/// time of the last indexing and the warnings of the last operation.
#[derive(Debug)]
pub struct AppState {
    pub directories: Vec<String>,
    pub items: Vec<SlideIndexItem>,
    pub last_indexed_at: Option<u64>,
    pub warnings: Vec<String>,
}

impl View for AppState {
    type V = StateView;

    open spec fn view(&self) -> StateView {
        StateView {
            directories: self.directories.deep_view(),
            items: self.items.deep_view(),
            last_indexed_at: self.last_indexed_at,
            warnings: self.warnings.deep_view(),
        }
    }
}

impl Clone for AppState {
    fn clone(&self) -> (out: Self)
        ensures
            out@ == self@,
    {
        let directories = self.directories.clone();
        let items = self.items.clone();
        let warnings = self.warnings.clone();
        assert(directories.deep_view() =~= self.directories.deep_view());
        assert(items.deep_view() =~= self.items.deep_view());
        assert(warnings.deep_view() =~= self.warnings.deep_view());
        AppState { directories, items, last_indexed_at: self.last_indexed_at, warnings }
    }
}

impl Default for AppState {
    fn default() -> (out: Self)
        ensures
            out@.directories.len() == 0,
            out@.items.len() == 0,
            out@.last_indexed_at is None,
            out@.warnings.len() == 0,
    {
        AppState {
            directories: Vec::new(),
            items: Vec::new(),
            last_indexed_at: None,
            warnings: Vec::new(),
        }
    }
}

/// View of a [`ScanProgressPayload`].
pub struct ProgressView {
    pub path: Option<Seq<char>>,
    pub status: Option<Seq<char>>,
    pub debug_info: Option<Seq<char>>,
}

/// One progress notification. All three fields absent marks the end of a scan.
#[derive(Debug)]
pub struct ScanProgressPayload {
    pub path: Option<String>,
    pub status: Option<String>,
    pub debug_info: Option<String>,
}

impl View for ScanProgressPayload {
    type V = ProgressView;

    open spec fn view(&self) -> ProgressView {
        ProgressView {
            path: self.path.deep_view(),
            status: self.status.deep_view(),
            debug_info: self.debug_info.deep_view(),
        }
    }
}

/// The words that tell of OCR in a progress notification.
pub open spec fn ocr_notice() -> Seq<char> {
    "OCR processing:\nExtracting text from images...\nThis may take a few moments"@
}

/// What a notification of OCR says: the reason for the scan, where one
/// was given, an empty line, and the words that tell of OCR.
pub open spec fn ocr_details(scan_details: Seq<char>) -> Seq<char> {
    if scan_details.len() == 0 {
        ocr_notice()
    } else {
        scan_details + "\n\n"@ + ocr_notice()
    }
}

impl ScanProgressPayload {
    /// The notification that a file is served from the cache.
    pub fn cached(path: &str) -> (payload: ScanProgressPayload)
        ensures
            payload@ == (ProgressView {
                path: Some(path@),
                status: Some("cached"@),
                debug_info: None,
            }),
    {
        ScanProgressPayload {
            path: Some(path.to_owned()),
            status: Some("cached".to_owned()),
            debug_info: None,
        }
    }

    /// The notification that a file is about to be extracted, with the reason.
    pub fn scanning(path: &str, details: &str) -> (payload: ScanProgressPayload)
        ensures
            payload@ == (ProgressView {
                path: Some(path@),
                status: Some("scanning"@),
                debug_info: Some(details@),
            }),
    {
        ScanProgressPayload {
            path: Some(path.to_owned()),
            status: Some("scanning".to_owned()),
            debug_info: Some(details.to_owned()),
        }
    }

    /// The notification that OCR begins on a file, with the reason for the scan.
    pub fn ocr(path: &str, scan_details: &str) -> (payload: ScanProgressPayload)
        ensures
            payload@ == (ProgressView {
                path: Some(path@),
                status: Some("ocr"@),
                debug_info: Some(ocr_details(scan_details@)),
            }),
    {
        let mut text = scan_details.to_owned();
        if !scan_details.is_empty() {
            text.append("\n\n");
        }
        text.append("OCR processing:\nExtracting text from images...\nThis may take a few moments");
        ScanProgressPayload {
            path: Some(path.to_owned()),
            status: Some("ocr".to_owned()),
            debug_info: Some(text),
        }
    }

    /// The notification that ends a scan: all three fields are absent.
    pub fn finished() -> (payload: ScanProgressPayload)
        ensures
            payload@ == (ProgressView { path: None, status: None, debug_info: None }),
    {
        ScanProgressPayload { path: None, status: None, debug_info: None }
    }
}

impl Clone for ScanProgressPayload {
    fn clone(&self) -> (out: Self)
        ensures
            out@ == self@,
    {
        ScanProgressPayload {
            path: clone_text(&self.path),
            status: clone_text(&self.status),
            debug_info: clone_text(&self.debug_info),
        }
    }
}

/// View of a [`ScanSummary`].
pub struct SummaryView {
    pub indexed: nat,
    pub scanned: Option<nat>,
    pub cached: Option<nat>,
    pub errors: Seq<Seq<char>>,
    pub last_indexed_at: Option<u64>,
}

/// What a mutating operation reports back.
#[derive(Debug)]
pub struct ScanSummary {
    pub indexed: usize,
    pub scanned: Option<usize>,
    pub cached: Option<usize>,
    pub errors: Vec<String>,
    pub last_indexed_at: Option<u64>,
}

/// An optional count as a natural number.
pub open spec fn count_view(count: Option<usize>) -> Option<nat> {
    match count {
        Some(n) => Some(n as nat),
        None => None,
    }
}

impl View for ScanSummary {
    type V = SummaryView;

    open spec fn view(&self) -> SummaryView {
        SummaryView {
            indexed: self.indexed as nat,
            scanned: count_view(self.scanned),
            cached: count_view(self.cached),
            errors: self.errors.deep_view(),
            last_indexed_at: self.last_indexed_at,
        }
    }
}

impl Clone for ScanSummary {
    fn clone(&self) -> (out: Self)
        ensures
            out@ == self@,
    {
        let errors = self.errors.clone();
        assert(errors.deep_view() =~= self.errors.deep_view());
        ScanSummary {
            indexed: self.indexed,
            scanned: self.scanned,
            cached: self.cached,
            errors,
            last_indexed_at: self.last_indexed_at,
        }
    }
}

/// View of a [`SearchResponse`].
pub struct ResponseView {
    pub items: Seq<ItemView>,
    pub total: nat,
    pub last_indexed_at: Option<u64>,
}

/// The items that matched a query, in stored order.
#[derive(Debug)]
pub struct SearchResponse {
    pub items: Vec<SlideIndexItem>,
    pub total: usize,
    pub last_indexed_at: Option<u64>,
}

impl View for SearchResponse {
    type V = ResponseView;

    open spec fn view(&self) -> ResponseView {
        ResponseView {
            items: self.items.deep_view(),
            total: self.total as nat,
            last_indexed_at: self.last_indexed_at,
        }
    }
}

impl Clone for SearchResponse {
    fn clone(&self) -> (out: Self)
        ensures
            out@ == self@,
    {
        let items = self.items.clone();
        assert(items.deep_view() =~= self.items.deep_view());
        SearchResponse { items, total: self.total, last_indexed_at: self.last_indexed_at }
    }
}

/// A copy of an optional text.
pub fn clone_text(text: &Option<String>) -> (out: Option<String>)
    ensures
        out.deep_view() == text.deep_view(),
{
    match text {
        Some(value) => Some(value.clone()),
        None => None,
    }
}

} // verus!
