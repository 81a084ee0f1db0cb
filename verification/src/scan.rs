//! The directory scan as a sequence of decisions. The caller walks the
//! directories and reads the files; for every file it asks the scanner
//! what to do next and reports back what it found. A file whose
//! modification time, or else whose checksum, matches the stored item is
//! served from the baseline; every other file is extracted afresh. A scan
//! holds one item for a path: a file that the walk meets again, as under
//! nested roots, changes nothing.

use vstd::prelude::*;
use vstd::string::StringExecFns;
use crate::chars::{from_chars, push_str, to_chars};
use crate::models::{
    has_path, holds_path, lemma_push_one_per_path, one_per_path, ItemView, SlideIndexItem,
    SlideKind,
};
use crate::order::{
    is_sorted_desc, lemma_sort_desc, lemma_sort_keeps_one_per_path, sort_desc, sort_items,
};

verus! {

/// View of a [`ScanOutcome`].
pub struct OutcomeView {
    pub items: Seq<ItemView>,
    pub errors: Seq<Seq<char>>,
    pub scanned_count: nat,
    pub cached_count: nat,
}

/// What a scan produced: the items, newest first, the messages of the
/// failures, and how many items were extracted and how many reused.
#[derive(Debug)]
pub struct ScanOutcome {
    pub items: Vec<SlideIndexItem>,
    pub errors: Vec<String>,
    pub scanned_count: usize,
    pub cached_count: usize,
}

impl View for ScanOutcome {
    type V = OutcomeView;

    open spec fn view(&self) -> OutcomeView {
        OutcomeView {
            items: self.items.deep_view(),
            errors: self.errors.deep_view(),
            scanned_count: self.scanned_count as nat,
            cached_count: self.cached_count as nat,
        }
    }
}

/// View of a [`FileProbe`].
pub struct ProbeView {
    pub path: Seq<char>,
    pub name: Seq<char>,
    pub kind: SlideKind,
    pub modified_at: Option<u64>,
}

/// A file as the directory walk found it: its path, its file name, its
/// format and its modification time in milliseconds, where it could be read.
#[derive(Debug)]
pub struct FileProbe {
    pub path: String,
    pub name: String,
    pub kind: SlideKind,
    pub modified_at: Option<u64>,
}

impl View for FileProbe {
    type V = ProbeView;

    open spec fn view(&self) -> ProbeView {
        ProbeView {
            path: self.path@,
            name: self.name@,
            kind: self.kind,
            modified_at: self.modified_at,
        }
    }
}

/// A lock file that an office suite leaves beside an open document: its
/// name begins with `~$`.
pub open spec fn is_temporary_name(name: Seq<char>) -> bool {
    name.len() >= 2 && name[0] == '~' && name[1] == '$'
}

/// Whether the file name is that of a temporary lock file.
pub fn is_temporary_deck(name: &str) -> (temporary: bool)
    ensures
        temporary == is_temporary_name(name@),
{
    let chars = to_chars(name);
    chars.len() >= 2 && chars[0] == '~' && chars[1] == '$'
}

/// The stored item for a path: the last one in the baseline that has it.
pub open spec fn find_existing(existing: Seq<ItemView>, path: Seq<char>) -> Option<ItemView>
    decreases existing.len(),
{
    if existing.len() == 0 {
        None
    } else if existing.last().path == path {
        Some(existing.last())
    } else {
        find_existing(existing.drop_last(), path)
    }
}

/// What `find_existing` finds is an item of the baseline with that path,
/// and it finds one whenever there is one.
pub proof fn lemma_find_existing(existing: Seq<ItemView>, path: Seq<char>)
    ensures
        match find_existing(existing, path) {
            Some(item) => item.path == path && existing.contains(item),
            None => forall|k: int| 0 <= k < existing.len() ==> existing[k].path != path,
        },
    decreases existing.len(),
{
    if existing.len() == 0 {
    } else if existing.last().path == path {
        assert(existing[existing.len() - 1] == existing.last());
    } else {
        lemma_find_existing(existing.drop_last(), path);
        match find_existing(existing.drop_last(), path) {
            Some(item) => {
                let k = choose|k: int|
                    0 <= k < existing.drop_last().len() && existing.drop_last()[k] == item;
                assert(existing[k] == item);
            },
            None => {
                assert forall|k: int| 0 <= k < existing.len() implies existing[k].path
                    != path by {
                    if k < existing.len() - 1 {
                        assert(existing.drop_last()[k] == existing[k]);
                    }
                }
            },
        }
    }
}

/// The stored item to reuse without reading the file: the one for the
/// probe's path whose modification time is the file's.
pub open spec fn quick_hit(existing: Seq<ItemView>, probe: ProbeView) -> Option<ItemView> {
    match find_existing(existing, probe.path) {
        Some(prior) => if probe.modified_at == Some(prior.updated_at) {
            Some(prior)
        } else {
            None
        },
        None => None,
    }
}

/// The stored item to reuse once the file's checksum is known: the one for
/// the probe's path that has a checksum, and the same one.
pub open spec fn checksum_hit(
    existing: Seq<ItemView>,
    probe: ProbeView,
    checksum: Option<Seq<char>>,
) -> Option<ItemView> {
    match find_existing(existing, probe.path) {
        Some(prior) => if prior.checksum is Some && prior.checksum == checksum {
            Some(prior)
        } else {
            None
        },
        None => None,
    }
}

/// The label of a format in failure messages.
pub open spec fn kind_label(kind: SlideKind) -> Seq<char> {
    match kind {
        SlideKind::Pptx => "PPTX"@,
        SlideKind::Pdf => "PDF"@,
        SlideKind::Ppt => "PPT"@,
    }
}

/// The message recorded for a file that could not be extracted.
pub open spec fn failure_message(probe: ProbeView, error: Seq<char>) -> Seq<char> {
    "Failed to index "@ + kind_label(probe.kind) + " "@ + probe.path + ": "@ + error
}

/// The message recorded for a root directory that does not exist.
pub open spec fn missing_directory_message(directory: Seq<char>) -> Seq<char> {
    "Directory not found: "@ + directory
}

/// The first eight characters of a checksum, or all of it if it is shorter.
pub open spec fn checksum_prefix(checksum: Seq<char>) -> Seq<char> {
    if checksum.len() <= 8 {
        checksum
    } else {
        checksum.take(8)
    }
}

/// Why a file is extracted again, in words for the progress channel: it is
/// new, or its stored item has no checksum, or the checksum of the file
/// could not be computed, or the two checksums differ.
pub open spec fn rescan_details(prior: Option<ItemView>, checksum: Option<Seq<char>>) -> Seq<
    char,
> {
    match prior {
        None => "New file detected\nFirst time indexing this file"@,
        Some(item) => match (item.checksum, checksum) {
            (None, _) => "Rescan: no cached checksum\nFirst scan or old cache format"@,
            (Some(_), None) => "Rescan: new checksum failed to calculate"@,
            (Some(old), Some(new)) => "Rescan: file content changed\nOld checksum: "@
                + checksum_prefix(old) + "\nNew checksum: "@ + checksum_prefix(new),
        },
    }
}

/// View of a [`Scanner`]: the baseline it answers from and what it has
/// gathered so far.
pub struct ScanView {
    pub existing: Seq<ItemView>,
    pub items: Seq<ItemView>,
    pub errors: Seq<Seq<char>>,
    pub scanned_count: nat,
    pub cached_count: nat,
}

impl ScanView {
    /// A scan that has seen nothing yet.
    pub open spec fn start(existing: Seq<ItemView>) -> ScanView {
        ScanView {
            existing,
            items: Seq::empty(),
            errors: Seq::empty(),
            scanned_count: 0,
            cached_count: 0,
        }
    }

    /// Every gathered item was either extracted or reused, and no two of
    /// them have the same path.
    pub open spec fn wf(self) -> bool {
        self.scanned_count + self.cached_count == self.items.len() && one_per_path(self.items)
    }

    /// The scan after an item was reused from the baseline.
    pub open spec fn with_cached(self, item: ItemView) -> ScanView {
        ScanView { items: self.items.push(item), cached_count: self.cached_count + 1, ..self }
    }

    /// The scan after an item was extracted afresh: the item is added,
    /// unless the scan holds an item of its path already.
    pub open spec fn with_extracted(self, item: ItemView) -> ScanView {
        if has_path(self.items, item.path) {
            self
        } else {
            ScanView {
                items: self.items.push(item),
                scanned_count: self.scanned_count + 1,
                ..self
            }
        }
    }

    /// The scan after a failure was recorded.
    pub open spec fn with_error(self, message: Seq<char>) -> ScanView {
        ScanView { errors: self.errors.push(message), ..self }
    }

    /// What the finished scan hands back.
    pub open spec fn outcome(self) -> OutcomeView {
        OutcomeView {
            items: sort_desc(self.items),
            errors: self.errors,
            scanned_count: self.scanned_count,
            cached_count: self.cached_count,
        }
    }
}

/// A file as a whole scan meets it: what the walk found, the checksum of
/// its content, where it can be computed, and what extracting it gives.
/// The scanner asks for the last two only when it needs them.
pub struct FileObservation {
    pub probe: ProbeView,
    pub checksum: Option<Seq<char>>,
    pub extraction: Result<ItemView, Seq<char>>,
}

impl FileObservation {
    /// An extracted item is the item of this file: it has the file's path
    /// and checksum, and the file's modification time where that is known.
    pub open spec fn wf(self) -> bool {
        self.extraction matches Ok(item) ==> {
            &&& item.path == self.probe.path
            &&& item.checksum == self.checksum
            &&& self.probe.modified_at matches Some(modified) ==> item.updated_at == modified
        }
    }
}

/// A file with everything a scan may want to know of it.
#[derive(Debug)]
pub struct FileReport {
    pub probe: FileProbe,
    pub checksum: Option<String>,
    pub extraction: Result<SlideIndexItem, String>,
}

impl View for FileReport {
    type V = FileObservation;

    open spec fn view(&self) -> FileObservation {
        FileObservation {
            probe: self.probe@,
            checksum: self.checksum.deep_view(),
            extraction: match self.extraction {
                Ok(item) => Ok(item@),
                Err(error) => Err(error@),
            },
        }
    }
}

impl DeepView for FileReport {
    type V = FileObservation;

    open spec fn deep_view(&self) -> FileObservation {
        self@
    }
}

/// The item that a file adds to a scan over the baseline `existing` that
/// has not met its path before: none for a temporary file or a failed
/// extraction, else the stored item that is reused, or the extracted one.
pub open spec fn contribution(existing: Seq<ItemView>, file: FileObservation) -> Option<ItemView> {
    if is_temporary_name(file.probe.name) {
        None
    } else if quick_hit(existing, file.probe) is Some {
        quick_hit(existing, file.probe)
    } else if checksum_hit(existing, file.probe, file.checksum) is Some {
        checksum_hit(existing, file.probe, file.checksum)
    } else {
        match file.extraction {
            Ok(item) => Some(item),
            Err(_) => None,
        }
    }
}

impl ScanView {
    /// The scan after one file went through it: `probe`, then `resolve`
    /// if the checksum was asked for, then the extraction if it was needed.
    /// A file whose path the scan holds an item of already changes nothing.
    pub open spec fn observe(self, file: FileObservation) -> ScanView {
        if is_temporary_name(file.probe.name) {
            self
        } else if has_path(self.items, file.probe.path) {
            self
        } else if quick_hit(self.existing, file.probe) is Some {
            self.with_cached(quick_hit(self.existing, file.probe)->0)
        } else if checksum_hit(self.existing, file.probe, file.checksum) is Some {
            self.with_cached(checksum_hit(self.existing, file.probe, file.checksum)->0)
        } else {
            match file.extraction {
                Ok(item) => self.with_extracted(item),
                Err(error) => self.with_error(failure_message(file.probe, error)),
            }
        }
    }

    /// The scan after the files went through it, one after the other.
    pub open spec fn run(self, files: Seq<FileObservation>) -> ScanView
        decreases files.len(),
    {
        if files.len() == 0 {
            self
        } else {
            self.run(files.drop_last()).observe(files.last())
        }
    }
}

/// Whether one of the files is not temporary and has the path.
pub open spec fn path_met(files: Seq<FileObservation>, path: Seq<char>) -> bool {
    exists|k: int|
        0 <= k < files.len() && !is_temporary_name((#[trigger] files[k]).probe.name)
            && files[k].probe.path == path
}

/// The files that a scan counts: those that are not temporary, a file
/// that the walk meets more than once counted once.
pub open spec fn counted_files(files: Seq<FileObservation>) -> nat
    decreases files.len(),
{
    if files.len() == 0 {
        0
    } else if is_temporary_name(files.last().probe.name) || path_met(
        files.drop_last(),
        files.last().probe.path,
    ) {
        counted_files(files.drop_last())
    } else {
        counted_files(files.drop_last()) + 1
    }
}

/// What to do with a file that was just found.
#[derive(Debug)]
pub enum ProbeDecision {
    /// A temporary lock file: leave it out.
    Temporary,
    /// The scan met this path before and holds its item: leave it out.
    Seen,
    /// Unchanged since it was indexed: this stored item stands for it.
    Cached(SlideIndexItem),
    /// New, or modified since: compute its checksum and ask again.
    NeedsChecksum,
}

/// What to do with a file whose checksum is known.
#[derive(Debug)]
pub enum ChecksumVerdict {
    /// The scan met this path before and holds its item: leave it out.
    Seen,
    /// Same content as when it was indexed: this stored item stands for it.
    Cached(SlideIndexItem),
    /// Extract it afresh; `details` says why.
    Extract { details: String },
}

/// The decisions and the bookkeeping of one scan.
pub struct Scanner {
    existing: Vec<SlideIndexItem>,
    items: Vec<SlideIndexItem>,
    errors: Vec<String>,
    scanned_count: usize,
    cached_count: usize,
}

impl View for Scanner {
    type V = ScanView;

    closed spec fn view(&self) -> ScanView {
        ScanView {
            existing: self.existing.deep_view(),
            items: self.items.deep_view(),
            errors: self.errors.deep_view(),
            scanned_count: self.scanned_count as nat,
            cached_count: self.cached_count as nat,
        }
    }
}

impl Scanner {
    /// A scan over the given baseline that has seen nothing yet.
    pub fn new(existing: Vec<SlideIndexItem>) -> (scanner: Scanner)
        ensures
            scanner@ == ScanView::start(existing.deep_view()),
            scanner@.wf(),
    {
        let scanner = Scanner {
            existing,
            items: Vec::new(),
            errors: Vec::new(),
            scanned_count: 0,
            cached_count: 0,
        };
        assert(scanner.items.deep_view() =~= Seq::empty());
        assert(scanner.errors.deep_view() =~= Seq::empty());
        scanner
    }

    /// The index in the baseline of the stored item for `path`.
    fn lookup(&self, path: &String) -> (found: Option<usize>)
        ensures
            match found {
                Some(i) => i < self.existing.len() && find_existing(self@.existing, path@) == Some(
                    self.existing[i as int]@,
                ),
                None => find_existing(self@.existing, path@) is None,
            },
    {
        let mut i: usize = self.existing.len();
        assert(self.existing.deep_view().take(i as int) =~= self.existing.deep_view());
        while i > 0
            invariant
                i <= self.existing.len(),
                find_existing(self.existing.deep_view(), path@) == find_existing(
                    self.existing.deep_view().take(i as int),
                    path@,
                ),
            decreases i,
        {
            let ghost prefix = self.existing.deep_view().take(i as int);
            assert(prefix.last() == self.existing[i - 1]@);
            assert(prefix.drop_last() =~= self.existing.deep_view().take(i - 1));
            if self.existing[i - 1].path == *path {
                return Some(i - 1);
            }
            i -= 1;
        }
        None
    }

    /// Records a reused item.
    fn push_cached(&mut self, item: SlideIndexItem)
        requires
            old(self)@.wf(),
            !has_path(old(self)@.items, item.path@),
        ensures
            final(self)@ == old(self)@.with_cached(item@),
            final(self)@.wf(),
    {
        let ghost before = self.items.deep_view();
        proof {
            lemma_push_one_per_path(before, item@);
        }
        self.items.push(item);
        assert(self.items.deep_view() =~= before.push(item@));
        let grown = self.items.len();
        self.cached_count = self.cached_count + 1;
    }

    /// First question about a file: can it be left out, or reused without
    /// reading it? A temporary lock file is left out, and so is a file
    /// whose path the scan met before and holds an item of. A file whose
    /// stored item carries the file's modification time is reused as it is
    /// stored.
    pub fn probe(&mut self, probe: &FileProbe) -> (decision: ProbeDecision)
        requires
            old(self)@.wf(),
        ensures
            final(self)@.wf(),
            is_temporary_name(probe.name@) ==> decision is Temporary && final(self)@ == old(
                self,
            )@,
            !is_temporary_name(probe.name@) && has_path(old(self)@.items, probe.path@)
                ==> decision is Seen && final(self)@ == old(self)@,
            !is_temporary_name(probe.name@) && !has_path(old(self)@.items, probe.path@)
                ==> match quick_hit(old(self)@.existing, probe@) {
                Some(prior) => decision matches ProbeDecision::Cached(item) && item@ == prior
                    && final(self)@ == old(self)@.with_cached(prior),
                None => decision is NeedsChecksum && final(self)@ == old(self)@,
            },
    {
        if is_temporary_deck(probe.name.as_str()) {
            return ProbeDecision::Temporary;
        }
        if holds_path(&self.items, &probe.path) {
            return ProbeDecision::Seen;
        }
        proof {
            lemma_find_existing(self@.existing, probe.path@);
        }
        match self.lookup(&probe.path) {
            Some(i) => match probe.modified_at {
                Some(modified) => {
                    if self.existing[i].updated_at == modified {
                        let item = self.existing[i].clone();
                        self.push_cached(item.clone());
                        ProbeDecision::Cached(item)
                    } else {
                        ProbeDecision::NeedsChecksum
                    }
                },
                None => ProbeDecision::NeedsChecksum,
            },
            None => ProbeDecision::NeedsChecksum,
        }
    }

    /// Second question about a file, once its checksum was computed (or
    /// could not be): is its content the stored one? A file whose path the
    /// scan met before and holds an item of is left out. If the stored item
    /// has a checksum and the file's is the same, the stored item is reused
    /// as it is, its modification time included. Otherwise the file is to
    /// be extracted, and `details` says why.
    pub fn resolve(&mut self, probe: &FileProbe, checksum: &Option<String>) -> (verdict:
        ChecksumVerdict)
        requires
            old(self)@.wf(),
        ensures
            final(self)@.wf(),
            has_path(old(self)@.items, probe.path@) ==> verdict is Seen && final(self)@ == old(
                self,
            )@,
            !has_path(old(self)@.items, probe.path@) ==> match checksum_hit(
                old(self)@.existing,
                probe@,
                checksum.deep_view(),
            ) {
                Some(prior) => verdict matches ChecksumVerdict::Cached(item) && item@ == prior
                    && final(self)@ == old(self)@.with_cached(prior),
                None => verdict matches ChecksumVerdict::Extract { details } && details@
                    == rescan_details(
                    find_existing(old(self)@.existing, probe@.path),
                    checksum.deep_view(),
                ) && final(self)@ == old(self)@,
            },
    {
        if holds_path(&self.items, &probe.path) {
            return ChecksumVerdict::Seen;
        }
        proof {
            lemma_find_existing(self@.existing, probe.path@);
        }
        let mut text: Vec<char> = Vec::new();
        match self.lookup(&probe.path) {
            Some(i) => match (&self.existing[i].checksum, checksum) {
                (Some(old_sum), Some(new_sum)) => {
                    if *old_sum == *new_sum {
                        let item = self.existing[i].clone();
                        self.push_cached(item.clone());
                        return ChecksumVerdict::Cached(item);
                    }
                    push_str(&mut text, "Rescan: file content changed\nOld checksum: ");
                    push_prefix(&mut text, old_sum.as_str());
                    push_str(&mut text, "\nNew checksum: ");
                    push_prefix(&mut text, new_sum.as_str());
                },
                (Some(_), None) => {
                    push_str(&mut text, "Rescan: new checksum failed to calculate");
                },
                (None, _) => {
                    push_str(&mut text, "Rescan: no cached checksum\nFirst scan or old cache format");
                },
            },
            None => {
                push_str(&mut text, "New file detected\nFirst time indexing this file");
            },
        }
        ChecksumVerdict::Extract { details: from_chars(text.as_slice()) }
    }

    /// One file through the scan, for a caller that has its checksum and
    /// its extraction at hand: the steps that `probe`, `resolve` and the
    /// two records make, in one.
    pub fn observe(&mut self, report: FileReport)
        requires
            old(self)@.wf(),
        ensures
            final(self)@.wf(),
            final(self)@ == old(self)@.observe(report@),
    {
        let FileReport { probe, checksum, extraction } = report;
        match self.probe(&probe) {
            ProbeDecision::Temporary => {},
            ProbeDecision::Seen => {},
            ProbeDecision::Cached(_) => {},
            ProbeDecision::NeedsChecksum => {
                match self.resolve(&probe, &checksum) {
                    ChecksumVerdict::Seen => {},
                    ChecksumVerdict::Cached(_) => {},
                    ChecksumVerdict::Extract { details: _ } => {
                        match extraction {
                            Ok(item) => self.record_extracted(item),
                            Err(error) => self.record_failure(&probe, error.as_str()),
                        }
                    },
                }
            },
        }
    }

    /// The files through the scan, one after the other.
    pub fn observe_all(&mut self, reports: Vec<FileReport>)
        requires
            old(self)@.wf(),
        ensures
            final(self)@.wf(),
            final(self)@ == old(self)@.run(reports.deep_view()),
    {
        let ghost all = reports.deep_view();
        let ghost start = self@;
        let mut pending = reports;
        let mut reversed: Vec<FileReport> = Vec::new();
        while pending.len() > 0
            invariant
                pending.len() + reversed.len() == all.len(),
                forall|k: int| 0 <= k < pending.len() ==> pending[k]@ == all[k],
                forall|k: int|
                    0 <= k < reversed.len() ==> (#[trigger] reversed[k])@ == all[all.len() - 1 - k],
            decreases pending.len(),
        {
            let report = pending.pop().unwrap();
            reversed.push(report);
        }
        let ghost mut done: int = 0;
        assert(all.take(0) =~= Seq::empty());
        while reversed.len() > 0
            invariant
                0 <= done <= all.len(),
                reversed.len() == all.len() - done,
                forall|k: int|
                    0 <= k < reversed.len() ==> (#[trigger] reversed[k])@ == all[all.len() - 1 - k],
                self@.wf(),
                self@ == start.run(all.take(done)),
            decreases reversed.len(),
        {
            let report = reversed.pop().unwrap();
            assert(report@ == all[done]);
            assert(all.take(done + 1).drop_last() =~= all.take(done));
            assert(all.take(done + 1).last() == all[done]);
            self.observe(report);
            proof {
                done = done + 1;
            }
        }
        assert(all.take(all.len() as int) =~= all);
    }

    /// Records an item that was extracted afresh. If the scan holds an
    /// item of its path already, that one stays and nothing changes.
    pub fn record_extracted(&mut self, item: SlideIndexItem)
        requires
            old(self)@.wf(),
        ensures
            final(self)@ == old(self)@.with_extracted(item@),
            final(self)@.wf(),
    {
        if holds_path(&self.items, &item.path) {
            return ;
        }
        let ghost before = self.items.deep_view();
        proof {
            lemma_push_one_per_path(before, item@);
        }
        self.items.push(item);
        assert(self.items.deep_view() =~= before.push(item@));
        let grown = self.items.len();
        self.scanned_count = self.scanned_count + 1;
    }

    /// Records that a file could not be extracted. The scan goes on.
    pub fn record_failure(&mut self, probe: &FileProbe, error: &str)
        ensures
            final(self)@ == old(self)@.with_error(failure_message(probe@, error@)),
            old(self)@.wf() ==> final(self)@.wf(),
    {
        let mut text: Vec<char> = Vec::new();
        push_str(&mut text, "Failed to index ");
        match probe.kind {
            SlideKind::Pptx => push_str(&mut text, "PPTX"),
            SlideKind::Pdf => push_str(&mut text, "PDF"),
            SlideKind::Ppt => push_str(&mut text, "PPT"),
        }
        push_str(&mut text, " ");
        push_str(&mut text, probe.path.as_str());
        push_str(&mut text, ": ");
        push_str(&mut text, error);
        let ghost before = self.errors.deep_view();
        let message = from_chars(text.as_slice());
        self.errors.push(message);
        assert(self.errors.deep_view() =~= before.push(failure_message(probe@, error@)));
    }

    /// Records that a root directory does not exist. The scan goes on.
    pub fn directory_missing(&mut self, directory: &str)
        ensures
            final(self)@ == old(self)@.with_error(missing_directory_message(directory@)),
            old(self)@.wf() ==> final(self)@.wf(),
    {
        let mut message = String::from_str("Directory not found: ");
        message.append(directory);
        let ghost before = self.errors.deep_view();
        self.errors.push(message);
        assert(self.errors.deep_view() =~= before.push(missing_directory_message(directory@)));
    }

    /// Ends the scan: the gathered items sorted newest first, the recorded
    /// messages and the two counts. No two of the items have the same path.
    pub fn finish(self) -> (outcome: ScanOutcome)
        ensures
            outcome@ == self@.outcome(),
            is_sorted_desc(outcome@.items),
            outcome@.items.to_multiset() == self@.items.to_multiset(),
            self@.wf() ==> one_per_path(outcome@.items),
    {
        proof {
            lemma_sort_desc(self.items.deep_view());
            if self@.wf() {
                lemma_sort_keeps_one_per_path(self.items.deep_view());
            }
        }
        ScanOutcome {
            items: sort_items(self.items),
            errors: self.errors,
            scanned_count: self.scanned_count,
            cached_count: self.cached_count,
        }
    }
}

/// Appends the first eight characters of a checksum.
fn push_prefix(buf: &mut Vec<char>, checksum: &str)
    ensures
        final(buf)@ == old(buf)@ + checksum_prefix(checksum@),
{
    let chars = to_chars(checksum);
    let mut i: usize = 0;
    while i < chars.len() && i < 8
        invariant
            i <= chars.len(),
            i <= 8,
            buf@ == old(buf)@ + chars@.take(i as int),
        decreases chars.len() - i,
    {
        buf.push(chars[i]);
        assert(chars@.take(i + 1) =~= chars@.take(i as int).push(chars@[i as int]));
        i += 1;
    }
    assert(chars@.take(chars@.len() as int) =~= chars@);
}

} // verus!
