//! The index state and the operations that change it. Every operation is
//! a step from one state to the next; reading the clock, running the scan
//! and writing the state to disk are the caller's part.

use vstd::prelude::*;
use vstd::string::StringExecFns;
use crate::chars::{to_chars, trim, trimmed};
use crate::error::AppError;
use crate::models::{
    one_per_path, unique_items, unique_paths, AppState, ItemView, ScanSummary, SearchResponse,
    SlideIndexItem, StateView, SummaryView,
};
use crate::query::{
    corpus_of, holds_all, lemma_selected, matching_items, parsed_query, pattern_of, search_items,
    search_result, selected, SearchPattern,
};
use crate::order::{
    is_sorted_desc, lemma_sort_desc, lemma_sort_keeps_one_per_path, sort_desc, sort_items,
};
use crate::scan::{OutcomeView, ScanOutcome};

verus! {

/// A character that parts the components of a path.
pub open spec fn is_separator(c: char) -> bool {
    c == '/' || c == '\\'
}

/// Whether `path` is `directory` itself or lies below it: `directory` is a
/// proper prefix of `path` that ends where a component of `path` ends.
pub open spec fn lies_within(path: Seq<char>, directory: Seq<char>) -> bool {
    path == directory || (directory.len() < path.len() && path.take(directory.len() as int)
        == directory && (is_separator(path[directory.len() as int]) || (directory.len() > 0
        && is_separator(directory.last()))))
}

/// Whether `path` is `directory` itself or lies below it.
pub fn path_within(path: &str, directory: &str) -> (within: bool)
    ensures
        within == lies_within(path@, directory@),
{
    let p = to_chars(path);
    let d = to_chars(directory);
    if p.len() < d.len() {
        return false;
    }
    let mut i: usize = 0;
    while i < d.len()
        invariant
            i <= d.len() <= p.len(),
            p@ == path@,
            d@ == directory@,
            p@.take(i as int) == d@.take(i as int),
        decreases d.len() - i,
    {
        if p[i] != d[i] {
            assert(p@.take(d@.len() as int)[i as int] == p@[i as int]);
            return false;
        }
        assert(p@.take(i + 1) =~= p@.take(i as int).push(p@[i as int]));
        assert(d@.take(i + 1) =~= d@.take(i as int).push(d@[i as int]));
        i += 1;
    }
    assert(d@.take(d@.len() as int) =~= d@);
    if p.len() == d.len() {
        assert(p@.take(p@.len() as int) =~= p@);
        return true;
    }
    let boundary = p[d.len()];
    if boundary == '/' || boundary == '\\' {
        return true;
    }
    d.len() > 0 && (d[d.len() - 1] == '/' || d[d.len() - 1] == '\\')
}

/// The directory list as it is stored: each entry trimmed, empty entries
/// dropped, and of equal entries only the first kept.
pub open spec fn sanitized_directories(input: Seq<Seq<char>>) -> Seq<Seq<char>>
    decreases input.len(),
{
    if input.len() == 0 {
        Seq::empty()
    } else {
        let front = sanitized_directories(input.drop_last());
        let entry = trimmed(input.last());
        if entry.len() == 0 || front.contains(entry) {
            front
        } else {
            front.push(entry)
        }
    }
}

/// A list of messages with the warning added, unless it is there already.
pub open spec fn with_warning(messages: Seq<Seq<char>>, warning: Option<Seq<char>>) -> Seq<
    Seq<char>,
> {
    match warning {
        Some(text) => if messages.contains(text) {
            messages
        } else {
            messages.push(text)
        },
        None => messages,
    }
}

/// The index of the first item with the given path.
pub open spec fn first_with_path(items: Seq<ItemView>, path: Seq<char>) -> Option<int>
    decreases items.len(),
{
    if items.len() == 0 {
        None
    } else {
        match first_with_path(items.drop_last(), path) {
            Some(i) => Some(i),
            None => if items.last().path == path {
                Some(items.len() - 1)
            } else {
                None
            },
        }
    }
}

/// The items with `item` in the place of the stored item of the same path,
/// or at the end if there is none.
pub open spec fn merged(items: Seq<ItemView>, item: ItemView) -> Seq<ItemView> {
    match first_with_path(items, item.path) {
        Some(i) => items.update(i, item),
        None => items.push(item),
    }
}

/// The items whose path does not lie within `directory`.
pub open spec fn outside_of(items: Seq<ItemView>, directory: Seq<char>) -> Seq<ItemView>
    decreases items.len(),
{
    if items.len() == 0 {
        Seq::empty()
    } else if lies_within(items.last().path, directory) {
        outside_of(items.drop_last(), directory)
    } else {
        outside_of(items.drop_last(), directory).push(items.last())
    }
}

/// The items whose path lies within `directory`.
pub open spec fn inside_of(items: Seq<ItemView>, directory: Seq<char>) -> Seq<ItemView>
    decreases items.len(),
{
    if items.len() == 0 {
        Seq::empty()
    } else if lies_within(items.last().path, directory) {
        inside_of(items.drop_last(), directory).push(items.last())
    } else {
        inside_of(items.drop_last(), directory)
    }
}

/// The first item with the given id.
pub open spec fn first_with_id(items: Seq<ItemView>, id: Seq<char>) -> Option<ItemView>
    decreases items.len(),
{
    if items.len() == 0 {
        None
    } else if items[0].id == id {
        Some(items[0])
    } else {
        first_with_id(items.drop_first(), id)
    }
}

/// The message of a rescan of a directory that is not linked.
pub open spec fn not_linked_message(directory: Seq<char>) -> Seq<char> {
    "Directory not linked: "@ + directory
}

impl StateView {
    /// The snapshot handed to a reader: the state, with the warning about
    /// missing tools among its warnings.
    pub open spec fn snapshot(self, warning: Option<Seq<char>>) -> StateView {
        StateView { warnings: with_warning(self.warnings, warning), ..self }
    }

    /// The state after the directory list was replaced.
    pub open spec fn with_directories(self, input: Seq<Seq<char>>) -> StateView {
        StateView { directories: sanitized_directories(input), ..self }
    }

    /// The state after one item of a running scan was merged in: it stands
    /// in the place of the first stored item of its path, and no other item
    /// of that or any other path stands twice.
    pub open spec fn with_item(self, item: ItemView, now: u64) -> StateView {
        StateView {
            items: sort_desc(unique_paths(merged(self.items, item))),
            last_indexed_at: Some(now),
            ..self
        }
    }

    /// The messages a rescan leaves behind.
    pub open spec fn rescan_messages(
        self,
        outcome: OutcomeView,
        warning: Option<Seq<char>>,
    ) -> Seq<Seq<char>> {
        if self.directories.len() == 0 {
            with_warning(Seq::empty(), warning)
        } else {
            with_warning(outcome.errors, warning)
        }
    }

    /// The state after a rescan of all directories: with no directory
    /// linked, no item is left; otherwise the items are those of the scan,
    /// of each path the first.
    pub open spec fn after_rescan(
        self,
        outcome: OutcomeView,
        now: u64,
        warning: Option<Seq<char>>,
    ) -> StateView {
        StateView {
            items: if self.directories.len() == 0 {
                Seq::empty()
            } else {
                sort_desc(unique_paths(outcome.items))
            },
            last_indexed_at: Some(now),
            warnings: self.rescan_messages(outcome, warning),
            ..self
        }
    }

    /// What a rescan of all directories reports.
    pub open spec fn rescan_summary(
        self,
        outcome: OutcomeView,
        now: u64,
        warning: Option<Seq<char>>,
    ) -> SummaryView {
        if self.directories.len() == 0 {
            SummaryView {
                indexed: 0,
                scanned: None,
                cached: None,
                errors: self.rescan_messages(outcome, warning),
                last_indexed_at: Some(now),
            }
        } else {
            SummaryView {
                indexed: unique_paths(outcome.items).len(),
                scanned: Some(outcome.scanned_count),
                cached: Some(outcome.cached_count),
                errors: self.rescan_messages(outcome, warning),
                last_indexed_at: Some(now),
            }
        }
    }

    /// The state after a rescan of one linked directory: the items outside
    /// of it stay, those of the scan take the place of the others, and of
    /// each path only the first item is kept.
    pub open spec fn after_rescan_directory(
        self,
        directory: Seq<char>,
        outcome: OutcomeView,
        now: u64,
        warning: Option<Seq<char>>,
    ) -> StateView {
        StateView {
            items: sort_desc(unique_paths(outside_of(self.items, directory) + outcome.items)),
            last_indexed_at: Some(now),
            warnings: with_warning(outcome.errors, warning),
            ..self
        }
    }

    /// What a rescan of one linked directory reports.
    pub open spec fn rescan_directory_summary(
        self,
        directory: Seq<char>,
        outcome: OutcomeView,
        now: u64,
        warning: Option<Seq<char>>,
    ) -> SummaryView {
        SummaryView {
            indexed: unique_paths(outside_of(self.items, directory) + outcome.items).len(),
            scanned: Some(outcome.scanned_count),
            cached: Some(outcome.cached_count),
            errors: with_warning(outcome.errors, warning),
            last_indexed_at: Some(now),
        }
    }

    /// The state after the cache was cleared.
    pub open spec fn cleared(self, now: u64) -> StateView {
        StateView {
            items: Seq::empty(),
            last_indexed_at: Some(now),
            warnings: Seq::empty(),
            ..self
        }
    }
}

/// Whether the list holds the text.
pub fn holds_entry(list: &Vec<String>, text: &String) -> (found: bool)
    ensures
        found == list.deep_view().contains(text@),
{
    let mut i: usize = 0;
    while i < list.len()
        invariant
            i <= list.len(),
            forall|k: int| 0 <= k < i ==> list.deep_view()[k] != text@,
        decreases list.len() - i,
    {
        if list[i] == *text {
            assert(list.deep_view()[i as int] == text@);
            return true;
        }
        i += 1;
    }
    false
}

/// Adds the warning to the messages, unless it is absent or there already.
pub fn push_warning(messages: &mut Vec<String>, warning: &Option<String>)
    ensures
        final(messages).deep_view() == with_warning(
            old(messages).deep_view(),
            warning.deep_view(),
        ),
{
    match warning {
        Some(text) => {
            if !holds_entry(messages, text) {
                let ghost before = messages.deep_view();
                messages.push(text.clone());
                assert(messages.deep_view() =~= before.push(text@));
            }
        },
        None => {},
    }
}

/// The directory list as it is stored: each entry trimmed, empty entries
/// dropped, and of equal entries only the first kept.
pub fn sanitize_directories(directories: &Vec<String>) -> (out: Vec<String>)
    ensures
        out.deep_view() == sanitized_directories(directories.deep_view()),
{
    let mut out: Vec<String> = Vec::new();
    let mut i: usize = 0;
    assert(directories.deep_view().take(0) =~= Seq::empty());
    assert(out.deep_view() =~= Seq::empty());
    while i < directories.len()
        invariant
            i <= directories.len(),
            out.deep_view() == sanitized_directories(directories.deep_view().take(i as int)),
        decreases directories.len() - i,
    {
        let ghost prefix = directories.deep_view().take(i + 1);
        assert(prefix.drop_last() =~= directories.deep_view().take(i as int));
        assert(prefix.last() == directories[i as int]@);
        let entry = trim(directories[i].as_str());
        if !entry.as_str().is_empty() && !holds_entry(&out, &entry) {
            let ghost before = out.deep_view();
            out.push(entry);
            assert(out.deep_view() =~= before.push(trimmed(directories[i as int]@)));
        }
        i += 1;
    }
    assert(directories.deep_view().take(directories.len() as int) =~= directories.deep_view());
    out
}

/// The index of the first item with the given path.
fn position_of_path(items: &Vec<SlideIndexItem>, path: &String) -> (found: Option<usize>)
    ensures
        match found {
            Some(i) => i < items.len() && first_with_path(items.deep_view(), path@) == Some(
                i as int,
            ),
            None => first_with_path(items.deep_view(), path@) is None,
        },
{
    let mut i: usize = 0;
    assert(items.deep_view().take(0) =~= Seq::empty());
    while i < items.len()
        invariant
            i <= items.len(),
            first_with_path(items.deep_view().take(i as int), path@) is None,
        decreases items.len() - i,
    {
        let ghost prefix = items.deep_view().take(i + 1);
        assert(prefix.drop_last() =~= items.deep_view().take(i as int));
        assert(prefix.last() == items[i as int]@);
        if items[i].path == *path {
            proof {
                lemma_first_with_path_prefix(items.deep_view(), path@, i + 1);
            }
            return Some(i);
        }
        i += 1;
    }
    assert(items.deep_view().take(items.len() as int) =~= items.deep_view());
    None
}

/// A first occurrence within a prefix is the first occurrence in the whole.
proof fn lemma_first_with_path_prefix(items: Seq<ItemView>, path: Seq<char>, n: int)
    requires
        0 <= n <= items.len(),
        first_with_path(items.take(n), path) is Some,
    ensures
        first_with_path(items, path) == first_with_path(items.take(n), path),
    decreases items.len() - n,
{
    if n == items.len() {
        assert(items.take(n) =~= items);
    } else {
        assert(items.drop_last().take(n) =~= items.take(n));
        lemma_first_with_path_prefix(items.drop_last(), path, n);
    }
}

/// The items whose path does or does not lie within `directory`, as `keep_inside` asks.
fn select_items(items: &Vec<SlideIndexItem>, directory: &str, keep_inside: bool) -> (out: Vec<
    SlideIndexItem,
>)
    ensures
        keep_inside ==> out.deep_view() == inside_of(items.deep_view(), directory@),
        !keep_inside ==> out.deep_view() == outside_of(items.deep_view(), directory@),
{
    let mut out: Vec<SlideIndexItem> = Vec::new();
    let mut i: usize = 0;
    assert(items.deep_view().take(0) =~= Seq::empty());
    assert(out.deep_view() =~= Seq::empty());
    while i < items.len()
        invariant
            i <= items.len(),
            keep_inside ==> out.deep_view() == inside_of(
                items.deep_view().take(i as int),
                directory@,
            ),
            !keep_inside ==> out.deep_view() == outside_of(
                items.deep_view().take(i as int),
                directory@,
            ),
        decreases items.len() - i,
    {
        let ghost prefix = items.deep_view().take(i + 1);
        assert(prefix.drop_last() =~= items.deep_view().take(i as int));
        assert(prefix.last() == items[i as int]@);
        let within = path_within(items[i].path.as_str(), directory);
        if within == keep_inside {
            let ghost before = out.deep_view();
            out.push(items[i].clone());
            assert(out.deep_view() =~= before.push(items[i as int]@));
        }
        i += 1;
    }
    assert(items.deep_view().take(items.len() as int) =~= items.deep_view());
    out
}

/// The single state of the index and the operations on it.
pub struct StateManager {
    state: AppState,
}

impl View for StateManager {
    type V = StateView;

    closed spec fn view(&self) -> StateView {
        self.state@
    }
}

impl StateManager {
    /// A manager of the given state, as it was loaded or freshly made.
    pub fn new(state: AppState) -> (manager: StateManager)
        ensures
            manager@ == state@,
    {
        StateManager { state }
    }

    /// The state as it is to be persisted.
    pub fn state(&self) -> (state: &AppState)
        ensures
            state@ == self@,
    {
        &self.state
    }

    /// A snapshot for a reader. The warning about missing extraction tools
    /// is among its warnings; the stored state is not changed.
    pub fn get_state(&self, warning: &Option<String>) -> (snapshot: AppState)
        ensures
            snapshot@ == self@.snapshot(warning.deep_view()),
    {
        let mut snapshot = self.state.clone();
        push_warning(&mut snapshot.warnings, warning);
        snapshot
    }

    /// Replaces the directory list by the sanitized input. Nothing is
    /// scanned and no item changes. The summary counts the stored items and
    /// carries the warning about missing tools.
    pub fn update_directories(&mut self, directories: Vec<String>, warning: &Option<String>) -> (summary:
        ScanSummary)
        ensures
            final(self)@ == old(self)@.with_directories(directories.deep_view()),
            summary@ == (SummaryView {
                indexed: old(self)@.items.len(),
                scanned: None,
                cached: None,
                errors: with_warning(Seq::empty(), warning.deep_view()),
                last_indexed_at: old(self)@.last_indexed_at,
            }),
    {
        self.state.directories = sanitize_directories(&directories);
        let mut errors: Vec<String> = Vec::new();
        assert(errors.deep_view() =~= Seq::empty());
        push_warning(&mut errors, warning);
        ScanSummary {
            indexed: self.state.items.len(),
            scanned: None,
            cached: None,
            errors,
            last_indexed_at: self.state.last_indexed_at,
        }
    }

    /// What a rescan of all directories starts from: the linked
    /// directories and the stored items as baseline.
    pub fn scan_plan(&self) -> (plan: (Vec<String>, Vec<SlideIndexItem>))
        ensures
            plan.0.deep_view() == self@.directories,
            plan.1.deep_view() == self@.items,
    {
        let directories = self.state.directories.clone();
        let items = self.state.items.clone();
        assert(directories.deep_view() =~= self.state.directories.deep_view());
        assert(items.deep_view() =~= self.state.items.deep_view());
        (directories, items)
    }

    /// Merges one item of a running scan: it takes the place of the stored
    /// item of the same path, or is added. Of each path one item is kept,
    /// the items are sorted again and the time of indexing is stamped.
    pub fn record_item(&mut self, item: SlideIndexItem, now: u64)
        ensures
            final(self)@ == old(self)@.with_item(item@, now),
            is_sorted_desc(final(self)@.items),
            one_per_path(final(self)@.items),
    {
        let ghost before = self.state.items.deep_view();
        let mut items: Vec<SlideIndexItem> = Vec::new();
        std::mem::swap(&mut items, &mut self.state.items);
        match position_of_path(&items, &item.path) {
            Some(i) => {
                items.set(i, item);
                assert(items.deep_view() =~= before.update(i as int, item@));
            },
            None => {
                items.push(item);
                assert(items.deep_view() =~= before.push(item@));
            },
        }
        let items = unique_items(items);
        proof {
            lemma_sort_desc(items.deep_view());
            lemma_sort_keeps_one_per_path(items.deep_view());
        }
        self.state.items = sort_items(items);
        self.state.last_indexed_at = Some(now);
    }

    /// Ends a rescan of all directories. With no directory linked every
    /// item is dropped, whatever the outcome holds. Otherwise the items of
    /// the outcome, of each path the first, sorted, replace the stored ones;
    /// the summary counts them. The time is stamped,
    /// and the messages of the scan, with the warning about missing tools,
    /// become the stored warnings and the errors of the summary.
    pub fn rescan(&mut self, outcome: ScanOutcome, now: u64, warning: &Option<String>) -> (summary:
        ScanSummary)
        ensures
            final(self)@ == old(self)@.after_rescan(outcome@, now, warning.deep_view()),
            summary@ == old(self)@.rescan_summary(outcome@, now, warning.deep_view()),
            is_sorted_desc(final(self)@.items),
            one_per_path(final(self)@.items),
            summary@.indexed == final(self)@.items.len(),
    {
        if self.state.directories.len() == 0 {
            self.state.items = Vec::new();
            assert(self.state.items.deep_view() =~= Seq::empty());
            self.state.last_indexed_at = Some(now);
            let mut errors: Vec<String> = Vec::new();
            assert(errors.deep_view() =~= Seq::empty());
            push_warning(&mut errors, warning);
            self.state.warnings = errors.clone();
            assert(self.state.warnings.deep_view() =~= errors.deep_view());
            return ScanSummary {
                indexed: 0,
                scanned: None,
                cached: None,
                errors,
                last_indexed_at: Some(now),
            };
        }
        let ScanOutcome { items, errors, scanned_count, cached_count } = outcome;
        let mut errors = errors;
        let items = unique_items(items);
        proof {
            lemma_sort_desc(items.deep_view());
            lemma_sort_keeps_one_per_path(items.deep_view());
        }
        self.state.items = sort_items(items);
        self.state.last_indexed_at = Some(now);
        push_warning(&mut errors, warning);
        self.state.warnings = errors.clone();
        assert(self.state.warnings.deep_view() =~= errors.deep_view());
        ScanSummary {
            indexed: self.state.items.len(),
            scanned: Some(scanned_count),
            cached: Some(cached_count),
            errors,
            last_indexed_at: Some(now),
        }
    }

    /// What a rescan of one directory starts from: the stored items that
    /// lie within it. Fails if the directory is not linked.
    pub fn directory_plan(&self, directory: &str) -> (plan: Result<Vec<SlideIndexItem>, AppError>)
        ensures
            self@.directories.contains(directory@) ==> (plan matches Ok(items)
                && items.deep_view() == inside_of(self@.items, directory@)),
            !self@.directories.contains(directory@) ==> (plan matches Err(
                AppError::Message(text),
            ) && text@ == not_linked_message(directory@)),
    {
        let wanted = String::from_str(directory);
        if !holds_entry(&self.state.directories, &wanted) {
            return Err(not_linked(directory));
        }
        Ok(select_items(&self.state.items, directory, true))
    }

    /// Ends a rescan of one directory. Fails, and changes nothing, if the
    /// directory is not linked. Otherwise the stored items within the
    /// directory give way to the items of the outcome; the rest stay. The
    /// items are sorted, the time is stamped, and the messages of the scan,
    /// with the warning about missing tools, become the stored warnings and
    /// the errors of the summary.
    pub fn rescan_directory(
        &mut self,
        directory: &str,
        outcome: ScanOutcome,
        now: u64,
        warning: &Option<String>,
    ) -> (result: Result<ScanSummary, AppError>)
        ensures
            old(self)@.directories.contains(directory@) ==> (result matches Ok(summary)
                && summary@ == old(self)@.rescan_directory_summary(
                directory@,
                outcome@,
                now,
                warning.deep_view(),
            ) && final(self)@ == old(self)@.after_rescan_directory(
                directory@,
                outcome@,
                now,
                warning.deep_view(),
            ) && is_sorted_desc(final(self)@.items) && one_per_path(final(self)@.items)
                && summary@.indexed == final(self)@.items.len()),
            !old(self)@.directories.contains(directory@) ==> (result matches Err(
                AppError::Message(text),
            ) && text@ == not_linked_message(directory@) && final(self)@ == old(self)@),
    {
        let wanted = String::from_str(directory);
        if !holds_entry(&self.state.directories, &wanted) {
            return Err(not_linked(directory));
        }
        let ScanOutcome { items, errors, scanned_count, cached_count } = outcome;
        let mut fresh = items;
        let mut errors = errors;
        let mut kept = select_items(&self.state.items, directory, false);
        let ghost kept_before = kept.deep_view();
        let ghost fresh_before = fresh.deep_view();
        kept.append(&mut fresh);
        assert(kept.deep_view() =~= kept_before + fresh_before);
        let kept = unique_items(kept);
        proof {
            lemma_sort_desc(kept.deep_view());
            lemma_sort_keeps_one_per_path(kept.deep_view());
        }
        self.state.items = sort_items(kept);
        self.state.last_indexed_at = Some(now);
        push_warning(&mut errors, warning);
        self.state.warnings = errors.clone();
        assert(self.state.warnings.deep_view() =~= errors.deep_view());
        Ok(
            ScanSummary {
                indexed: self.state.items.len(),
                scanned: Some(scanned_count),
                cached: Some(cached_count),
                errors,
                last_indexed_at: Some(now),
            },
        )
    }

    /// The stored items that match a query, in stored order, with their
    /// number. What is given back is a selection of the stored items in
    /// which every item matches a pattern of the query; its searchable text
    /// holds every phrase and every term of the query. For a query without
    /// wildcards exactly the matching items are given back.
    pub fn search(&self, query: &str) -> (response: SearchResponse)
        ensures
            response@.total == response@.items.len(),
            response@.last_indexed_at == self@.last_indexed_at,
            exists|built: Seq<bool>|
                search_result(
                    self@.items,
                    #[trigger] pattern_of(parsed_query(query@), built),
                    response@.items,
                ),
            forall|k: int|
                0 <= k < response@.items.len() ==> self@.items.contains(
                    #[trigger] response@.items[k],
                ) && holds_all(corpus_of(response@.items[k]), parsed_query(query@).phrases)
                    && holds_all(corpus_of(response@.items[k]), parsed_query(query@).terms),
            parsed_query(query@).wildcards.len() == 0 ==> response@.items == matching_items(
                self@.items,
                pattern_of(parsed_query(query@), Seq::empty()),
            ),
    {
        let pattern = SearchPattern::new(query);
        let items = search_items(&self.state.items, &pattern);
        proof {
            let built = choose|built: Seq<bool>| pattern@ == pattern_of(parsed_query(query@), built);
            assert(search_result(
                self@.items,
                pattern_of(parsed_query(query@), built),
                items.deep_view(),
            ));
            let keep = choose|keep: Seq<bool>|
                {
                    &&& keep.len() == self@.items.len()
                    &&& #[trigger] selected(self@.items, keep) == items.deep_view()
                    &&& forall|i: int|
                        0 <= i < self@.items.len() && keep[i] ==> crate::query::query_matches(
                            self@.items[i],
                            pattern@,
                        )
                    &&& pattern@.wildcards.len() == 0 ==> keep == crate::query::match_marks(
                        self@.items,
                        pattern@,
                    )
                };
            assert forall|k: int| 0 <= k < items.deep_view().len() implies self@.items.contains(
                #[trigger] items.deep_view()[k],
            ) && holds_all(corpus_of(items.deep_view()[k]), parsed_query(query@).phrases)
                && holds_all(corpus_of(items.deep_view()[k]), parsed_query(query@).terms) by {
                lemma_selected(self@.items, keep, k);
            }
        }
        SearchResponse { total: items.len(), items, last_indexed_at: self.state.last_indexed_at }
    }

    /// The first stored item with the given id.
    pub fn find_item(&self, id: &str) -> (found: Option<SlideIndexItem>)
        ensures
            found.deep_view() == first_with_id(self@.items, id@),
    {
        let wanted = String::from_str(id);
        let mut i: usize = 0;
        assert(self.state.items.deep_view().skip(0) =~= self.state.items.deep_view());
        while i < self.state.items.len()
            invariant
                i <= self.state.items.len(),
                first_with_id(self.state.items.deep_view(), id@) == first_with_id(
                    self.state.items.deep_view().skip(i as int),
                    id@,
                ),
                wanted@ == id@,
            decreases self.state.items.len() - i,
        {
            let ghost rest = self.state.items.deep_view().skip(i as int);
            assert(rest[0] == self.state.items[i as int]@);
            assert(rest.drop_first() =~= self.state.items.deep_view().skip(i + 1));
            if self.state.items[i].id == wanted {
                return Some(self.state.items[i].clone());
            }
            i += 1;
        }
        None
    }

    /// Drops every item and warning, keeps the directories and stamps the time.
    pub fn clear_cache(&mut self, now: u64)
        ensures
            final(self)@ == old(self)@.cleared(now),
    {
        self.state.items = Vec::new();
        self.state.warnings = Vec::new();
        self.state.last_indexed_at = Some(now);
        assert(self.state.items.deep_view() =~= Seq::empty());
        assert(self.state.warnings.deep_view() =~= Seq::empty());
    }
}

/// The failure of a rescan of a directory that is not linked.
fn not_linked(directory: &str) -> (error: AppError)
    ensures
        error matches AppError::Message(text) && text@ == not_linked_message(directory@),
{
    let mut text = String::from_str("Directory not linked: ");
    text.append(directory);
    AppError::Message(text)
}

} // verus!
