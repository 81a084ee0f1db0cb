//! What holds of whole scans: a file whose content is unchanged is not
//! extracted again, a file that is gone loses its item, a second scan of
//! an unchanged tree changes nothing, and no path has two items.

use vstd::prelude::*;
use crate::models::{
    has_path, lemma_push_one_per_path, lemma_unique_paths, lemma_unique_paths_fixed,
    one_per_path, unique_paths, ItemView, StateView,
};
use crate::order::{
    lemma_sort_contains, lemma_sort_desc, lemma_sort_fixed, lemma_sort_keeps_one_per_path,
    sort_desc,
};
use crate::scan::{
    checksum_hit, contribution, counted_files, find_existing, is_temporary_name,
    lemma_find_existing, path_met, quick_hit, FileObservation, OutcomeView, ScanView,
};
use crate::state::{first_with_path, inside_of, lies_within, merged, outside_of};

verus! {

/// A file whose modification time differs from the stored one, while its
/// checksum is the stored one, is not extracted again: the stored item is
/// reused as it is, its checksum and its modification time included, and
/// the file counts as cached, not as scanned. Where the scan met the path
/// before, nothing changes at all.
pub proof fn law_checksum_priority(scan: ScanView, file: FileObservation, prior: ItemView)
    requires
        !is_temporary_name(file.probe.name),
        find_existing(scan.existing, file.probe.path) == Some(prior),
        file.probe.modified_at != Some(prior.updated_at),
        prior.checksum is Some,
        file.checksum == prior.checksum,
    ensures
        scan.observe(file).scanned_count == scan.scanned_count,
        has_path(scan.items, file.probe.path) ==> scan.observe(file) == scan,
        !has_path(scan.items, file.probe.path) ==> {
            &&& scan.observe(file) == scan.with_cached(prior)
            &&& scan.observe(file).items.last().checksum == prior.checksum
            &&& scan.observe(file).items.last().updated_at == prior.updated_at
        },
{
}

/// A scan never changes the baseline it answers from.
pub proof fn lemma_run_keeps_baseline(scan: ScanView, files: Seq<FileObservation>)
    ensures
        scan.run(files).existing == scan.existing,
    decreases files.len(),
{
    if files.len() > 0 {
        lemma_run_keeps_baseline(scan, files.drop_last());
    }
}

/// A file that goes through a scan leaves every item in its place, and
/// leaves the scan well formed.
pub proof fn lemma_observe(scan: ScanView, file: FileObservation)
    ensures
        scan.observe(file).existing == scan.existing,
        scan.items.len() <= scan.observe(file).items.len() <= scan.items.len() + 1,
        scan.observe(file).items.take(scan.items.len() as int) == scan.items,
        scan.wf() ==> scan.observe(file).wf(),
{
    let after = scan.observe(file);
    lemma_find_existing(scan.existing, file.probe.path);
    assert(after.items.take(scan.items.len() as int) =~= scan.items);
    if scan.wf() && after.items.len() > scan.items.len() {
        lemma_push_one_per_path(scan.items, after.items.last());
    }
}

/// No two items of a scan have the same path, whatever files it met.
pub proof fn law_scan_one_per_path(scan: ScanView, files: Seq<FileObservation>)
    requires
        scan.wf(),
    ensures
        scan.run(files).wf(),
        one_per_path(scan.run(files).items),
        one_per_path(scan.run(files).outcome().items),
    decreases files.len(),
{
    if files.len() > 0 {
        law_scan_one_per_path(scan, files.drop_last());
        lemma_observe(scan.run(files.drop_last()), files.last());
    }
    lemma_sort_keeps_one_per_path(scan.run(files).items);
}

/// What a file adds to a scan has the file's path.
pub proof fn lemma_contribution_path(existing: Seq<ItemView>, file: FileObservation)
    requires
        file.wf(),
    ensures
        contribution(existing, file) matches Some(item) ==> item.path == file.probe.path,
{
    lemma_find_existing(existing, file.probe.path);
}

/// Every item of a scan that started empty was added by one of its files.
pub proof fn lemma_run_items_origin(
    existing: Seq<ItemView>,
    files: Seq<FileObservation>,
    item: ItemView,
)
    requires
        ScanView::start(existing).run(files).items.contains(item),
    ensures
        exists|m: int|
            0 <= m < files.len() && contribution(existing, #[trigger] files[m]) == Some(item),
    decreases files.len(),
{
    let scan = ScanView::start(existing);
    if files.len() == 0 {
        assert(scan.run(files).items.len() == 0);
    } else {
        let front = files.drop_last();
        let before = scan.run(front);
        lemma_run_keeps_baseline(scan, front);
        lemma_observe(before, files.last());
        let after = before.observe(files.last());
        if before.items.contains(item) {
            lemma_run_items_origin(existing, front, item);
            let m = choose|m: int|
                0 <= m < front.len() && contribution(existing, #[trigger] front[m]) == Some(item);
            assert(files[m] == front[m]);
        } else {
            let k = choose|k: int| 0 <= k < after.items.len() && after.items[k] == item;
            if k < before.items.len() {
                assert(after.items.take(before.items.len() as int)[k] == after.items[k]);
                assert(before.items[k] == item);
            }
            assert(contribution(existing, files[files.len() - 1]) == Some(item));
        }
    }
}

/// What a scan holds after some of its files it still holds after all.
pub proof fn lemma_run_keeps_items(
    scan: ScanView,
    files: Seq<FileObservation>,
    n: int,
    item: ItemView,
)
    requires
        0 <= n <= files.len(),
        scan.run(files.take(n)).items.contains(item),
    ensures
        scan.run(files).items.contains(item),
    decreases files.len() - n,
{
    if n == files.len() {
        assert(files.take(n) =~= files);
    } else {
        let before = scan.run(files.take(n));
        assert(files.take(n + 1).drop_last() =~= files.take(n));
        assert(files.take(n + 1).last() == files[n]);
        lemma_observe(before, files[n]);
        let after = before.observe(files[n]);
        let k = choose|k: int| 0 <= k < before.items.len() && before.items[k] == item;
        assert(after.items.take(before.items.len() as int)[k] == after.items[k]);
        lemma_run_keeps_items(scan, files, n + 1, item);
    }
}

/// Of two items of the same path among items with one item for each path,
/// the one is the other.
pub proof fn lemma_same_path_same_item(items: Seq<ItemView>, a: ItemView, b: ItemView)
    requires
        one_per_path(items),
        items.contains(a),
        items.contains(b),
        a.path == b.path,
    ensures
        a == b,
{
    let i = choose|i: int| 0 <= i < items.len() && items[i] == a;
    let j = choose|j: int| 0 <= j < items.len() && items[j] == b;
    if i < j {
        assert(items[i].path != items[j].path);
    } else if j < i {
        assert(items[j].path != items[i].path);
    }
}

/// The items that stay at a rescan of a directory lie outside of it.
pub proof fn lemma_outside_of(items: Seq<ItemView>, directory: Seq<char>, item: ItemView)
    requires
        outside_of(items, directory).contains(item),
    ensures
        !lies_within(item.path, directory),
        items.contains(item),
    decreases items.len(),
{
    if items.len() == 0 {
    } else {
        let rest = outside_of(items.drop_last(), directory);
        if rest.contains(item) {
            lemma_outside_of(items.drop_last(), directory, item);
            let k = choose|k: int| 0 <= k < items.drop_last().len() && items.drop_last()[k] == item;
            assert(items[k] == item);
        } else {
            let out = outside_of(items, directory);
            let k = choose|k: int| 0 <= k < out.len() && out[k] == item;
            assert(!lies_within(items.last().path, directory));
            if k < rest.len() {
                assert(rest[k] == item);
            }
            assert(items[items.len() - 1] == item);
        }
    }
}

/// After a file was removed from disk, a rescan of the directory it was
/// in leaves no item with its path: the scan no longer meets the file,
/// and the stored items within the directory give way to what the scan found.
pub proof fn law_deleted_file_leaves(
    state: StateView,
    directory: Seq<char>,
    files: Seq<FileObservation>,
    path: Seq<char>,
    now: u64,
    warning: Option<Seq<char>>,
)
    requires
        lies_within(path, directory),
        forall|k: int| 0 <= k < files.len() ==> (#[trigger] files[k]).wf(),
        forall|k: int| 0 <= k < files.len() ==> (#[trigger] files[k]).probe.path != path,
    ensures
        ({
            let baseline = inside_of(state.items, directory);
            let outcome = ScanView::start(baseline).run(files).outcome();
            let after = state.after_rescan_directory(directory, outcome, now, warning);
            !has_path(after.items, path)
        }),
{
    let baseline = inside_of(state.items, directory);
    let scan = ScanView::start(baseline).run(files);
    let outcome = scan.outcome();
    let kept = outside_of(state.items, directory);
    let joined = kept + outcome.items;
    let after = state.after_rescan_directory(directory, outcome, now, warning);
    assert forall|i: int| 0 <= i < after.items.len() implies (#[trigger] after.items[i]).path
        != path by {
        let item = after.items[i];
        assert(after.items.contains(item));
        lemma_sort_contains(unique_paths(joined), item);
        lemma_unique_paths(joined);
        let u = choose|u: int| 0 <= u < unique_paths(joined).len() && unique_paths(joined)[u]
            == item;
        assert(joined.contains(unique_paths(joined)[u]));
        let k = choose|k: int| 0 <= k < joined.len() && joined[k] == item;
        if k < kept.len() {
            assert(kept[k] == item);
            lemma_outside_of(state.items, directory, item);
        } else {
            assert(outcome.items[k - kept.len()] == item);
            lemma_sort_contains(scan.items, item);
            lemma_run_items_origin(baseline, files, item);
            let m = choose|m: int|
                0 <= m < files.len() && contribution(baseline, #[trigger] files[m]) == Some(item);
            lemma_contribution_path(baseline, files[m]);
        }
    }
}

/// Where every file that is not temporary can be extracted, a scan holds
/// an item for exactly the paths it met, and so as many items as it
/// counts files.
pub proof fn lemma_counted_files(existing: Seq<ItemView>, files: Seq<FileObservation>)
    requires
        forall|k: int|
            0 <= k < files.len() && !is_temporary_name((#[trigger] files[k]).probe.name) ==> {
                &&& files[k].wf()
                &&& files[k].extraction is Ok
            },
    ensures
        ScanView::start(existing).run(files).items.len() == counted_files(files),
        forall|path: Seq<char>|
            #![trigger has_path(ScanView::start(existing).run(files).items, path)]
            #![trigger path_met(files, path)]
            has_path(ScanView::start(existing).run(files).items, path) <==> path_met(files, path),
    decreases files.len(),
{
    let scan = ScanView::start(existing);
    if files.len() == 0 {
    } else {
        let front = files.drop_last();
        let last = files.last();
        assert forall|k: int|
            0 <= k < front.len() && !is_temporary_name(
                (#[trigger] front[k]).probe.name,
            ) implies front[k].wf() && front[k].extraction is Ok by {
            assert(front[k] == files[k]);
        }
        lemma_counted_files(existing, front);
        let before = scan.run(front);
        let after = before.observe(last);
        lemma_run_keeps_baseline(scan, front);
        lemma_observe(before, last);
        assert(last == files[files.len() - 1]);
        if !is_temporary_name(last.probe.name) {
            lemma_contribution_path(existing, last);
            if !has_path(before.items, last.probe.path) {
                assert(after.items.last().path == last.probe.path);
            }
        }
        assert forall|path: Seq<char>|
            #![trigger has_path(after.items, path)]
            #![trigger path_met(files, path)]
            has_path(after.items, path) <==> path_met(files, path) by {
            assert(has_path(before.items, path) <==> path_met(front, path));
            if has_path(after.items, path) {
                let i = choose|i: int| 0 <= i < after.items.len() && (#[trigger] after.items[i]).path
                    == path;
                if i < before.items.len() {
                    assert(after.items.take(before.items.len() as int)[i] == after.items[i]);
                    assert(before.items[i].path == path);
                    assert(has_path(before.items, path));
                    let k = choose|k: int|
                        0 <= k < front.len() && !is_temporary_name(
                            (#[trigger] front[k]).probe.name,
                        ) && front[k].probe.path == path;
                    assert(files[k] == front[k]);
                } else {
                    assert(files[files.len() - 1].probe.path == path);
                }
            }
            if path_met(files, path) {
                let k = choose|k: int|
                    0 <= k < files.len() && !is_temporary_name((#[trigger] files[k]).probe.name)
                        && files[k].probe.path == path;
                if k < front.len() {
                    assert(front[k] == files[k]);
                    assert(path_met(front, path));
                    let i = choose|i: int|
                        0 <= i < before.items.len() && (#[trigger] before.items[i]).path == path;
                    assert(after.items.take(before.items.len() as int)[i] == after.items[i]);
                    assert(after.items[i].path == path);
                } else if has_path(before.items, path) {
                    let i = choose|i: int|
                        0 <= i < before.items.len() && (#[trigger] before.items[i]).path == path;
                    assert(after.items.take(before.items.len() as int)[i] == after.items[i]);
                    assert(after.items[i].path == path);
                } else {
                    assert(after.items[after.items.len() - 1].path == path);
                }
            }
        }
    }
}

/// A tree that does not change while it is scanned twice: what an
/// extraction gives is the item of its file, a file that can be extracted
/// has a readable modification time or checksum, and files met under the
/// same path are the same file.
pub open spec fn steady_tree(files: Seq<FileObservation>) -> bool {
    &&& forall|k: int|
        0 <= k < files.len() && !is_temporary_name((#[trigger] files[k]).probe.name) ==> {
            &&& files[k].wf()
            &&& files[k].extraction is Ok ==> (files[k].probe.modified_at is Some
                || files[k].checksum is Some)
        }
    &&& forall|i: int, j: int|
        0 <= i < files.len() && 0 <= j < files.len() && (#[trigger] files[i]).probe.path == (
        #[trigger] files[j]).probe.path ==> files[i] == files[j]
}

/// The second of two scans of a steady tree, file by file: over the items
/// of the first scan as baseline, every file that the first scan got an
/// item for is served from the baseline with that item, and no other file
/// gives an item.
proof fn lemma_second_run(
    first: Seq<ItemView>,
    second: Seq<ItemView>,
    files: Seq<FileObservation>,
    n: int,
)
    requires
        0 <= n <= files.len(),
        second == sort_desc(ScanView::start(first).run(files).items),
        steady_tree(files),
    ensures
        ({
            let one = ScanView::start(first).run(files.take(n));
            let two = ScanView::start(second).run(files.take(n));
            &&& two.items == one.items
            &&& two.scanned_count == 0
            &&& two.cached_count == one.items.len()
        }),
    decreases n,
{
    if n == 0 {
        assert(files.take(0) =~= Seq::empty());
    } else {
        lemma_second_run(first, second, files, n - 1);
        let front = files.take(n - 1);
        assert(files.take(n).drop_last() =~= front);
        let file = files[n - 1];
        assert(files.take(n).last() == file);
        let one_before = ScanView::start(first).run(front);
        lemma_run_keeps_baseline(ScanView::start(first), front);
        lemma_run_keeps_baseline(ScanView::start(second), front);
        let whole = ScanView::start(first).run(files).items;
        law_scan_one_per_path(ScanView::start(first), files);
        if !is_temporary_name(file.probe.name) && !has_path(one_before.items, file.probe.path) {
            lemma_find_existing(second, file.probe.path);
            lemma_find_existing(first, file.probe.path);
            lemma_contribution_path(first, file);
            if contribution(first, file) is Some {
                // the first scan added an item here, and the second
                // baseline holds it, and no other of its path
                let item = contribution(first, file)->0;
                let one_after = one_before.observe(file);
                assert(one_after.items == one_before.items.push(item));
                assert(one_after.items[one_after.items.len() - 1] == item);
                assert(one_after.items.contains(item));
                lemma_run_keeps_items(ScanView::start(first), files, n, item);
                lemma_sort_contains(whole, item);
                assert(find_existing(second, file.probe.path) is Some) by {
                    let k = choose|k: int| 0 <= k < second.len() && second[k] == item;
                    assert(second[k].path == file.probe.path);
                }
                let found = find_existing(second, file.probe.path)->0;
                lemma_sort_contains(whole, found);
                lemma_same_path_same_item(whole, found, item);
                let hit = if quick_hit(second, file.probe) is Some {
                    quick_hit(second, file.probe)
                } else {
                    checksum_hit(second, file.probe, file.checksum)
                };
                assert(hit == Some(item));
            } else if find_existing(second, file.probe.path) is Some {
                // the first scan got nothing for this file, so it holds
                // no item of its path
                let found = find_existing(second, file.probe.path)->0;
                lemma_sort_contains(whole, found);
                lemma_run_items_origin(first, files, found);
                let m = choose|m: int|
                    0 <= m < files.len() && contribution(first, #[trigger] files[m]) == Some(found);
                lemma_contribution_path(first, files[m]);
                assert(files[m] == file);
            }
        }
    }
}

/// Two rescans of all directories in a row, over a tree that does not
/// change: the second leaves the items as the first left them, extracts
/// nothing, and serves from the cache every file that the first got an
/// item for; where every file can be extracted, these are all the files
/// it counts.
pub proof fn law_rescan_idempotent(
    state: StateView,
    files: Seq<FileObservation>,
    first_now: u64,
    second_now: u64,
    warning: Option<Seq<char>>,
)
    requires
        steady_tree(files),
    ensures
        ({
            let first = ScanView::start(state.items).run(files).outcome();
            let between = state.after_rescan(first, first_now, warning);
            let second = ScanView::start(between.items).run(files).outcome();
            let after = between.after_rescan(second, second_now, warning);
            let all_extractable = forall|k: int|
                0 <= k < files.len() && !is_temporary_name((#[trigger] files[k]).probe.name)
                    ==> files[k].extraction is Ok;
            &&& after.items == between.items
            &&& state.directories.len() > 0 ==> {
                &&& second.scanned_count == 0
                &&& second.cached_count == between.items.len()
                &&& all_extractable ==> between.rescan_summary(
                    second,
                    second_now,
                    warning,
                ).cached == Some(counted_files(files))
            }
        }),
{
    let one = ScanView::start(state.items).run(files);
    let first = one.outcome();
    let between = state.after_rescan(first, first_now, warning);
    if state.directories.len() > 0 {
        law_scan_one_per_path(ScanView::start(state.items), files);
        lemma_sort_desc(one.items);
        lemma_unique_paths_fixed(first.items);
        lemma_sort_fixed(first.items);
        assert(between.items == sort_desc(one.items));
        lemma_second_run(state.items, between.items, files, files.len() as int);
        assert(files.take(files.len() as int) =~= files);
        let two = ScanView::start(between.items).run(files);
        assert(two.items == one.items);
        lemma_unique_paths_fixed(sort_desc(two.items));
        if forall|k: int|
            0 <= k < files.len() && !is_temporary_name((#[trigger] files[k]).probe.name)
                ==> files[k].extraction is Ok {
            lemma_counted_files(state.items, files);
        }
    }
}

/// The first item with a path has that path and none before it has; where
/// there is none, no item has the path.
pub proof fn lemma_first_with_path(items: Seq<ItemView>, path: Seq<char>)
    ensures
        match first_with_path(items, path) {
            Some(at) => 0 <= at < items.len() && items[at].path == path && forall|j: int|
                0 <= j < at ==> items[j].path != path,
            None => !has_path(items, path),
        },
    decreases items.len(),
{
    if items.len() > 0 {
        lemma_first_with_path(items.drop_last(), path);
        match first_with_path(items.drop_last(), path) {
            Some(at) => {
                assert(items.drop_last()[at] == items[at]);
                assert forall|j: int| 0 <= j < at implies items[j].path != path by {
                    assert(items.drop_last()[j] == items[j]);
                }
            },
            None => {
                assert forall|j: int| 0 <= j < items.len() - 1 implies items[j].path != path by {
                    assert(items.drop_last()[j] == items[j]);
                }
            },
        }
    }
}

/// The first item of a path is among those that are left of each path.
pub proof fn lemma_unique_keeps_first(items: Seq<ItemView>, at: int)
    requires
        0 <= at < items.len(),
        forall|j: int| 0 <= j < at ==> items[j].path != items[at].path,
    ensures
        unique_paths(items).contains(items[at]),
    decreases items.len(),
{
    let rest = items.drop_last();
    let front = unique_paths(rest);
    let out = unique_paths(items);
    lemma_unique_paths(rest);
    if at == items.len() - 1 {
        if has_path(rest, items.last().path) {
            let i = choose|i: int| 0 <= i < rest.len() && (#[trigger] rest[i]).path
                == items.last().path;
            assert(items[i] == rest[i]);
        }
        assert(out[out.len() - 1] == items[at]);
    } else {
        assert(rest[at] == items[at]);
        assert forall|j: int| 0 <= j < at implies rest[j].path != rest[at].path by {
            assert(rest[j] == items[j]);
        }
        lemma_unique_keeps_first(rest, at);
        let k = choose|k: int| 0 <= k < front.len() && front[k] == items[at];
        assert(out[k] == front[k]);
    }
}

/// An item that is merged into the stored ones takes the place of the one
/// with its path and makes no second of it: afterwards the item is stored,
/// and no two stored items have the same path.
pub proof fn law_merge_overwrites(state: StateView, item: ItemView, now: u64)
    ensures
        one_per_path(state.with_item(item, now).items),
        state.with_item(item, now).items.contains(item),
{
    let items = state.items;
    let all = merged(items, item);
    lemma_first_with_path(items, item.path);
    let at = match first_with_path(items, item.path) {
        Some(at) => at,
        None => items.len() as int,
    };
    assert(all[at] == item);
    assert forall|j: int| 0 <= j < at implies all[j].path != all[at].path by {
        assert(all[j] == items[j]);
    }
    lemma_unique_keeps_first(all, at);
    lemma_unique_paths(all);
    lemma_sort_keeps_one_per_path(unique_paths(all));
    lemma_sort_contains(unique_paths(all), item);
}

/// After a rescan of all directories no two stored items have the same
/// path, whatever the scan handed back.
pub proof fn law_rescan_one_per_path(
    state: StateView,
    outcome: OutcomeView,
    now: u64,
    warning: Option<Seq<char>>,
)
    ensures
        one_per_path(state.after_rescan(outcome, now, warning).items),
{
    lemma_unique_paths(outcome.items);
    lemma_sort_keeps_one_per_path(unique_paths(outcome.items));
}

/// After the rescan of a directory no two stored items have the same
/// path, whatever was stored before and whatever the scan handed back.
pub proof fn law_rescan_directory_one_per_path(
    state: StateView,
    directory: Seq<char>,
    outcome: OutcomeView,
    now: u64,
    warning: Option<Seq<char>>,
)
    ensures
        one_per_path(state.after_rescan_directory(directory, outcome, now, warning).items),
{
    let joined = outside_of(state.items, directory) + outcome.items;
    lemma_unique_paths(joined);
    lemma_sort_keeps_one_per_path(unique_paths(joined));
}

} // verus!
