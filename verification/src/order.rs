//! Stable sorting from the greatest key down, and the order of stored
//! items: newest modification first, items of equal modification time in
//! the order in which they arrived.

use vstd::prelude::*;
use crate::models::{has_path, one_per_path, ItemView, SlideIndexItem};

verus! {

/// Every element has a key at least as great as those of the elements after it.
pub open spec fn is_descending<T>(s: Seq<T>, key: spec_fn(T) -> int) -> bool {
    forall|i: int, j: int| 0 <= i <= j < s.len() ==> key(s[i]) >= key(s[j])
}

/// `x` placed into `sorted` behind every element whose key is at least as great.
pub open spec fn insert_descending<T>(sorted: Seq<T>, x: T, key: spec_fn(T) -> int) -> Seq<T>
    decreases sorted.len(),
{
    if sorted.len() == 0 {
        seq![x]
    } else if key(sorted.last()) >= key(x) {
        sorted.push(x)
    } else {
        insert_descending(sorted.drop_last(), x, key).push(sorted.last())
    }
}

/// The stable sort from the greatest key down.
pub open spec fn sort_descending<T>(s: Seq<T>, key: spec_fn(T) -> int) -> Seq<T>
    decreases s.len(),
{
    if s.len() == 0 {
        Seq::empty()
    } else {
        insert_descending(sort_descending(s.drop_last(), key), s.last(), key)
    }
}

/// Where an element is inserted: at the index `p` that ends the elements
/// whose key is at least as great.
pub proof fn lemma_insert_at<T>(s: Seq<T>, x: T, key: spec_fn(T) -> int, p: int)
    requires
        0 <= p <= s.len(),
        p > 0 ==> key(s[p - 1]) >= key(x),
        forall|k: int| p <= k < s.len() ==> key(s[k]) < key(x),
    ensures
        insert_descending(s, x, key) == s.insert(p, x),
    decreases s.len(),
{
    if s.len() == 0 {
        assert(s.insert(p, x) =~= seq![x]);
    } else if p == s.len() {
        assert(s.insert(p, x) =~= s.push(x));
    } else {
        lemma_insert_at(s.drop_last(), x, key, p);
        assert(s.drop_last().insert(p, x).push(s.last()) =~= s.insert(p, x));
    }
}

/// An insertion puts the element somewhere among the others and moves none of them.
pub proof fn lemma_insert_somewhere<T>(s: Seq<T>, x: T, key: spec_fn(T) -> int) -> (p: int)
    ensures
        0 <= p <= s.len(),
        insert_descending(s, x, key) == s.insert(p, x),
    decreases s.len(),
{
    if s.len() == 0 {
        assert(s.insert(0, x) =~= seq![x]);
        0
    } else if key(s.last()) >= key(x) {
        assert(s.insert(s.len() as int, x) =~= s.push(x));
        s.len() as int
    } else {
        let p = lemma_insert_somewhere(s.drop_last(), x, key);
        assert(s.drop_last().insert(p, x).push(s.last()) =~= s.insert(p, x));
        p
    }
}

/// Inserting keeps the order and adds exactly `x`.
pub proof fn lemma_insert_descending<T>(s: Seq<T>, x: T, key: spec_fn(T) -> int)
    requires
        is_descending(s, key),
    ensures
        is_descending(insert_descending(s, x, key), key),
        insert_descending(s, x, key).len() == s.len() + 1,
        insert_descending(s, x, key).to_multiset() == s.to_multiset().insert(x),
    decreases s.len(),
{
    broadcast use vstd::seq_lib::group_to_multiset_ensures;

    if s.len() == 0 {
        assert(seq![x] =~= Seq::<T>::empty().push(x));
        assert(s =~= Seq::<T>::empty());
    } else if key(s.last()) >= key(x) {
    } else {
        let front = s.drop_last();
        lemma_insert_descending(front, x, key);
        let r = insert_descending(front, x, key);
        assert(s =~= front.push(s.last()));
        assert forall|i: int, j: int| 0 <= i <= j < r.push(s.last()).len() implies key(
            r.push(s.last())[i],
        ) >= key(r.push(s.last())[j]) by {
            if j < r.len() {
            } else if i < r.len() {
                assert(r.to_multiset().count(r[i]) > 0);
                if r[i] != x {
                    assert(front.to_multiset().count(r[i]) > 0);
                    let k = choose|k: int| 0 <= k < front.len() && front[k] == r[i];
                    assert(s[k] == r[i]);
                }
            }
        }
        assert(r.push(s.last()).to_multiset() =~= s.to_multiset().insert(x));
    }
}

/// The sort orders its input and keeps exactly its elements.
pub proof fn lemma_sort_descending<T>(s: Seq<T>, key: spec_fn(T) -> int)
    ensures
        is_descending(sort_descending(s, key), key),
        sort_descending(s, key).len() == s.len(),
        sort_descending(s, key).to_multiset() == s.to_multiset(),
    decreases s.len(),
{
    broadcast use vstd::seq_lib::group_to_multiset_ensures;

    if s.len() == 0 {
        assert(s =~= Seq::<T>::empty());
    } else {
        lemma_sort_descending(s.drop_last(), key);
        lemma_insert_descending(sort_descending(s.drop_last(), key), s.last(), key);
        assert(s =~= s.drop_last().push(s.last()));
    }
}

/// The sort leaves an ordered sequence as it is.
pub proof fn lemma_sort_descending_fixed<T>(s: Seq<T>, key: spec_fn(T) -> int)
    requires
        is_descending(s, key),
    ensures
        sort_descending(s, key) == s,
    decreases s.len(),
{
    if s.len() == 0 {
        assert(s =~= Seq::<T>::empty());
    } else {
        let front = s.drop_last();
        lemma_sort_descending_fixed(front, key);
        if front.len() > 0 {
            assert(front.last() == s[s.len() - 2]);
        }
        assert(insert_descending(front, s.last(), key) == front.push(s.last()));
        assert(front.push(s.last()) =~= s);
    }
}

/// An element occurs in the sorted sequence exactly if it occurs in the input.
pub proof fn lemma_sort_descending_contains<T>(s: Seq<T>, key: spec_fn(T) -> int, x: T)
    ensures
        sort_descending(s, key).contains(x) <==> s.contains(x),
{
    broadcast use vstd::seq_lib::group_to_multiset_ensures;

    lemma_sort_descending(s, key);
    assert(sort_descending(s, key).contains(x) <==> sort_descending(s, key).to_multiset().count(x)
        > 0);
    assert(s.contains(x) <==> s.to_multiset().count(x) > 0);
}

/// The first `n` elements after an insertion depend only on the first `n`
/// elements before it.
pub proof fn lemma_insert_take<T>(s: Seq<T>, x: T, key: spec_fn(T) -> int, n: int)
    requires
        is_descending(s, key),
        0 <= n <= s.len(),
    ensures
        insert_descending(s, x, key).take(n) == insert_descending(s.take(n), x, key).take(n),
    decreases s.len(),
{
    if n == s.len() {
        assert(s.take(n) =~= s);
    } else {
        let front = s.drop_last();
        assert(is_descending(front, key)) by {
            assert forall|i: int, j: int| 0 <= i <= j < front.len() implies key(front[i]) >= key(
                front[j],
            ) by {
                assert(front[i] == s[i] && front[j] == s[j]);
            }
        }
        lemma_insert_take(front, x, key, n);
        lemma_insert_descending(front, x, key);
        assert(front.take(n) =~= s.take(n));
        if key(s.last()) >= key(x) {
            assert forall|k: int| 0 <= k < s.len() implies key(s[k]) >= key(x) by {
                assert(key(s[k]) >= key(s[s.len() - 1]));
            }
            if n > 0 {
                assert(s.take(n)[n - 1] == s[n - 1]);
            }
            lemma_insert_at(s.take(n), x, key, n);
            assert(s.push(x).take(n) =~= s.take(n).insert(n, x).take(n));
        } else {
            let r = insert_descending(front, x, key);
            assert(r.push(s.last()).take(n) =~= r.take(n));
        }
    }
}

/// The modification time of an item as a sorting key.
pub open spec fn by_time() -> spec_fn(ItemView) -> int {
    |item: ItemView| item.updated_at as int
}

/// Every item is at least as recent as the items after it.
pub open spec fn is_sorted_desc(s: Seq<ItemView>) -> bool {
    forall|i: int, j: int| 0 <= i <= j < s.len() ==> s[i].updated_at >= s[j].updated_at
}

/// The stable sort by modification time, newest first.
pub open spec fn sort_desc(s: Seq<ItemView>) -> Seq<ItemView> {
    sort_descending(s, by_time())
}

/// The sort orders its input and keeps exactly its items.
pub proof fn lemma_sort_desc(s: Seq<ItemView>)
    ensures
        is_sorted_desc(sort_desc(s)),
        sort_desc(s).len() == s.len(),
        sort_desc(s).to_multiset() == s.to_multiset(),
{
    lemma_sort_descending(s, by_time());
    let r = sort_desc(s);
    assert forall|i: int, j: int| 0 <= i <= j < r.len() implies r[i].updated_at
        >= r[j].updated_at by {
        assert(by_time()(r[i]) >= by_time()(r[j]));
    }
}

/// The sort leaves an ordered sequence as it is.
pub proof fn lemma_sort_fixed(s: Seq<ItemView>)
    requires
        is_sorted_desc(s),
    ensures
        sort_desc(s) == s,
{
    lemma_sort_descending_fixed(s, by_time());
}

/// An item occurs in the sorted sequence exactly if it occurs in the input.
pub proof fn lemma_sort_contains(s: Seq<ItemView>, x: ItemView)
    ensures
        sort_desc(s).contains(x) <==> s.contains(x),
{
    lemma_sort_descending_contains(s, by_time(), x);
}

/// An item with a path that no other has can be put anywhere.
pub proof fn lemma_insert_keeps_one_per_path(items: Seq<ItemView>, p: int, item: ItemView)
    requires
        one_per_path(items),
        !has_path(items, item.path),
        0 <= p <= items.len(),
    ensures
        one_per_path(items.insert(p, item)),
{
    let out = items.insert(p, item);
    assert forall|i: int, j: int| 0 <= i < j < out.len() implies out[i].path != out[j].path by {
        let a = if i < p {
            i
        } else {
            i - 1
        };
        let b = if j < p {
            j
        } else {
            j - 1
        };
        if i == p {
            assert(out[j] == items[b]);
        } else if j == p {
            assert(out[i] == items[a]);
        } else {
            assert(out[i] == items[a] && out[j] == items[b]);
        }
    }
}

/// Sorting keeps the paths apart.
pub proof fn lemma_sort_keeps_one_per_path(items: Seq<ItemView>)
    requires
        one_per_path(items),
    ensures
        one_per_path(sort_desc(items)),
    decreases items.len(),
{
    if items.len() > 0 {
        let front = items.drop_last();
        let last = items.last();
        assert(one_per_path(front)) by {
            assert forall|i: int, j: int| 0 <= i < j < front.len() implies front[i].path
                != front[j].path by {
                assert(front[i] == items[i] && front[j] == items[j]);
            }
        }
        lemma_sort_keeps_one_per_path(front);
        let sorted = sort_desc(front);
        assert(!has_path(sorted, last.path)) by {
            if has_path(sorted, last.path) {
                let i = choose|i: int| 0 <= i < sorted.len() && (#[trigger] sorted[i]).path
                    == last.path;
                assert(sorted.contains(sorted[i]));
                lemma_sort_contains(front, sorted[i]);
                let k = choose|k: int| 0 <= k < front.len() && front[k] == sorted[i];
                assert(items[k].path == items[items.len() - 1].path);
            }
        }
        let p = lemma_insert_somewhere(sorted, last, by_time());
        lemma_insert_keeps_one_per_path(sorted, p, last);
    }
}

/// Sorts items by modification time, newest first; items of equal time
/// keep their order.
pub fn sort_items(items: Vec<SlideIndexItem>) -> (out: Vec<SlideIndexItem>)
    ensures
        out.deep_view() == sort_desc(items.deep_view()),
        is_sorted_desc(out.deep_view()),
        out.len() == items.len(),
        out.deep_view().to_multiset() == items.deep_view().to_multiset(),
{
    let ghost input = items.deep_view();
    let mut pending = items;
    let mut reversed: Vec<SlideIndexItem> = Vec::new();
    while pending.len() > 0
        invariant
            pending.len() + reversed.len() == input.len(),
            forall|k: int| 0 <= k < pending.len() ==> pending[k]@ == input[k],
            forall|k: int|
                0 <= k < reversed.len() ==> (#[trigger] reversed[k])@ == input[input.len() - 1 - k],
        decreases pending.len(),
    {
        let item = pending.pop().unwrap();
        reversed.push(item);
    }
    let mut out: Vec<SlideIndexItem> = Vec::new();
    let ghost mut done: int = 0;
    assert(input.take(0) =~= Seq::<ItemView>::empty());
    while reversed.len() > 0
        invariant
            0 <= done <= input.len(),
            reversed.len() == input.len() - done,
            forall|k: int|
                0 <= k < reversed.len() ==> (#[trigger] reversed[k])@ == input[input.len() - 1 - k],
            out.deep_view() == sort_desc(input.take(done)),
        decreases reversed.len(),
    {
        let ghost out_before = out.deep_view();
        let item = reversed.pop().unwrap();
        assert(item@ == input[done]);
        let mut p: usize = out.len();
        while p > 0 && out[p - 1].updated_at < item.updated_at
            invariant
                p <= out.len(),
                out.deep_view() == out_before,
                forall|k: int| p <= k < out.len() ==> out_before[k].updated_at < item.updated_at,
            decreases p,
        {
            p -= 1;
        }
        proof {
            lemma_insert_at(out_before, item@, by_time(), p as int);
        }
        out.insert(p, item);
        assert(out.deep_view() =~= out_before.insert(p as int, input[done]));
        assert(input.take(done + 1).drop_last() =~= input.take(done));
        proof {
            done = done + 1;
        }
    }
    assert(input.take(input.len() as int) =~= input);
    proof {
        lemma_sort_desc(input);
    }
    out
}

} // verus!
