//! Keywords of a document: the tokens of its text, counted, without those
//! that a preview already shows, the most frequent first.

use vstd::prelude::*;
use crate::chars::{from_chars, lowercase_of, same_chars, to_chars};
use crate::models::{PreviewView, SlidePreview};
use crate::order::{
    insert_descending, is_descending, lemma_insert_at, lemma_insert_descending, lemma_insert_take,
    lemma_sort_descending, lemma_sort_descending_contains, sort_descending,
};
use crate::text::views;

verus! {

/// The most keywords an item holds.
pub const MAX_KEYWORDS: usize = 40;

/// A character of a token: a small letter of the basic Latin alphabet or a digit.
pub open spec fn is_token_char(c: char) -> bool {
    ('a' <= c && c <= 'z') || ('0' <= c && c <= '9')
}

/// The tokens met so far and the run of token characters that is still
/// open, after the characters of `s` were read from left to right.
pub open spec fn token_state(s: Seq<char>) -> (Seq<Seq<char>>, Seq<char>)
    decreases s.len(),
{
    if s.len() == 0 {
        (Seq::empty(), Seq::empty())
    } else {
        let (done, run) = token_state(s.drop_last());
        if is_token_char(s.last()) {
            (done, run.push(s.last()))
        } else if run.len() >= 3 {
            (done.push(run), Seq::empty())
        } else {
            (done, Seq::empty())
        }
    }
}

/// The tokens of a text: its maximal runs of token characters that are at
/// least three characters long, in their order.
pub open spec fn tokens(s: Seq<char>) -> Seq<Seq<char>> {
    let (done, run) = token_state(s);
    if run.len() >= 3 {
        done.push(run)
    } else {
        done
    }
}

/// A token with the number of times it occurs.
pub struct Tally {
    pub token: Seq<char>,
    pub count: nat,
}

/// The index of the entry of a token.
pub open spec fn entry_of(entries: Seq<Tally>, token: Seq<char>) -> Option<int>
    decreases entries.len(),
{
    if entries.len() == 0 {
        None
    } else {
        match entry_of(entries.drop_last(), token) {
            Some(i) => Some(i),
            None => if entries.last().token == token {
                Some(entries.len() - 1)
            } else {
                None
            },
        }
    }
}

/// The entries after one more occurrence of a token: its entry counts one
/// more, or a new entry is added at the end.
pub open spec fn bump(entries: Seq<Tally>, token: Seq<char>) -> Seq<Tally> {
    match entry_of(entries, token) {
        Some(i) => entries.update(i, Tally { token, count: entries[i].count + 1 }),
        None => entries.push(Tally { token, count: 1 }),
    }
}

/// The distinct tokens in the order of their first occurrence, each with
/// the number of its occurrences.
pub open spec fn tally(tokens: Seq<Seq<char>>) -> Seq<Tally>
    decreases tokens.len(),
{
    if tokens.len() == 0 {
        Seq::empty()
    } else {
        bump(tally(tokens.drop_last()), tokens.last())
    }
}

/// The tokens of all the given texts.
pub open spec fn shown_tokens(texts: Seq<Seq<char>>) -> Seq<Seq<char>>
    decreases texts.len(),
{
    if texts.len() == 0 {
        Seq::empty()
    } else {
        shown_tokens(texts.drop_last()) + tokens(texts.last())
    }
}

/// The entries whose token is not among `shown`.
pub open spec fn unshown(entries: Seq<Tally>, shown: Seq<Seq<char>>) -> Seq<Tally>
    decreases entries.len(),
{
    if entries.len() == 0 {
        Seq::empty()
    } else if shown.contains(entries.last().token) {
        unshown(entries.drop_last(), shown)
    } else {
        unshown(entries.drop_last(), shown).push(entries.last())
    }
}

/// The count of an entry as a sorting key.
pub open spec fn by_count() -> spec_fn(Tally) -> int {
    |entry: Tally| entry.count as int
}

/// The first 40 entries, or all of them if there are no more.
pub open spec fn top(entries: Seq<Tally>) -> Seq<Tally> {
    if entries.len() <= MAX_KEYWORDS {
        entries
    } else {
        entries.take(MAX_KEYWORDS as int)
    }
}

/// The entries that become keywords: those whose token no preview shows,
/// the most frequent first, those of equal frequency in the order of
/// their first occurrence, and at most 40 of them.
pub open spec fn ranked(lowered_text: Seq<char>, lowered_previews: Seq<Seq<char>>) -> Seq<Tally> {
    top(
        sort_descending(
            unshown(tally(tokens(lowered_text)), shown_tokens(lowered_previews)),
            by_count(),
        ),
    )
}

/// The keywords of a text, given in lowercase, beside previews given in lowercase.
pub open spec fn keywords_of_lowercase(
    lowered_text: Seq<char>,
    lowered_previews: Seq<Seq<char>>,
) -> Seq<Seq<char>> {
    let entries = ranked(lowered_text, lowered_previews);
    Seq::new(entries.len(), |i: int| entries[i].token)
}

/// The texts in lowercase.
pub open spec fn all_lowercase(texts: Seq<Seq<char>>) -> Seq<Seq<char>> {
    Seq::new(texts.len(), |i: int| lowercase_of(texts[i]))
}

/// The texts of the previews.
pub open spec fn preview_texts(previews: Seq<PreviewView>) -> Seq<Seq<char>> {
    Seq::new(previews.len(), |i: int| previews[i].text)
}

/// The keywords of a text beside the texts of its previews.
pub open spec fn keywords_of(text: Seq<char>, previews: Seq<Seq<char>>) -> Seq<Seq<char>> {
    keywords_of_lowercase(lowercase_of(text), all_lowercase(previews))
}

/// No keyword is a token of the lowercase text of a preview.
pub open spec fn keywords_disjoint(keywords: Seq<Seq<char>>, previews: Seq<Seq<char>>) -> bool {
    forall|k: int, j: int|
        0 <= k < keywords.len() && 0 <= j < previews.len() ==> !tokens(
            lowercase_of(#[trigger] previews[j]),
        ).contains(#[trigger] keywords[k])
}

/// The tokens of each text are among the tokens of all the texts.
pub proof fn lemma_shown_tokens(texts: Seq<Seq<char>>, j: int, token: Seq<char>)
    requires
        0 <= j < texts.len(),
        tokens(texts[j]).contains(token),
    ensures
        shown_tokens(texts).contains(token),
    decreases texts.len(),
{
    let front = shown_tokens(texts.drop_last());
    let last = tokens(texts.last());
    if j == texts.len() - 1 {
        let k = choose|k: int| 0 <= k < last.len() && last[k] == token;
        assert((front + last)[front.len() + k] == token);
    } else {
        assert(texts.drop_last()[j] == texts[j]);
        lemma_shown_tokens(texts.drop_last(), j, token);
        let k = choose|k: int| 0 <= k < front.len() && front[k] == token;
        assert((front + last)[k] == token);
    }
}

/// What is left of the entries has no token among `shown`.
pub proof fn lemma_unshown(entries: Seq<Tally>, shown: Seq<Seq<char>>, entry: Tally)
    requires
        unshown(entries, shown).contains(entry),
    ensures
        !shown.contains(entry.token),
        entries.contains(entry),
    decreases entries.len(),
{
    if entries.len() > 0 {
        let rest = unshown(entries.drop_last(), shown);
        if rest.contains(entry) {
            lemma_unshown(entries.drop_last(), shown, entry);
            let k = choose|k: int|
                0 <= k < entries.drop_last().len() && entries.drop_last()[k] == entry;
            assert(entries[k] == entry);
        } else {
            let out = unshown(entries, shown);
            let k = choose|k: int| 0 <= k < out.len() && out[k] == entry;
            if k < rest.len() {
                assert(rest[k] == entry);
            }
            assert(entries[entries.len() - 1] == entry);
        }
    }
}

/// No keyword of a text is a token of one of its previews, and there are
/// at most 40 keywords.
pub proof fn lemma_keywords_disjoint(text: Seq<char>, previews: Seq<Seq<char>>)
    ensures
        keywords_disjoint(keywords_of(text, previews), previews),
        keywords_of(text, previews).len() <= MAX_KEYWORDS,
{
    let lowered = all_lowercase(previews);
    let shown = shown_tokens(lowered);
    let candidates = unshown(tally(tokens(lowercase_of(text))), shown);
    let sorted = sort_descending(candidates, by_count());
    let entries = top(sorted);
    let keywords = keywords_of(text, previews);
    assert forall|k: int, j: int|
        0 <= k < keywords.len() && 0 <= j < previews.len() implies !tokens(
        lowercase_of(#[trigger] previews[j]),
    ).contains(#[trigger] keywords[k]) by {
        let entry = entries[k];
        assert(sorted[k] == entry);
        assert(sorted.contains(entry));
        lemma_sort_descending_contains(candidates, by_count(), entry);
        lemma_unshown(tally(tokens(lowercase_of(text))), shown, entry);
        if tokens(lowercase_of(previews[j])).contains(keywords[k]) {
            assert(lowered[j] == lowercase_of(previews[j]));
            lemma_shown_tokens(lowered, j, keywords[k]);
        }
    }
}

/// The tokens of the characters.
pub fn tokenize(text: &[char]) -> (out: Vec<Vec<char>>)
    ensures
        views(out@) == tokens(text@),
{
    let mut done: Vec<Vec<char>> = Vec::new();
    let mut run: Vec<char> = Vec::new();
    let mut i: usize = 0;
    assert(text@.take(0) =~= Seq::empty());
    assert(views(done@) =~= Seq::empty());
    while i < text.len()
        invariant
            i <= text.len(),
            (views(done@), run@) == token_state(text@.take(i as int)),
        decreases text.len() - i,
    {
        assert(text@.take(i + 1).drop_last() =~= text@.take(i as int));
        assert(text@.take(i + 1).last() == text@[i as int]);
        let c = text[i];
        if (c >= 'a' && c <= 'z') || (c >= '0' && c <= '9') {
            run.push(c);
        } else {
            if run.len() >= 3 {
                let ghost before = views(done@);
                let ghost word = run@;
                done.push(run);
                assert(views(done@) =~= before.push(word));
            }
            run = Vec::new();
        }
        i += 1;
    }
    assert(text@.take(text@.len() as int) =~= text@);
    if run.len() >= 3 {
        let ghost before = views(done@);
        let ghost word = run@;
        done.push(run);
        assert(views(done@) =~= before.push(word));
    }
    done
}

/// A token with its count.
struct Entry {
    token: Vec<char>,
    count: usize,
}

impl View for Entry {
    type V = Tally;

    closed spec fn view(&self) -> Tally {
        Tally { token: self.token@, count: self.count as nat }
    }
}

/// The views of a list of entries.
spec fn tallies(entries: Seq<Entry>) -> Seq<Tally> {
    Seq::new(entries.len(), |i: int| entries[i]@)
}

/// An index into a prefix that holds the token is its index in the whole.
proof fn lemma_entry_of_prefix(entries: Seq<Tally>, token: Seq<char>, n: int)
    requires
        0 <= n <= entries.len(),
        entry_of(entries.take(n), token) is Some,
    ensures
        entry_of(entries, token) == entry_of(entries.take(n), token),
    decreases entries.len() - n,
{
    if n == entries.len() {
        assert(entries.take(n) =~= entries);
    } else {
        assert(entries.drop_last().take(n) =~= entries.take(n));
        lemma_entry_of_prefix(entries.drop_last(), token, n);
    }
}

/// The index of the entry of a token is an index of an entry with that token.
pub proof fn lemma_entry_of(entries: Seq<Tally>, token: Seq<char>)
    ensures
        entry_of(entries, token) matches Some(i) ==> 0 <= i < entries.len() && entries[i].token
            == token,
    decreases entries.len(),
{
    if entries.len() > 0 {
        lemma_entry_of(entries.drop_last(), token);
    }
}

/// No token is counted more often than there are tokens.
proof fn lemma_tally_bound(tokens: Seq<Seq<char>>)
    ensures
        forall|k: int|
            0 <= k < tally(tokens).len() ==> (#[trigger] tally(tokens)[k]).count <= tokens.len(),
    decreases tokens.len(),
{
    if tokens.len() > 0 {
        lemma_tally_bound(tokens.drop_last());
        let before = tally(tokens.drop_last());
        lemma_entry_of(before, tokens.last());
        assert forall|k: int| 0 <= k < tally(tokens).len() implies (#[trigger] tally(
            tokens,
        )[k]).count <= tokens.len() by {
            if k < before.len() {
                assert(before[k].count <= tokens.len() - 1);
            }
        }
    }
}

/// The index of the entry of a token.
fn find_entry(entries: &Vec<Entry>, token: &[char]) -> (found: Option<usize>)
    ensures
        match found {
            Some(i) => i < entries.len() && entry_of(tallies(entries@), token@) == Some(i as int),
            None => entry_of(tallies(entries@), token@) is None,
        },
{
    let mut i: usize = 0;
    assert(tallies(entries@).take(0) =~= Seq::empty());
    while i < entries.len()
        invariant
            i <= entries.len(),
            entry_of(tallies(entries@).take(i as int), token@) is None,
        decreases entries.len() - i,
    {
        let ghost prefix = tallies(entries@).take(i + 1);
        assert(prefix.drop_last() =~= tallies(entries@).take(i as int));
        assert(prefix.last() == entries[i as int]@);
        if same_chars(entries[i].token.as_slice(), token) {
            proof {
                lemma_entry_of_prefix(tallies(entries@), token@, i + 1);
            }
            return Some(i);
        }
        i += 1;
    }
    assert(tallies(entries@).take(entries.len() as int) =~= tallies(entries@));
    None
}

/// The distinct tokens in the order of their first occurrence, each with its count.
fn count_tokens(tokens: &Vec<Vec<char>>) -> (entries: Vec<Entry>)
    ensures
        tallies(entries@) == tally(views(tokens@)),
{
    let mut entries: Vec<Entry> = Vec::new();
    let mut i: usize = 0;
    assert(views(tokens@).take(0) =~= Seq::empty());
    assert(tallies(entries@) =~= Seq::empty());
    while i < tokens.len()
        invariant
            i <= tokens.len(),
            tallies(entries@) == tally(views(tokens@).take(i as int)),
        decreases tokens.len() - i,
    {
        let ghost prefix = views(tokens@).take(i + 1);
        let ghost before = tallies(entries@);
        assert(prefix.drop_last() =~= views(tokens@).take(i as int));
        assert(prefix.last() == tokens[i as int]@);
        proof {
            lemma_tally_bound(views(tokens@).take(i as int));
        }
        match find_entry(&entries, tokens[i].as_slice()) {
            Some(at) => {
                assert(before[at as int] == entries[at as int]@);
                let count = entries[at].count + 1;
                entries.set(at, Entry { token: tokens[i].clone(), count });
                assert(tallies(entries@) =~= before.update(
                    at as int,
                    Tally { token: tokens[i as int]@, count: before[at as int].count + 1 },
                ));
            },
            None => {
                entries.push(Entry { token: tokens[i].clone(), count: 1 });
                assert(tallies(entries@) =~= before.push(
                    Tally { token: tokens[i as int]@, count: 1 },
                ));
            },
        }
        i += 1;
    }
    assert(views(tokens@).take(tokens.len() as int) =~= views(tokens@));
    entries
}

/// Whether the list holds the token.
fn is_listed(list: &Vec<Vec<char>>, token: &[char]) -> (found: bool)
    ensures
        found == views(list@).contains(token@),
{
    let mut i: usize = 0;
    while i < list.len()
        invariant
            i <= list.len(),
            forall|k: int| 0 <= k < i ==> views(list@)[k] != token@,
        decreases list.len() - i,
    {
        if same_chars(list[i].as_slice(), token) {
            assert(views(list@)[i as int] == token@);
            return true;
        }
        i += 1;
    }
    false
}

/// The tokens of all the given texts.
fn collect_shown(texts: &Vec<Vec<char>>) -> (shown: Vec<Vec<char>>)
    ensures
        views(shown@) == shown_tokens(views(texts@)),
{
    let mut shown: Vec<Vec<char>> = Vec::new();
    let mut i: usize = 0;
    assert(views(texts@).take(0) =~= Seq::empty());
    assert(views(shown@) =~= Seq::empty());
    while i < texts.len()
        invariant
            i <= texts.len(),
            views(shown@) == shown_tokens(views(texts@).take(i as int)),
        decreases texts.len() - i,
    {
        let ghost prefix = views(texts@).take(i + 1);
        let ghost before = views(shown@);
        assert(prefix.drop_last() =~= views(texts@).take(i as int));
        assert(prefix.last() == texts[i as int]@);
        let mut found = tokenize(texts[i].as_slice());
        let ghost added = views(found@);
        shown.append(&mut found);
        assert(views(shown@) =~= before + added);
        i += 1;
    }
    assert(views(texts@).take(texts.len() as int) =~= views(texts@));
    shown
}

/// The entries that become keywords.
fn rank_entries(entries: &Vec<Entry>, shown: &Vec<Vec<char>>) -> (best: Vec<Entry>)
    ensures
        tallies(best@) == top(
            sort_descending(unshown(tallies(entries@), views(shown@)), by_count()),
        ),
{
    let mut best: Vec<Entry> = Vec::new();
    let mut i: usize = 0;
    assert(tallies(entries@).take(0) =~= Seq::empty());
    assert(tallies(best@) =~= Seq::empty());
    while i < entries.len()
        invariant
            i <= entries.len(),
            tallies(best@) == top(
                sort_descending(
                    unshown(tallies(entries@).take(i as int), views(shown@)),
                    by_count(),
                ),
            ),
        decreases entries.len() - i,
    {
        let ghost prefix = tallies(entries@).take(i + 1);
        let ghost candidates = unshown(tallies(entries@).take(i as int), views(shown@));
        let ghost sorted = sort_descending(candidates, by_count());
        let ghost before = tallies(best@);
        assert(prefix.drop_last() =~= tallies(entries@).take(i as int));
        assert(prefix.last() == entries[i as int]@);
        proof {
            lemma_sort_descending(candidates, by_count());
        }
        if !is_listed(shown, entries[i].token.as_slice()) {
            let ghost entry = entries[i as int]@;
            let ghost next = unshown(prefix, views(shown@));
            assert(next == candidates.push(entry));
            assert(next.drop_last() =~= candidates);
            assert(sort_descending(next, by_count()) == insert_descending(
                sorted,
                entry,
                by_count(),
            ));
            let count = entries[i].count;
            let mut p: usize = best.len();
            while p > 0 && best[p - 1].count < count
                invariant
                    p <= best.len(),
                    tallies(best@) == before,
                    count == entry.count,
                    forall|k: int| p <= k < best.len() ==> before[k].count < entry.count,
                decreases p,
            {
                assert(before[p - 1] == best[p - 1]@);
                p -= 1;
            }
            proof {
                assert(is_descending(before, by_count())) by {
                    assert forall|a: int, b: int| 0 <= a <= b < before.len() implies by_count()(
                        before[a],
                    ) >= by_count()(before[b]) by {
                        assert(before[a] == sorted[a] && before[b] == sorted[b]);
                    }
                }
                if p > 0 {
                    assert(before[p - 1] == best[p - 1]@);
                }
                lemma_insert_at(before, entry, by_count(), p as int);
                if sorted.len() > MAX_KEYWORDS {
                    lemma_insert_take(sorted, entry, by_count(), MAX_KEYWORDS as int);
                }
                lemma_insert_descending(sorted, entry, by_count());
            }
            if p < MAX_KEYWORDS {
                best.insert(p, Entry { token: entries[i].token.clone(), count });
                assert(tallies(best@) =~= before.insert(p as int, entry));
                if best.len() > MAX_KEYWORDS {
                    best.pop();
                    assert(tallies(best@) =~= before.insert(p as int, entry).take(
                        MAX_KEYWORDS as int,
                    ));
                }
            } else {
                assert(before.insert(p as int, entry).take(MAX_KEYWORDS as int) =~= before);
            }
        }
        i += 1;
    }
    assert(tallies(entries@).take(entries.len() as int) =~= tallies(entries@));
    best
}

/// The keywords of a text, given in lowercase, beside the texts of its
/// previews, given in lowercase.
pub fn keywords_from_lowercase(lowered_text: &[char], lowered_previews: &Vec<Vec<char>>) -> (out:
    Vec<String>)
    ensures
        out.deep_view() == keywords_of_lowercase(lowered_text@, views(lowered_previews@)),
{
    let found = tokenize(lowered_text);
    let entries = count_tokens(&found);
    let shown = collect_shown(lowered_previews);
    let best = rank_entries(&entries, &shown);
    let mut out: Vec<String> = Vec::new();
    let mut i: usize = 0;
    while i < best.len()
        invariant
            i <= best.len(),
            out.len() == i,
            forall|k: int| 0 <= k < i ==> out[k]@ == tallies(best@)[k].token,
        decreases best.len() - i,
    {
        assert(tallies(best@)[i as int] == best[i as int]@);
        out.push(from_chars(best[i].token.as_slice()));
        i += 1;
    }
    assert(out.deep_view() =~= keywords_of_lowercase(lowered_text@, views(lowered_previews@)));
    out
}

/// The keywords of a text beside its previews: the tokens of the lowercase
/// text that no preview shows, the most frequent first, at most 40.
pub fn derive_keywords(text: &str, slides: &Vec<SlidePreview>) -> (out: Vec<String>)
    ensures
        out.deep_view() == keywords_of(text@, preview_texts(slides.deep_view())),
        out.len() <= MAX_KEYWORDS,
        keywords_disjoint(out.deep_view(), preview_texts(slides.deep_view())),
{
    let lowered_text = to_chars(text.to_lowercase().as_str());
    let mut lowered_previews: Vec<Vec<char>> = Vec::new();
    let mut i: usize = 0;
    while i < slides.len()
        invariant
            i <= slides.len(),
            lowered_previews.len() == i,
            forall|k: int|
                0 <= k < i ==> lowered_previews[k]@ == lowercase_of(slides[k].text@),
        decreases slides.len() - i,
    {
        lowered_previews.push(to_chars(slides[i].text.as_str().to_lowercase().as_str()));
        i += 1;
    }
    assert(views(lowered_previews@) =~= all_lowercase(preview_texts(slides.deep_view())));
    proof {
        lemma_keywords_disjoint(text@, preview_texts(slides.deep_view()));
    }
    keywords_from_lowercase(lowered_text.as_slice(), &lowered_previews)
}

} // verus!
