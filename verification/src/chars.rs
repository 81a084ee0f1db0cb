//! Text as sequences of characters: conversions between strings and
//! character vectors, and the character classes the index relies on.

use vstd::prelude::*;
use vstd::utf8::{decode_utf8, valid_utf8};

verus! {

/// `String::push` of the standard library: the character is appended.
pub assume_specification[ String::push ](s: &mut String, c: char)
    ensures
        final(s)@ == old(s)@.push(c),
;

/// Whether a character has the Unicode property White_Space, as the
/// standard library's `char::is_whitespace` tells it.
pub uninterp spec fn is_space(c: char) -> bool;

/// `char::is_whitespace` of the standard library: the result is the
/// character's White_Space property, which this crate calls `is_space`.
pub assume_specification[ char::is_whitespace ](c: char) -> (b: bool)
    ensures
        b == is_space(c),
;

/// Whether a character is a control code (general category Cc), as the
/// standard library's `char::is_control` tells it.
pub uninterp spec fn is_control_code(c: char) -> bool;

/// `char::is_control` of the standard library: the result is whether the
/// character is a control code, which this crate calls `is_control_code`.
pub assume_specification[ char::is_control ](c: char) -> (b: bool)
    ensures
        b == is_control_code(c),
;

/// The lowercase form of a text under Unicode's rules, as the standard
/// library's `str::to_lowercase` computes it.
pub uninterp spec fn lowercase_of(s: Seq<char>) -> Seq<char>;

/// `str::to_lowercase` of the standard library: the result is the
/// lowercase form of the text, which this crate calls `lowercase_of`.
pub assume_specification[ str::to_lowercase ](s: &str) -> (out: String)
    ensures
        out@ == lowercase_of(s@),
;

/// Whether a number is a Unicode scalar value: a code point that is not a surrogate.
pub open spec fn is_scalar_value(n: u32) -> bool {
    n <= 0xD7FF || (0xE000 <= n && n <= 0x10FFFF)
}

/// `char::from_u32` of the standard library: the character with the given
/// code, for a Unicode scalar value, and nothing otherwise.
pub assume_specification[ char::from_u32 ](n: u32) -> (out: Option<char>)
    ensures
        is_scalar_value(n) ==> out == Some(n as char),
        !is_scalar_value(n) ==> out is None,
;

/// The text that bytes stand for when every sequence that is not valid
/// UTF-8 is read as the replacement character, as the standard library's
/// `String::from_utf8_lossy` reads them.
pub uninterp spec fn lossy_text(bytes: Seq<u8>) -> Seq<char>;

/// Calls `String::from_utf8_lossy` of the standard library: the result is
/// the lossy reading of the bytes, which this crate calls `lossy_text`.
#[verifier::external_body]
pub(crate) fn decode_lossy(bytes: &[u8]) -> (out: String)
    ensures
        out@ == lossy_text(bytes@),
{
    String::from_utf8_lossy(bytes).into_owned()
}

/// Calls `String::from_utf8` of the standard library: bytes that are valid
/// UTF-8 give the text they encode, other bytes give nothing.
#[verifier::external_body]
pub(crate) fn decode_utf8_strict(bytes: &[u8]) -> (out: Option<String>)
    ensures
        out.deep_view() == if valid_utf8(bytes@) {
            Some(decode_utf8(bytes@))
        } else {
            None
        },
{
    String::from_utf8(bytes.to_vec()).ok()
}

/// The text that 16-bit units encode in UTF-16, where they encode one, as
/// the standard library's `String::from_utf16` decodes them.
pub uninterp spec fn utf16_text(units: Seq<u16>) -> Option<Seq<char>>;

/// Calls `String::from_utf16` of the standard library: the result is the
/// text the units encode, or nothing where they hold an unpaired surrogate;
/// this crate calls that `utf16_text`.
#[verifier::external_body]
pub(crate) fn decode_utf16(units: &[u16]) -> (out: Option<String>)
    ensures
        out.deep_view() == utf16_text(units@),
{
    String::from_utf16(units).ok()
}

/// The characters of a string, in order.
pub fn to_chars(s: &str) -> (out: Vec<char>)
    ensures
        out@ == s@,
{
    let mut out: Vec<char> = Vec::new();
    for c in it: s.chars()
        invariant
            out@ == it.seq().take(it.index() as int),
            it.seq() == s@,
    {
        out.push(c);
    }
    out
}

/// The string made of the given characters.
pub fn from_chars(v: &[char]) -> (out: String)
    ensures
        out@ == v@,
{
    let mut out = String::new();
    let mut i: usize = 0;
    while i < v.len()
        invariant
            i <= v.len(),
            out@ == v@.take(i as int),
        decreases v.len() - i,
    {
        out.push(v[i]);
        i += 1;
    }
    out
}

/// Appends the characters of `tail` to `buf`.
pub fn push_all(buf: &mut Vec<char>, tail: &[char])
    ensures
        final(buf)@ == old(buf)@ + tail@,
{
    let mut i: usize = 0;
    while i < tail.len()
        invariant
            i <= tail.len(),
            buf@ == old(buf)@ + tail@.take(i as int),
        decreases tail.len() - i,
    {
        buf.push(tail[i]);
        i += 1;
    }
    assert(tail@.take(tail@.len() as int) =~= tail@);
}

/// Appends the characters of the string `tail` to `buf`.
pub fn push_str(buf: &mut Vec<char>, tail: &str)
    ensures
        final(buf)@ == old(buf)@ + tail@,
{
    let chars = to_chars(tail);
    push_all(buf, chars.as_slice());
}

/// Whether two character sequences are the same.
pub fn same_chars(a: &[char], b: &[char]) -> (same: bool)
    ensures
        same == (a@ == b@),
{
    if a.len() != b.len() {
        return false;
    }
    let mut i: usize = 0;
    while i < a.len()
        invariant
            i <= a.len(),
            a.len() == b.len(),
            a@.take(i as int) == b@.take(i as int),
        decreases a.len() - i,
    {
        if a[i] != b[i] {
            return false;
        }
        assert(a@.take(i + 1) =~= a@.take(i as int).push(a@[i as int]));
        assert(b@.take(i + 1) =~= b@.take(i as int).push(b@[i as int]));
        i += 1;
    }
    assert(a@.take(a@.len() as int) =~= a@);
    assert(b@.take(b@.len() as int) =~= b@);
    true
}

/// `s` without the whitespace at its start.
pub open spec fn trim_start(s: Seq<char>) -> Seq<char>
    decreases s.len(),
{
    if s.len() > 0 && is_space(s[0]) {
        trim_start(s.drop_first())
    } else {
        s
    }
}

/// `s` without the whitespace at its end.
pub open spec fn trim_end(s: Seq<char>) -> Seq<char>
    decreases s.len(),
{
    if s.len() > 0 && is_space(s.last()) {
        trim_end(s.drop_last())
    } else {
        s
    }
}

/// `s` without the whitespace at its two ends.
pub open spec fn trimmed(s: Seq<char>) -> Seq<char> {
    trim_end(trim_start(s))
}

/// `trim_start` drops the first `i` characters if they are all whitespace
/// and the next one is not.
pub proof fn lemma_trim_start(s: Seq<char>, i: int)
    requires
        0 <= i <= s.len(),
        forall|k: int| 0 <= k < i ==> is_space(s[k]),
        i < s.len() ==> !is_space(s[i]),
    ensures
        trim_start(s) == s.skip(i),
    decreases i,
{
    if i == 0 {
        assert(s.skip(0) =~= s);
    } else {
        let rest = s.drop_first();
        assert forall|k: int| 0 <= k < i - 1 implies is_space(rest[k]) by {
            assert(rest[k] == s[k + 1]);
        }
        lemma_trim_start(rest, i - 1);
        assert(rest.skip(i - 1) =~= s.skip(i));
    }
}

/// `trim_end` keeps the first `j` characters if all behind them are
/// whitespace and the one before is not.
pub proof fn lemma_trim_end(s: Seq<char>, j: int)
    requires
        0 <= j <= s.len(),
        forall|k: int| j <= k < s.len() ==> is_space(s[k]),
        j > 0 ==> !is_space(s[j - 1]),
    ensures
        trim_end(s) == s.take(j),
    decreases s.len() - j,
{
    if j == s.len() {
        assert(s.take(j) =~= s);
    } else {
        let front = s.drop_last();
        lemma_trim_end(front, j);
        assert(front.take(j) =~= s.take(j));
    }
}

/// The characters of `v` without the whitespace at the two ends.
pub fn trim_chars(v: &[char]) -> (out: Vec<char>)
    ensures
        out@ == trimmed(v@),
{
    let mut start: usize = 0;
    while start < v.len() && v[start].is_whitespace()
        invariant
            start <= v.len(),
            forall|k: int| 0 <= k < start ==> is_space(v@[k]),
        decreases v.len() - start,
    {
        start += 1;
    }
    let mut end: usize = v.len();
    while end > start && v[end - 1].is_whitespace()
        invariant
            start <= end <= v.len(),
            forall|k: int| end <= k < v.len() ==> is_space(v@[k]),
        decreases end,
    {
        end -= 1;
    }
    let mut out: Vec<char> = Vec::new();
    let mut i: usize = start;
    while i < end
        invariant
            start <= i <= end <= v.len(),
            out@ == v@.subrange(start as int, i as int),
        decreases end - i,
    {
        out.push(v[i]);
        assert(v@.subrange(start as int, i + 1) =~= v@.subrange(start as int, i as int).push(
            v@[i as int],
        ));
        i += 1;
    }
    proof {
        lemma_trim_start(v@, start as int);
        let rest = v@.skip(start as int);
        assert forall|k: int| end - start <= k < rest.len() implies is_space(rest[k]) by {
            assert(rest[k] == v@[k + start]);
        }
        if end > start {
            assert(rest[end - start - 1] == v@[end - 1]);
        }
        lemma_trim_end(rest, end - start);
        assert(rest.take(end - start) =~= v@.subrange(start as int, end as int));
    }
    out
}

/// The string without the whitespace at its two ends.
pub fn trim(s: &str) -> (out: String)
    ensures
        out@ == trimmed(s@),
{
    let chars = to_chars(s);
    let kept = trim_chars(chars.as_slice());
    from_chars(kept.as_slice())
}

/// Whether the text `needle` stands in `hay` at the index `at`.
pub open spec fn text_at(hay: Seq<char>, needle: Seq<char>, at: int) -> bool {
    0 <= at && at + needle.len() <= hay.len() && hay.subrange(at, at + needle.len()) == needle
}

/// The first index at or behind `from` at which `needle` stands in `hay`.
pub open spec fn first_text(hay: Seq<char>, needle: Seq<char>, from: int) -> Option<int>
    decreases hay.len() + 1 - from,
{
    if from < 0 || from + needle.len() > hay.len() {
        None
    } else if text_at(hay, needle, from) {
        Some(from)
    } else {
        first_text(hay, needle, from + 1)
    }
}

/// Whether `needle` stands somewhere in `hay`.
pub open spec fn contains_text(hay: Seq<char>, needle: Seq<char>) -> bool {
    exists|at: int| text_at(hay, needle, at)
}

/// The first occurrence stands where it is said to, and none stands before it.
pub proof fn lemma_first_text(hay: Seq<char>, needle: Seq<char>, from: int)
    requires
        0 <= from,
    ensures
        match first_text(hay, needle, from) {
            Some(at) => from <= at && text_at(hay, needle, at) && forall|k: int|
                from <= k < at ==> !text_at(hay, needle, k),
            None => forall|k: int| from <= k ==> !text_at(hay, needle, k),
        },
    decreases hay.len() + 1 - from,
{
    if from + needle.len() > hay.len() {
    } else if text_at(hay, needle, from) {
    } else {
        lemma_first_text(hay, needle, from + 1);
    }
}

/// Whether the characters `needle` stand in `hay` at the index `at`.
pub fn chars_at(hay: &[char], needle: &[char], at: usize) -> (found: bool)
    ensures
        found == text_at(hay@, needle@, at as int),
{
    if at > hay.len() || needle.len() > hay.len() - at {
        return false;
    }
    let mut k: usize = 0;
    while k < needle.len()
        invariant
            k <= needle.len(),
            at + needle.len() <= hay.len(),
            forall|j: int| 0 <= j < k ==> hay@[at + j] == needle@[j],
        decreases needle.len() - k,
    {
        if hay[at + k] != needle[k] {
            assert(hay@.subrange(at as int, at + needle@.len())[k as int] == hay@[at + k]);
            return false;
        }
        k += 1;
    }
    assert(hay@.subrange(at as int, at + needle@.len()) =~= needle@);
    true
}

/// The first index at or behind `from` at which `needle` stands in `hay`.
pub fn find_chars(hay: &[char], needle: &[char], from: usize) -> (found: Option<usize>)
    ensures
        match found {
            Some(at) => first_text(hay@, needle@, from as int) == Some(at as int),
            None => first_text(hay@, needle@, from as int) is None,
        },
{
    if needle.len() > hay.len() {
        return None;
    }
    let last = hay.len() - needle.len();
    if from > last {
        return None;
    }
    let mut at: usize = from;
    while at < last
        invariant
            from <= at <= last,
            last == hay.len() - needle.len(),
            needle.len() <= hay.len(),
            first_text(hay@, needle@, from as int) == first_text(hay@, needle@, at as int),
        decreases last - at,
    {
        if chars_at(hay, needle, at) {
            return Some(at);
        }
        at += 1;
    }
    if chars_at(hay, needle, at) {
        return Some(at);
    }
    assert(first_text(hay@, needle@, at + 1) is None);
    None
}

/// Whether `needle` stands somewhere in `hay`.
pub fn has_text(hay: &[char], needle: &[char]) -> (found: bool)
    ensures
        found == contains_text(hay@, needle@),
{
    proof {
        lemma_first_text(hay@, needle@, 0);
    }
    find_chars(hay, needle, 0).is_some()
}

/// Whether the text begins with the prefix.
pub open spec fn starts_with(text: Seq<char>, prefix: Seq<char>) -> bool {
    text.len() >= prefix.len() && text.take(prefix.len() as int) == prefix
}

/// Whether the text ends with the suffix.
pub open spec fn ends_with(text: Seq<char>, suffix: Seq<char>) -> bool {
    text.len() >= suffix.len() && text.skip(text.len() - suffix.len()) == suffix
}

/// Whether the characters begin with the prefix.
pub fn has_prefix(text: &[char], prefix: &[char]) -> (begins: bool)
    ensures
        begins == starts_with(text@, prefix@),
{
    if text.len() < prefix.len() {
        return false;
    }
    let mut k: usize = 0;
    while k < prefix.len()
        invariant
            k <= prefix.len() <= text.len(),
            forall|j: int| 0 <= j < k ==> text@[j] == prefix@[j],
        decreases prefix.len() - k,
    {
        if text[k] != prefix[k] {
            assert(text@.take(prefix@.len() as int)[k as int] == text@[k as int]);
            return false;
        }
        k += 1;
    }
    assert(text@.take(prefix@.len() as int) =~= prefix@);
    true
}

/// Whether the characters end with the suffix.
pub fn has_suffix(text: &[char], suffix: &[char]) -> (ends: bool)
    ensures
        ends == ends_with(text@, suffix@),
{
    if text.len() < suffix.len() {
        return false;
    }
    let offset = text.len() - suffix.len();
    let mut k: usize = 0;
    while k < suffix.len()
        invariant
            k <= suffix.len(),
            offset + suffix.len() == text.len(),
            forall|j: int| 0 <= j < k ==> text@[offset + j] == suffix@[j],
        decreases suffix.len() - k,
    {
        if text[offset + k] != suffix[k] {
            assert(text@.skip(offset as int)[k as int] == text@[offset + k]);
            return false;
        }
        k += 1;
    }
    assert(text@.skip(offset as int) =~= suffix@);
    true
}

} // verus!
