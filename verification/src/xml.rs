//! Text from the XML of a slide: the runs of text it holds, with the
//! entities and character references in them decoded.

use vstd::prelude::*;
use vstd::slice::slice_subrange;
use crate::chars::{
    chars_at, find_chars, first_text, from_chars, is_scalar_value, lemma_first_text, push_all,
    text_at, to_chars, trim_chars, trimmed,
};
use crate::pdf::hex_value;
use crate::text::{
    if_text, is_ascii_digit, join_words, joined, next_close, views,
};

verus! {

/// The text from `at` on with every occurrence of `pattern` replaced, the
/// occurrences taken from left to right and none overlapping another.
pub open spec fn replaced_from(
    s: Seq<char>,
    pattern: Seq<char>,
    replacement: Seq<char>,
    at: int,
) -> Seq<char>
    decreases s.len() - at,
{
    if at < 0 || at >= s.len() {
        Seq::empty()
    } else if pattern.len() > 0 && text_at(s, pattern, at) {
        replacement + replaced_from(s, pattern, replacement, at + pattern.len())
    } else {
        seq![s[at]] + replaced_from(s, pattern, replacement, at + 1)
    }
}

/// The text with every occurrence of `pattern` replaced.
pub open spec fn replaced(s: Seq<char>, pattern: Seq<char>, replacement: Seq<char>) -> Seq<char> {
    replaced_from(s, pattern, replacement, 0)
}

/// The characters with every occurrence of `pattern` replaced.
pub fn replace_chars(text: &[char], pattern: &str, replacement: &str) -> (out: Vec<char>)
    ensures
        out@ == replaced(text@, pattern@, replacement@),
{
    let wanted = to_chars(pattern);
    let put = to_chars(replacement);
    let mut out: Vec<char> = Vec::new();
    let mut at: usize = 0;
    while at < text.len()
        invariant
            at <= text.len(),
            wanted@ == pattern@,
            put@ == replacement@,
            out@ + replaced_from(text@, pattern@, replacement@, at as int) == replaced(
                text@,
                pattern@,
                replacement@,
            ),
        decreases text.len() - at,
    {
        let ghost before = out@;
        if wanted.len() > 0 && chars_at(text, wanted.as_slice(), at) {
            push_all(&mut out, put.as_slice());
            assert(out@ + replaced_from(text@, pattern@, replacement@, at + wanted.len())
                =~= before + (replacement@ + replaced_from(
                text@,
                pattern@,
                replacement@,
                at + wanted.len(),
            )));
            at = at + wanted.len();
        } else {
            out.push(text[at]);
            assert(out@ + replaced_from(text@, pattern@, replacement@, at + 1) =~= before + (
            seq![text@[at as int]] + replaced_from(text@, pattern@, replacement@, at + 1)));
            at += 1;
        }
    }
    assert(replaced_from(text@, pattern@, replacement@, text@.len() as int) =~= Seq::empty());
    assert(out@ + Seq::<char>::empty() =~= out@);
    out
}

/// The text with the five named entities decoded, one after the other:
/// `&lt;`, `&gt;`, `&amp;`, `&quot;`, `&apos;`.
pub open spec fn named_decoded(s: Seq<char>) -> Seq<char> {
    replaced(
        replaced(
            replaced(replaced(replaced(s, "&lt;"@, "<"@), "&gt;"@, ">"@), "&amp;"@, "&"@),
            "&quot;"@,
            "\""@,
        ),
        "&apos;"@,
        "'"@,
    )
}

/// Whether the character is a digit in the given radix, 10 or 16.
pub open spec fn is_digit_in(c: char, hex: bool) -> bool {
    if hex {
        hex_value(c) is Some
    } else {
        is_ascii_digit(c)
    }
}

/// The first index at or behind `at` whose character is not a digit.
pub open spec fn digits_end(s: Seq<char>, at: int, hex: bool) -> int
    decreases s.len() - at,
{
    if at < 0 || at >= s.len() || !is_digit_in(s[at], hex) {
        at
    } else {
        digits_end(s, at + 1, hex)
    }
}

/// The number that digits write in the given radix.
pub open spec fn digits_value(digits: Seq<char>, hex: bool) -> int
    decreases digits.len(),
{
    if digits.len() == 0 {
        0
    } else {
        digits_value(digits.drop_last(), hex) * (if hex {
            16int
        } else {
            10int
        }) + (match hex_value(digits.last()) {
            Some(v) => v,
            None => 0,
        })
    }
}

/// The character with the given code, or nothing where the code is not
/// that of a character.
pub open spec fn reference_text(code: int) -> Seq<char> {
    if 0 <= code && code <= 0x10FFFF && is_scalar_value(code as u32) {
        seq![code as char]
    } else {
        Seq::empty()
    }
}

/// The number of characters that open a character reference: `&#`, or `&#x`.
pub open spec fn reference_lead(hex: bool) -> int {
    if hex {
        3
    } else {
        2
    }
}

/// Whether a character reference of the given radix begins at `at`: `&#`
/// (and `x` for radix 16), one or more digits, and a semicolon.
pub open spec fn reference_at(s: Seq<char>, at: int, hex: bool) -> bool {
    let lead = reference_lead(hex);
    let end = digits_end(s, at + lead, hex);
    &&& 0 <= at
    &&& at + lead < s.len()
    &&& s[at] == '&'
    &&& s[at + 1] == '#'
    &&& hex ==> s[at + 2] == 'x'
    &&& at + lead < end
    &&& end < s.len()
    &&& s[end] == ';'
}

/// The text from `at` on with the character references of the given radix
/// decoded. A reference whose number is not the code of a character
/// stands for nothing.
pub open spec fn references_decoded_from(s: Seq<char>, at: int, hex: bool) -> Seq<char>
    decreases s.len() - at,
{
    if at < 0 || at >= s.len() {
        Seq::empty()
    } else if reference_at(s, at, hex) {
        let lead = reference_lead(hex);
        let end = digits_end(s, at + lead, hex);
        reference_text(digits_value(s.subrange(at + lead, end), hex)) + references_decoded_from(
            s,
            end + 1,
            hex,
        )
    } else {
        seq![s[at]] + references_decoded_from(s, at + 1, hex)
    }
}

/// The text with the entities and the character references decoded: the
/// named entities first, then the decimal references, then those in
/// hexadecimal.
pub open spec fn xml_decoded(s: Seq<char>) -> Seq<char> {
    references_decoded_from(references_decoded_from(named_decoded(s), 0, false), 0, true)
}

/// The value of a digit in the given radix.
fn digit_in(c: char, hex: bool) -> (value: Option<u32>)
    ensures
        match value {
            Some(v) => is_digit_in(c, hex) && hex_value(c) == Some(v as int) && v < 16,
            None => !is_digit_in(c, hex),
        },
{
    if c >= '0' && c <= '9' {
        Some(c as u32 - 0x30)
    } else if hex && c >= 'a' && c <= 'f' {
        Some(c as u32 - 0x61 + 10)
    } else if hex && c >= 'A' && c <= 'F' {
        Some(c as u32 - 0x41 + 10)
    } else {
        None
    }
}

/// A number grows with every digit that is written behind it.
proof fn lemma_digits_value_grows(digits: Seq<char>, hex: bool)
    requires
        digits.len() > 0,
    ensures
        digits_value(digits, hex) >= digits_value(digits.drop_last(), hex) >= 0,
    decreases digits.len(),
{
    if digits.len() > 1 {
        lemma_digits_value_grows(digits.drop_last(), hex);
    }
    let front = digits_value(digits.drop_last(), hex);
    if hex {
        assert(front * 16 >= front) by (nonlinear_arith)
            requires
                front >= 0,
        ;
    } else {
        assert(front * 10 >= front) by (nonlinear_arith)
            requires
                front >= 0,
        ;
    }
}

/// The characters with the character references of the given radix decoded.
fn decode_references(text: &[char], hex: bool) -> (out: Vec<char>)
    ensures
        out@ == references_decoded_from(text@, 0, hex),
{
    let lead: usize = if hex {
        3
    } else {
        2
    };
    let mut out: Vec<char> = Vec::new();
    let mut at: usize = 0;
    while at < text.len()
        invariant
            at <= text.len(),
            lead == reference_lead(hex),
            out@ + references_decoded_from(text@, at as int, hex) == references_decoded_from(
                text@,
                0,
                hex,
            ),
        decreases text.len() - at,
    {
        let ghost before = out@;
        let mut decoded = false;
        if text[at] == '&' && text.len() - at > lead && text[at + 1] == '#' && (!hex || text[at
            + 2] == 'x') {
            let first = at + lead;
            let mut end: usize = first;
            let mut code: u32 = 0;
            let mut too_big = false;
            assert(text@.subrange(first as int, first as int) =~= Seq::empty());
            while end < text.len() && digit_in(text[end], hex).is_some()
                invariant
                    first <= end <= text.len(),
                    digits_end(text@, first as int, hex) == digits_end(text@, end as int, hex),
                    code <= 0x10FFFF,
                    !too_big ==> code == digits_value(
                        text@.subrange(first as int, end as int),
                        hex,
                    ),
                    too_big ==> digits_value(text@.subrange(first as int, end as int), hex)
                        > 0x10FFFF,
                decreases text.len() - end,
            {
                let digit = digit_in(text[end], hex).unwrap();
                let ghost grown = text@.subrange(first as int, end + 1);
                assert(grown.drop_last() =~= text@.subrange(first as int, end as int));
                assert(grown.last() == text@[end as int]);
                proof {
                    lemma_digits_value_grows(grown, hex);
                }
                if !too_big {
                    let radix: u32 = if hex {
                        16
                    } else {
                        10
                    };
                    let next = code * radix + digit;
                    if next > 0x10FFFF {
                        too_big = true;
                    } else {
                        code = next;
                    }
                }
                end += 1;
            }
            if end > first && end < text.len() && text[end] == ';' {
                assert(reference_at(text@, at as int, hex));
                if !too_big {
                    match char::from_u32(code) {
                        Some(c) => {
                            out.push(c);
                        },
                        None => {},
                    }
                }
                assert(out@ =~= before + reference_text(
                    digits_value(text@.subrange(first as int, end as int), hex),
                ));
                assert(out@ + references_decoded_from(text@, end + 1, hex) =~= before + (
                reference_text(digits_value(text@.subrange(first as int, end as int), hex))
                    + references_decoded_from(text@, end + 1, hex)));
                at = end + 1;
                decoded = true;
            } else {
                assert(!reference_at(text@, at as int, hex));
            }
        } else {
            assert(!reference_at(text@, at as int, hex));
        }
        if !decoded {
            out.push(text[at]);
            assert(out@ + references_decoded_from(text@, at + 1, hex) =~= before + (
            seq![text@[at as int]] + references_decoded_from(text@, at + 1, hex)));
            at += 1;
        }
    }
    assert(references_decoded_from(text@, text@.len() as int, hex) =~= Seq::empty());
    assert(out@ + Seq::<char>::empty() =~= out@);
    out
}

/// The characters with the entities and the character references decoded.
pub fn decode_xml_chars(text: &[char]) -> (out: Vec<char>)
    ensures
        out@ == xml_decoded(text@),
{
    let a = replace_chars(text, "&lt;", "<");
    let b = replace_chars(a.as_slice(), "&gt;", ">");
    let c = replace_chars(b.as_slice(), "&amp;", "&");
    let d = replace_chars(c.as_slice(), "&quot;", "\"");
    let e = replace_chars(d.as_slice(), "&apos;", "'");
    let f = decode_references(e.as_slice(), false);
    decode_references(f.as_slice(), true)
}

/// Decodes the five named entities and the decimal and hexadecimal
/// character references of a text.
pub fn decode_xml(input: &str) -> (out: String)
    ensures
        out@ == xml_decoded(input@),
{
    let chars = to_chars(input);
    let decoded = decode_xml_chars(chars.as_slice());
    from_chars(decoded.as_slice())
}

/// The characters that open the tag of a text run: `<a:t`.
pub open spec fn run_open() -> Seq<char> {
    seq!['<', 'a', ':', 't']
}

/// The tag that closes a text run: `</a:t>`.
pub open spec fn run_close() -> Seq<char> {
    seq!['<', '/', 'a', ':', 't', '>']
}

/// The text runs from `at` on that are not blank, each decoded and
/// trimmed. A run begins behind the first `>` after `<a:t` and ends
/// before the next `</a:t>`; the search goes on behind that tag.
pub open spec fn runs_from(s: Seq<char>, at: int) -> Seq<Seq<char>>
    decreases s.len() - at,
{
    match first_text(s, run_open(), at) {
        None => Seq::empty(),
        Some(open) => {
            let start = next_close(s, open + 4) + 1;
            if start > s.len() {
                Seq::empty()
            } else {
                match first_text(s, run_close(), start) {
                    None => Seq::empty(),
                    Some(end) => if 0 <= at && at < end + 6 && start <= end && end + 6 <= s.len() {
                        if_text(trimmed(xml_decoded(s.subrange(start, end)))) + runs_from(
                            s,
                            end + 6,
                        )
                    } else {
                        Seq::empty()
                    },
                }
            }
        },
    }
}

/// The text of a slide: its text runs with one space between each two.
pub open spec fn text_runs(xml: Seq<char>) -> Seq<char> {
    joined(runs_from(xml, 0))
}

/// The text of a slide, from the characters of its XML.
pub fn extract_run_chars(xml: &[char]) -> (out: Vec<char>)
    ensures
        out@ == text_runs(xml@),
{
    let open_key: Vec<char> = vec!['<', 'a', ':', 't'];
    let close_key: Vec<char> = vec!['<', '/', 'a', ':', 't', '>'];
    assert(open_key@ =~= run_open());
    assert(close_key@ =~= run_close());
    let mut segments: Vec<Vec<char>> = Vec::new();
    let mut cursor: usize = 0;
    let mut done = false;
    assert(views(segments@) =~= Seq::empty());
    while !done
        invariant
            cursor <= xml.len(),
            open_key@ == run_open(),
            close_key@ == run_close(),
            !done ==> views(segments@) + runs_from(xml@, cursor as int) == runs_from(xml@, 0),
            done ==> views(segments@) == runs_from(xml@, 0),
        decreases xml.len() - cursor, if done { 0int } else { 1int },
    {
        let ghost before = views(segments@);
        proof {
            lemma_first_text(xml@, run_open(), cursor as int);
        }
        match find_chars(xml, open_key.as_slice(), cursor) {
            None => {
                assert(before + Seq::<Seq<char>>::empty() =~= before);
                done = true;
            },
            Some(open) => {
                let mut gt: usize = open + 4;
                while gt < xml.len() && xml[gt] != '>'
                    invariant
                        open + 4 <= gt <= xml.len(),
                        next_close(xml@, open + 4) == next_close(xml@, gt as int),
                    decreases xml.len() - gt,
                {
                    gt += 1;
                }
                if gt >= xml.len() {
                    assert(before + Seq::<Seq<char>>::empty() =~= before);
                    done = true;
                } else {
                    let start = gt + 1;
                    proof {
                        lemma_first_text(xml@, run_close(), start as int);
                    }
                    match find_chars(xml, close_key.as_slice(), start) {
                        None => {
                            assert(before + Seq::<Seq<char>>::empty() =~= before);
                            done = true;
                        },
                        Some(end) => {
                            let body = slice_subrange(xml, start, end);
                            let decoded = decode_xml_chars(body);
                            let kept = trim_chars(decoded.as_slice());
                            let ghost run = trimmed(
                                xml_decoded(xml@.subrange(start as int, end as int)),
                            );
                            if kept.len() > 0 {
                                segments.push(kept);
                                assert(views(segments@) =~= before + if_text(run));
                            }
                            assert(views(segments@) + runs_from(xml@, end + 6) =~= before + (
                            if_text(run) + runs_from(xml@, end + 6)));
                            cursor = end + 6;
                        },
                    }
                }
            },
        }
    }
    join_words(&segments)
}

/// The text of a slide: every text run of its XML, decoded and trimmed,
/// the blank ones left out, with one space between each two.
pub fn extract_text_runs(xml: &str) -> (out: String)
    ensures
        out@ == text_runs(xml@),
{
    let chars = to_chars(xml);
    let text = extract_run_chars(chars.as_slice());
    from_chars(text.as_slice())
}

} // verus!
