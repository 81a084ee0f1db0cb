//! Text from the bytes of a PDF file, without rendering it: the stream
//! regions of the file, inflated where the file says so, and the literal
//! and hexadecimal strings within them.

use std::io::{Cursor, Read};
use flate2::read::ZlibDecoder;
use vstd::prelude::*;
use vstd::slice::slice_subrange;
use vstd::utf8::{decode_utf8, valid_utf8};
use crate::chars::{
    decode_lossy, decode_utf16, decode_utf8_strict, from_chars, is_space, lossy_text,
    to_chars, utf16_text,
};
use crate::text::{if_text, joined, join_words, views};

verus! {

/// Whether `needle` stands in `hay` at the index `at`.
pub open spec fn occurs_at(hay: Seq<u8>, needle: Seq<u8>, at: int) -> bool {
    0 <= at && at + needle.len() <= hay.len() && hay.subrange(at, at + needle.len()) == needle
}

/// The first index at or behind `from` at which `needle` stands in `hay`.
pub open spec fn first_occurrence(hay: Seq<u8>, needle: Seq<u8>, from: int) -> Option<int>
    decreases hay.len() + 1 - from,
{
    if from < 0 || from + needle.len() > hay.len() {
        None
    } else if occurs_at(hay, needle, from) {
        Some(from)
    } else {
        first_occurrence(hay, needle, from + 1)
    }
}

/// The first occurrence stands where it is said to, and none stands before it.
pub proof fn lemma_first_occurrence(hay: Seq<u8>, needle: Seq<u8>, from: int)
    requires
        0 <= from,
    ensures
        match first_occurrence(hay, needle, from) {
            Some(at) => from <= at && occurs_at(hay, needle, at) && forall|k: int|
                from <= k < at ==> !occurs_at(hay, needle, k),
            None => forall|k: int| from <= k ==> !occurs_at(hay, needle, k),
        },
    decreases hay.len() + 1 - from,
{
    if from + needle.len() > hay.len() {
    } else if occurs_at(hay, needle, from) {
    } else {
        lemma_first_occurrence(hay, needle, from + 1);
    }
}

/// Whether `needle` stands in `hay` at the index `at`.
fn matches_at(hay: &[u8], needle: &[u8], at: usize) -> (found: bool)
    requires
        at + needle.len() <= hay.len(),
    ensures
        found == occurs_at(hay@, needle@, at as int),
{
    let mut k: usize = 0;
    while k < needle.len()
        invariant
            k <= needle.len(),
            at + needle.len() <= hay.len(),
            forall|j: int| 0 <= j < k ==> hay@[at + j] == needle@[j],
        decreases needle.len() - k,
    {
        if hay[at + k] != needle[k] {
            assert(hay@.subrange(at as int, at + needle@.len())[k as int] == hay@[at + k]);
            return false;
        }
        k += 1;
    }
    assert(hay@.subrange(at as int, at + needle@.len()) =~= needle@);
    true
}

/// The first index at or behind `from` at which `needle` stands in `hay`.
pub fn find_from(hay: &[u8], needle: &[u8], from: usize) -> (found: Option<usize>)
    ensures
        match found {
            Some(at) => first_occurrence(hay@, needle@, from as int) == Some(at as int),
            None => first_occurrence(hay@, needle@, from as int) is None,
        },
{
    if needle.len() > hay.len() {
        return None;
    }
    let last = hay.len() - needle.len();
    if from > last {
        return None;
    }
    let mut at: usize = from;
    while at < last
        invariant
            from <= at <= last,
            last == hay.len() - needle.len(),
            needle.len() <= hay.len(),
            first_occurrence(hay@, needle@, from as int) == first_occurrence(
                hay@,
                needle@,
                at as int,
            ),
        decreases last - at,
    {
        if matches_at(hay, needle, at) {
            return Some(at);
        }
        at += 1;
    }
    if matches_at(hay, needle, at) {
        return Some(at);
    }
    assert(first_occurrence(hay@, needle@, at + 1) is None);
    None
}

/// The index of the first place where `needle` stands in `haystack`.
pub fn find_subsequence(haystack: &[u8], needle: &[u8]) -> (found: Option<usize>)
    requires
        needle.len() > 0,
    ensures
        match found {
            Some(at) => first_occurrence(haystack@, needle@, 0) == Some(at as int),
            None => first_occurrence(haystack@, needle@, 0) is None,
        },
{
    find_from(haystack, needle, 0)
}

/// The bytes of `/Type`.
pub open spec fn type_key() -> Seq<u8> {
    seq![0x2fu8, 0x54u8, 0x79u8, 0x70u8, 0x65u8]
}

/// The bytes of `/Page`.
pub open spec fn page_key() -> Seq<u8> {
    seq![0x2fu8, 0x50u8, 0x61u8, 0x67u8, 0x65u8]
}

/// A byte of white space between the parts of a PDF object: tab, line
/// feed, vertical tab, form feed, carriage return or space.
pub open spec fn is_blank_byte(b: u8) -> bool {
    b == 9 || b == 10 || b == 11 || b == 12 || b == 13 || b == 32
}

/// A byte that goes on a name: a letter of the basic Latin alphabet, a
/// digit or the underscore.
pub open spec fn is_word_byte(b: u8) -> bool {
    (0x30 <= b && b <= 0x39) || (0x41 <= b && b <= 0x5a) || (0x61 <= b && b <= 0x7a) || b == 0x5f
}

/// The first index at or behind `from` whose byte is not blank.
pub open spec fn skip_blanks(bytes: Seq<u8>, from: int) -> int
    decreases bytes.len() - from,
{
    if from < 0 || from >= bytes.len() || !is_blank_byte(bytes[from]) {
        from
    } else {
        skip_blanks(bytes, from + 1)
    }
}

/// Whether the mark of a page object begins at `at`: `/Type`, then blanks
/// or none, then `/Page`, and no byte of a name directly behind.
pub open spec fn page_marker_at(bytes: Seq<u8>, at: int) -> bool {
    occurs_at(bytes, type_key(), at) && {
        let next = skip_blanks(bytes, at + 5);
        occurs_at(bytes, page_key(), next) && (next + 5 == bytes.len() || !is_word_byte(
            bytes[next + 5],
        ))
    }
}

/// The number of marks of a page object that begin before `upto`.
pub open spec fn page_markers(bytes: Seq<u8>, upto: int) -> nat
    decreases upto,
{
    if upto <= 0 {
        0
    } else {
        page_markers(bytes, upto - 1) + if page_marker_at(bytes, upto - 1) {
            1nat
        } else {
            0nat
        }
    }
}

/// There are no more marks than places.
proof fn lemma_page_markers_bound(bytes: Seq<u8>, upto: int)
    requires
        0 <= upto,
    ensures
        page_markers(bytes, upto) <= upto,
    decreases upto,
{
    if upto > 0 {
        lemma_page_markers_bound(bytes, upto - 1);
    }
}

/// The bytes of `/Type`.
fn type_key_bytes() -> (key: Vec<u8>)
    ensures
        key@ == type_key(),
{
    let key: Vec<u8> = vec![0x2fu8, 0x54u8, 0x79u8, 0x70u8, 0x65u8];
    assert(key@ =~= type_key());
    key
}

/// The bytes of `/Page`.
fn page_key_bytes() -> (key: Vec<u8>)
    ensures
        key@ == page_key(),
{
    let key: Vec<u8> = vec![0x2fu8, 0x50u8, 0x61u8, 0x67u8, 0x65u8];
    assert(key@ =~= page_key());
    key
}

/// The number of marks of a page object in the bytes of a file.
pub fn count_page_markers(bytes: &[u8]) -> (count: usize)
    ensures
        count == page_markers(bytes@, bytes@.len() as int),
{
    let type_bytes = type_key_bytes();
    let page_bytes = page_key_bytes();
    let mut count: usize = 0;
    let mut at: usize = 0;
    while at < bytes.len()
        invariant
            at <= bytes.len(),
            count == page_markers(bytes@, at as int),
            type_bytes@ == type_key(),
            page_bytes@ == page_key(),
        decreases bytes.len() - at,
    {
        proof {
            lemma_page_markers_bound(bytes@, at as int);
        }
        let mut marked = false;
        if bytes.len() - at >= 5 && matches_at(bytes, type_bytes.as_slice(), at) {
            let mut next: usize = at + 5;
            while next < bytes.len() && (bytes[next] == 9 || bytes[next] == 10 || bytes[next] == 11
                || bytes[next] == 12 || bytes[next] == 13 || bytes[next] == 32)
                invariant
                    at + 5 <= next <= bytes.len(),
                    skip_blanks(bytes@, at + 5) == skip_blanks(bytes@, next as int),
                decreases bytes.len() - next,
            {
                next += 1;
            }
            if bytes.len() - next >= 5 && matches_at(bytes, page_bytes.as_slice(), next) {
                if next + 5 == bytes.len() {
                    marked = true;
                } else {
                    let b = bytes[next + 5];
                    let word = (0x30 <= b && b <= 0x39) || (0x41 <= b && b <= 0x5a) || (0x61 <= b
                        && b <= 0x7a) || b == 0x5f;
                    marked = !word;
                }
            }
        }
        if marked {
            count += 1;
        }
        at += 1;
    }
    count
}

/// One of the digits `0` to `7`.
pub open spec fn is_octal_digit(c: char) -> bool {
    '0' <= c && c <= '7'
}

/// The number of octal digits of an escape whose first digit stands at
/// `at`: one, and up to two more that follow directly.
pub open spec fn octal_run(s: Seq<char>, at: int) -> int {
    if at + 1 < s.len() && is_octal_digit(s[at + 1]) {
        if at + 2 < s.len() && is_octal_digit(s[at + 2]) {
            3
        } else {
            2
        }
    } else {
        1
    }
}

/// The number that the `n` octal digits from `at` on write.
pub open spec fn octal_number(s: Seq<char>, at: int, n: int) -> int {
    if n == 1 {
        s[at] as int - 0x30
    } else if n == 2 {
        8 * (s[at] as int - 0x30) + (s[at + 1] as int - 0x30)
    } else {
        64 * (s[at] as int - 0x30) + 8 * (s[at + 1] as int - 0x30) + (s[at + 2] as int - 0x30)
    }
}

/// The character that a backslash and the character `c` stand for, where
/// `c` is not an octal digit: a line feed, carriage return, tab, backspace
/// or form feed for `n`, `r`, `t`, `b`, `f`, and `c` itself otherwise.
pub open spec fn escaped_char(c: char) -> char {
    if c == 'n' {
        '\n'
    } else if c == 'r' {
        '\r'
    } else if c == 't' {
        '\t'
    } else if c == 'b' {
        '\u{8}'
    } else if c == 'f' {
        '\u{c}'
    } else {
        c
    }
}

/// The text that the body of a literal string stands for, from `at` on.
/// A backslash with up to three octal digits stands for the character with
/// that code, and for nothing if the code is above 255; a backslash at the
/// end stands for nothing.
pub open spec fn decode_literal_from(s: Seq<char>, at: int) -> Seq<char>
    decreases s.len() - at,
{
    if at < 0 || at >= s.len() {
        Seq::empty()
    } else if s[at] != '\\' {
        seq![s[at]] + decode_literal_from(s, at + 1)
    } else if at + 1 >= s.len() {
        Seq::empty()
    } else if is_octal_digit(s[at + 1]) {
        let n = octal_run(s, at + 1);
        let code = octal_number(s, at + 1, n);
        if code <= 255 {
            seq![code as char] + decode_literal_from(s, at + 1 + n)
        } else {
            decode_literal_from(s, at + 1 + n)
        }
    } else {
        seq![escaped_char(s[at + 1])] + decode_literal_from(s, at + 2)
    }
}

/// The text that the body of a literal string stands for.
pub open spec fn decode_literal(s: Seq<char>) -> Seq<char> {
    decode_literal_from(s, 0)
}

/// The characters that the body of a literal string stands for.
pub fn decode_literal_chars(body: &[char]) -> (out: Vec<char>)
    ensures
        out@ == decode_literal(body@),
{
    let mut out: Vec<char> = Vec::new();
    let mut at: usize = 0;
    while at < body.len()
        invariant
            at <= body.len(),
            out@ + decode_literal_from(body@, at as int) == decode_literal(body@),
        decreases body.len() - at,
    {
        let ghost before = out@;
        let c = body[at];
        if c != '\\' {
            out.push(c);
            assert(before.push(c) + decode_literal_from(body@, at + 1) =~= before + (seq![c]
                + decode_literal_from(body@, at + 1)));
            at += 1;
        } else if at + 1 >= body.len() {
            assert(before + Seq::<char>::empty() =~= before);
            at = body.len();
            assert(decode_literal_from(body@, body@.len() as int) =~= Seq::empty());
        } else {
            let next = body[at + 1];
            if next >= '0' && next <= '7' {
                let mut code: u32 = next as u32 - 0x30;
                let mut n: usize = 1;
                if at + 2 < body.len() && body[at + 2] >= '0' && body[at + 2] <= '7' {
                    code = code * 8 + (body[at + 2] as u32 - 0x30);
                    n = 2;
                    if at + 3 < body.len() && body[at + 3] >= '0' && body[at + 3] <= '7' {
                        code = code * 8 + (body[at + 3] as u32 - 0x30);
                        n = 3;
                    }
                }
                assert(n == octal_run(body@, at + 1));
                assert(code == octal_number(body@, at + 1, n as int));
                if code <= 255 {
                    let decoded = code as u8 as char;
                    assert(decoded == code as char);
                    out.push(decoded);
                    assert(before.push(decoded) + decode_literal_from(body@, at + 1 + n)
                        =~= before + (seq![decoded] + decode_literal_from(body@, at + 1 + n)));
                }
                at = at + 1 + n;
            } else {
                let decoded = if next == 'n' {
                    '\n'
                } else if next == 'r' {
                    '\r'
                } else if next == 't' {
                    '\t'
                } else if next == 'b' {
                    '\u{8}'
                } else if next == 'f' {
                    '\u{c}'
                } else {
                    next
                };
                out.push(decoded);
                assert(before.push(decoded) + decode_literal_from(body@, at + 2) =~= before + (
                seq![decoded] + decode_literal_from(body@, at + 2)));
                at += 2;
            }
        }
    }
    assert(decode_literal_from(body@, body@.len() as int) =~= Seq::empty());
    assert(out@ + Seq::<char>::empty() =~= out@);
    out
}

/// Decodes the body of a PDF literal string: the escapes for line feed,
/// carriage return, tab, backspace, form feed, brackets and backslash,
/// octal escapes of up to three digits, and any other escaped character
/// taken as it is.
pub fn decode_pdf_string(input: &str) -> (out: String)
    ensures
        out@ == decode_literal(input@),
{
    let chars = to_chars(input);
    let decoded = decode_literal_chars(chars.as_slice());
    from_chars(decoded.as_slice())
}

/// The 16-bit units that bytes give when each two are read high byte
/// first; a single byte left at the end is dropped.
pub open spec fn units_be(bytes: Seq<u8>) -> Seq<u16> {
    Seq::new(bytes.len() / 2, |k: int| (bytes[2 * k] as int * 256 + bytes[2 * k + 1] as int) as u16)
}

/// The 16-bit units that bytes give when each two are read low byte first;
/// a single byte left at the end is dropped.
pub open spec fn units_le(bytes: Seq<u8>) -> Seq<u16> {
    Seq::new(bytes.len() / 2, |k: int| (bytes[2 * k + 1] as int * 256 + bytes[2 * k] as int) as u16)
}

/// The text whose characters have the codes of the bytes.
pub open spec fn byte_chars(bytes: Seq<u8>) -> Seq<char> {
    Seq::new(bytes.len(), |i: int| bytes[i] as char)
}

/// Whether the bytes begin with the two given bytes.
pub open spec fn begins_with(bytes: Seq<u8>, first: u8, second: u8) -> bool {
    bytes.len() >= 2 && bytes[0] == first && bytes[1] == second
}

/// The text that the bytes of a string stand for. Behind the byte order
/// mark FE FF they are UTF-16 with the high byte first, behind FF FE with
/// the low byte first, where the units encode a text. Otherwise, and where
/// they do not, they are UTF-8 if they are valid as such, and else each
/// byte is the character of its code.
pub open spec fn decode_bytes(bytes: Seq<u8>) -> Seq<char> {
    if begins_with(bytes, 0xFE, 0xFF) && utf16_text(units_be(bytes.skip(2))) is Some {
        utf16_text(units_be(bytes.skip(2)))->0
    } else if begins_with(bytes, 0xFF, 0xFE) && utf16_text(units_le(bytes.skip(2))) is Some {
        utf16_text(units_le(bytes.skip(2)))->0
    } else if valid_utf8(bytes) {
        decode_utf8(bytes)
    } else {
        byte_chars(bytes)
    }
}

/// The 16-bit units of the bytes behind a byte order mark.
fn collect_units(bytes: &[u8], high_first: bool) -> (units: Vec<u16>)
    requires
        bytes.len() >= 2,
    ensures
        high_first ==> units@ == units_be(bytes@.skip(2)),
        !high_first ==> units@ == units_le(bytes@.skip(2)),
{
    let mut units: Vec<u16> = Vec::new();
    let mut at: usize = 2;
    let ghost rest = bytes@.skip(2);
    while bytes.len() - at >= 2
        invariant
            2 <= at <= bytes.len(),
            rest == bytes@.skip(2),
            at == 2 + 2 * units.len(),
            high_first ==> units@ == units_be(rest).take(units.len() as int),
            !high_first ==> units@ == units_le(rest).take(units.len() as int),
        decreases bytes.len() - at,
    {
        let a = bytes[at];
        let b = bytes[at + 1];
        assert(rest[2 * units.len() as int] == a);
        assert(rest[2 * units.len() as int + 1] == b);
        let unit: u16 = if high_first {
            (a as u16) * 256 + (b as u16)
        } else {
            (b as u16) * 256 + (a as u16)
        };
        let ghost count = units.len() as int;
        units.push(unit);
        assert(high_first ==> units@ =~= units_be(rest).take(count + 1));
        assert(!high_first ==> units@ =~= units_le(rest).take(count + 1));
        at += 2;
    }
    assert(units.len() == rest.len() / 2);
    assert(units_be(rest).take(units.len() as int) =~= units_be(rest));
    assert(units_le(rest).take(units.len() as int) =~= units_le(rest));
    units
}

/// Decodes the bytes of a PDF string: UTF-16 behind a byte order mark,
/// else UTF-8, else one character for each byte.
pub fn decode_pdf_encoded_bytes(bytes: &[u8]) -> (out: String)
    ensures
        out@ == decode_bytes(bytes@),
{
    if bytes.len() >= 2 {
        if bytes[0] == 0xFE && bytes[1] == 0xFF {
            let units = collect_units(bytes, true);
            match decode_utf16(units.as_slice()) {
                Some(text) => {
                    return text;
                },
                None => {},
            }
        } else if bytes[0] == 0xFF && bytes[1] == 0xFE {
            let units = collect_units(bytes, false);
            match decode_utf16(units.as_slice()) {
                Some(text) => {
                    return text;
                },
                None => {},
            }
        }
    }
    match decode_utf8_strict(bytes) {
        Some(text) => text,
        None => {
            let mut chars: Vec<char> = Vec::new();
            let mut i: usize = 0;
            while i < bytes.len()
                invariant
                    i <= bytes.len(),
                    chars@ == byte_chars(bytes@).take(i as int),
                decreases bytes.len() - i,
            {
                chars.push(bytes[i] as char);
                assert(chars@ =~= byte_chars(bytes@).take(i + 1));
                i += 1;
            }
            assert(byte_chars(bytes@).take(bytes@.len() as int) =~= byte_chars(bytes@));
            from_chars(chars.as_slice())
        },
    }
}

/// The value of a hexadecimal digit.
pub open spec fn hex_value(c: char) -> Option<int> {
    if '0' <= c && c <= '9' {
        Some(c as int - 0x30)
    } else if 'a' <= c && c <= 'f' {
        Some(c as int - 0x61 + 10)
    } else if 'A' <= c && c <= 'F' {
        Some(c as int - 0x41 + 10)
    } else {
        None
    }
}

/// The byte that two characters of a hexadecimal string write: two digits
/// give sixteen times the first plus the second; a plus sign and a digit
/// give the digit, as in a signed number; anything else gives no byte.
pub open spec fn pair_value(first: char, second: char) -> Option<int> {
    match (hex_value(first), hex_value(second)) {
        (Some(high), Some(low)) => Some(16 * high + low),
        (None, Some(low)) => if first == '+' {
            Some(low)
        } else {
            None
        },
        _ => None,
    }
}

/// The bytes that the characters from `at` on write, two by two; a single
/// character left at the end is read with a `0` behind it.
pub open spec fn hex_bytes_from(s: Seq<char>, at: int) -> Seq<u8>
    decreases s.len() + 1 - at,
{
    if at < 0 || at >= s.len() {
        Seq::empty()
    } else {
        let second = if at + 1 < s.len() {
            s[at + 1]
        } else {
            '0'
        };
        match pair_value(s[at], second) {
            Some(value) => seq![value as u8] + hex_bytes_from(s, at + 2),
            None => hex_bytes_from(s, at + 2),
        }
    }
}

/// The characters of a text that are not whitespace.
pub open spec fn non_space(s: Seq<char>) -> Seq<char>
    decreases s.len(),
{
    if s.len() == 0 {
        Seq::empty()
    } else if is_space(s.last()) {
        non_space(s.drop_last())
    } else {
        non_space(s.drop_last()).push(s.last())
    }
}

/// The text that the body of a hexadecimal string stands for: nothing if
/// it holds only whitespace, else the decoding of the bytes it writes.
pub open spec fn decode_hex(s: Seq<char>) -> Seq<char> {
    let compact = non_space(s);
    if compact.len() == 0 {
        Seq::empty()
    } else {
        decode_bytes(hex_bytes_from(compact, 0))
    }
}

/// The value of a hexadecimal digit.
fn hex_digit(c: char) -> (value: Option<u8>)
    ensures
        match value {
            Some(v) => hex_value(c) == Some(v as int) && v < 16,
            None => hex_value(c) is None,
        },
{
    if c >= '0' && c <= '9' {
        Some((c as u32 - 0x30) as u8)
    } else if c >= 'a' && c <= 'f' {
        Some((c as u32 - 0x61 + 10) as u8)
    } else if c >= 'A' && c <= 'F' {
        Some((c as u32 - 0x41 + 10) as u8)
    } else {
        None
    }
}

/// The characters that the body of a hexadecimal string stands for.
pub fn decode_hex_chars(body: &[char]) -> (out: Vec<char>)
    ensures
        out@ == decode_hex(body@),
{
    let mut compact: Vec<char> = Vec::new();
    let mut i: usize = 0;
    assert(body@.take(0) =~= Seq::empty());
    while i < body.len()
        invariant
            i <= body.len(),
            compact@ == non_space(body@.take(i as int)),
        decreases body.len() - i,
    {
        assert(body@.take(i + 1).drop_last() =~= body@.take(i as int));
        if !body[i].is_whitespace() {
            compact.push(body[i]);
        }
        i += 1;
    }
    assert(body@.take(body@.len() as int) =~= body@);
    if compact.len() == 0 {
        return Vec::new();
    }
    let mut bytes: Vec<u8> = Vec::new();
    let mut at: usize = 0;
    while at < compact.len()
        invariant
            bytes@ + hex_bytes_from(compact@, at as int) == hex_bytes_from(compact@, 0),
        decreases compact.len() - at,
    {
        let ghost before = bytes@;
        let first = compact[at];
        let second = if compact.len() - at > 1 {
            compact[at + 1]
        } else {
            '0'
        };
        match (hex_digit(first), hex_digit(second)) {
            (Some(high), Some(low)) => {
                let value = 16 * high + low;
                bytes.push(value);
                assert(before.push(value) + hex_bytes_from(compact@, at + 2) =~= before + (
                seq![value] + hex_bytes_from(compact@, at + 2)));
            },
            (None, Some(low)) => {
                if first == '+' {
                    bytes.push(low);
                    assert(before.push(low) + hex_bytes_from(compact@, at + 2) =~= before + (
                    seq![low] + hex_bytes_from(compact@, at + 2)));
                }
            },
            _ => {},
        }
        if compact.len() - at > 1 {
            at += 2;
        } else {
            assert(hex_bytes_from(compact@, at + 2) =~= Seq::empty());
            at = compact.len();
        }
    }
    assert(hex_bytes_from(compact@, compact@.len() as int) =~= Seq::empty());
    assert(bytes@ + Seq::<u8>::empty() =~= bytes@);
    let text = decode_pdf_encoded_bytes(bytes.as_slice());
    to_chars(text.as_str())
}

/// Decodes the body of a PDF hexadecimal string: whitespace is dropped,
/// each two digits give a byte, and the bytes are decoded as text.
pub fn decode_pdf_hex_string(input: &str) -> (out: String)
    ensures
        out@ == decode_hex(input@),
{
    let chars = to_chars(input);
    let decoded = decode_hex_chars(chars.as_slice());
    from_chars(decoded.as_slice())
}

/// The index of the bracket that closes a literal string whose body
/// begins at `at`: the first `)` that no backslash escapes. A backslash
/// escapes the character behind it, but not a line feed; where a backslash
/// stands before a line feed or at the end, nothing closes the string.
pub open spec fn literal_close(s: Seq<char>, at: int) -> Option<int>
    decreases s.len() - at,
{
    if at < 0 || at >= s.len() {
        None
    } else if s[at] == ')' {
        Some(at)
    } else if s[at] == '\\' {
        if at + 1 < s.len() && s[at + 1] != '\n' {
            literal_close(s, at + 2)
        } else {
            None
        }
    } else {
        literal_close(s, at + 1)
    }
}

/// The decoded literal strings from `at` on that are not empty. A literal
/// string begins at a `(` that something closes; the search goes on behind
/// its closing bracket.
pub open spec fn literal_texts_from(s: Seq<char>, at: int) -> Seq<Seq<char>>
    decreases s.len() - at,
{
    if at < 0 || at >= s.len() {
        Seq::empty()
    } else if s[at] == '(' {
        match literal_close(s, at + 1) {
            Some(close) => if at < close && close < s.len() {
                if_text(decode_literal(s.subrange(at + 1, close))) + literal_texts_from(
                    s,
                    close + 1,
                )
            } else {
                Seq::empty()
            },
            None => literal_texts_from(s, at + 1),
        }
    } else {
        literal_texts_from(s, at + 1)
    }
}

/// A character of the body of a hexadecimal string: a digit or whitespace.
pub open spec fn is_hex_body_char(c: char) -> bool {
    hex_value(c) is Some || is_space(c)
}

/// The first index at or behind `at` whose character is not one of the
/// body of a hexadecimal string.
pub open spec fn hex_body_end(s: Seq<char>, at: int) -> int
    decreases s.len() - at,
{
    if at < 0 || at >= s.len() || !is_hex_body_char(s[at]) {
        at
    } else {
        hex_body_end(s, at + 1)
    }
}

/// The decoded hexadecimal strings from `at` on that are not empty. A
/// hexadecimal string is a `<`, one or more digits or whitespace, and a `>`.
pub open spec fn hex_texts_from(s: Seq<char>, at: int) -> Seq<Seq<char>>
    decreases s.len() - at,
{
    if at < 0 || at >= s.len() {
        Seq::empty()
    } else if s[at] == '<' {
        let end = hex_body_end(s, at + 1);
        if at + 1 < end && end < s.len() && s[end] == '>' {
            if_text(decode_hex(s.subrange(at + 1, end))) + hex_texts_from(s, end + 1)
        } else {
            hex_texts_from(s, at + 1)
        }
    } else {
        hex_texts_from(s, at + 1)
    }
}

/// The texts of a decoded stream: its literal strings, then its
/// hexadecimal strings.
pub open spec fn stream_segments(content: Seq<char>) -> Seq<Seq<char>> {
    literal_texts_from(content, 0) + hex_texts_from(content, 0)
}

/// The text of a stream: the texts of its strings with spaces between,
/// the bytes being read as lossy UTF-8.
pub open spec fn stream_text(bytes: Seq<u8>) -> Seq<char> {
    joined(stream_segments(lossy_text(bytes)))
}

/// The closing bracket of a literal string is not before its body.
proof fn lemma_literal_close(s: Seq<char>, at: int)
    requires
        0 <= at,
    ensures
        literal_close(s, at) matches Some(close) ==> at <= close < s.len() && s[close] == ')',
    decreases s.len() - at,
{
    if at >= s.len() {
    } else if s[at] == ')' {
    } else if s[at] == '\\' {
        if at + 1 < s.len() && s[at + 1] != '\n' {
            lemma_literal_close(s, at + 2);
        }
    } else {
        lemma_literal_close(s, at + 1);
    }
}

/// What a table entry says of the closing bracket for a body that begins
/// at `at`: its index, or the length of the text if there is none.
spec fn close_entry(s: Seq<char>, at: int) -> int {
    match literal_close(s, at) {
        Some(close) => close,
        None => s.len() as int,
    }
}

/// For every index, from the last to the first, the closing bracket of a
/// literal string whose body begins there; `table[k]` is the entry for
/// the index `len - k`.
fn closing_table(text: &[char]) -> (table: Vec<usize>)
    ensures
        table.len() == text.len() + 1,
        forall|k: int| 0 <= k <= text.len() ==> #[trigger] table[k] == close_entry(text@, text.len() - k),
{
    let n = text.len();
    let mut table: Vec<usize> = Vec::new();
    table.push(n);
    let mut k: usize = 1;
    while k <= n
        invariant
            n == text.len(),
            1 <= k <= n + 1,
            table.len() == k,
            forall|j: int| 0 <= j < k ==> #[trigger] table[j] == close_entry(text@, n - j),
        decreases n + 1 - k,
    {
        let at = n - k;
        let c = text[at];
        proof {
            lemma_literal_close(text@, at as int);
        }
        let entry = if c == ')' {
            at
        } else if c == '\\' {
            if k >= 2 && text[at + 1] != '\n' {
                table[k - 2]
            } else {
                n
            }
        } else {
            table[k - 1]
        };
        table.push(entry);
        if k == n {
            return table;
        }
        k += 1;
    }
    table
}

/// The decoded literal strings of the characters that are not empty.
fn collect_literal_texts(text: &[char], segments: &mut Vec<Vec<char>>)
    ensures
        views(final(segments)@) == views(old(segments)@) + literal_texts_from(text@, 0),
{
    let table = closing_table(text);
    let n = text.len();
    let mut at: usize = 0;
    let ghost start = views(segments@);
    assert(start + Seq::<Seq<char>>::empty() =~= start);
    while at < n
        invariant
            at <= n,
            n == text.len(),
            table.len() == n + 1,
            forall|k: int| 0 <= k <= n ==> #[trigger] table[k] == close_entry(text@, n - k),
            views(segments@) + literal_texts_from(text@, at as int) == start + literal_texts_from(
                text@,
                0,
            ),
        decreases n - at,
    {
        let ghost before = views(segments@);
        if text[at] == '(' {
            let close = table[n - (at + 1)];
            proof {
                lemma_literal_close(text@, at + 1);
            }
            if close < n {
                let body = slice_subrange(text, at + 1, close);
                let decoded = decode_literal_chars(body);
                if decoded.len() > 0 {
                    segments.push(decoded);
                    assert(views(segments@) =~= before + if_text(
                        decode_literal(text@.subrange(at + 1, close as int)),
                    ));
                }
                assert(views(segments@) + literal_texts_from(text@, close + 1) =~= before + (
                if_text(decode_literal(text@.subrange(at + 1, close as int)))
                    + literal_texts_from(text@, close + 1)));
                at = close + 1;
            } else {
                at += 1;
            }
        } else {
            at += 1;
        }
    }
    assert(literal_texts_from(text@, n as int) =~= Seq::empty());
    assert(views(segments@) + Seq::<Seq<char>>::empty() =~= views(segments@));
}

/// The decoded hexadecimal strings of the characters that are not empty.
fn collect_hex_texts(text: &[char], segments: &mut Vec<Vec<char>>)
    ensures
        views(final(segments)@) == views(old(segments)@) + hex_texts_from(text@, 0),
{
    let n = text.len();
    let mut at: usize = 0;
    let ghost start = views(segments@);
    assert(start + Seq::<Seq<char>>::empty() =~= start);
    while at < n
        invariant
            at <= n,
            n == text.len(),
            views(segments@) + hex_texts_from(text@, at as int) == start + hex_texts_from(
                text@,
                0,
            ),
        decreases n - at,
    {
        let ghost before = views(segments@);
        if text[at] == '<' {
            let mut end: usize = at + 1;
            while end < n && (hex_digit(text[end]).is_some() || text[end].is_whitespace())
                invariant
                    at + 1 <= end <= n,
                    n == text.len(),
                    hex_body_end(text@, at + 1) == hex_body_end(text@, end as int),
                decreases n - end,
            {
                end += 1;
            }
            if end > at + 1 && end < n && text[end] == '>' {
                let body = slice_subrange(text, at + 1, end);
                let decoded = decode_hex_chars(body);
                if decoded.len() > 0 {
                    segments.push(decoded);
                    assert(views(segments@) =~= before + if_text(
                        decode_hex(text@.subrange(at + 1, end as int)),
                    ));
                }
                assert(views(segments@) + hex_texts_from(text@, end + 1) =~= before + (if_text(
                    decode_hex(text@.subrange(at + 1, end as int)),
                ) + hex_texts_from(text@, end + 1)));
                at = end + 1;
            } else {
                at += 1;
            }
        } else {
            at += 1;
        }
    }
    assert(hex_texts_from(text@, n as int) =~= Seq::empty());
    assert(views(segments@) + Seq::<Seq<char>>::empty() =~= views(segments@));
}

/// The text of a decoded stream: its literal strings, then its
/// hexadecimal strings, each decoded, with spaces between.
pub fn extract_text_from_pdf_stream(stream: &[u8]) -> (out: String)
    ensures
        out@ == stream_text(stream@),
{
    let content = decode_lossy(stream);
    let chars = to_chars(content.as_str());
    let mut segments: Vec<Vec<char>> = Vec::new();
    assert(views(segments@) =~= Seq::empty());
    collect_literal_texts(chars.as_slice(), &mut segments);
    collect_hex_texts(chars.as_slice(), &mut segments);
    assert(views(segments@) =~= stream_segments(chars@));
    let text = join_words(&segments);
    from_chars(text.as_slice())
}

/// The bytes that a zlib stream holds once it is inflated, where it can
/// be inflated to its end, as the decoder of the `flate2` crate does it.
pub uninterp spec fn inflated(data: Seq<u8>) -> Option<Seq<u8>>;

/// Calls `flate2::read::ZlibDecoder` and reads it to the end: the result is
/// what the data inflates to, or nothing where the decoder reports an
/// error; this crate calls that `inflated`.
#[verifier::external_body]
pub(crate) fn inflate_data(data: &[u8]) -> (out: Option<Vec<u8>>)
    ensures
        out.deep_view() == inflated(data@),
{
    let mut decoder = ZlibDecoder::new(Cursor::new(data));
    let mut output = Vec::new();
    match decoder.read_to_end(&mut output) {
        Ok(_) => Some(output),
        Err(_) => None,
    }
}

/// The bytes of `stream`.
pub open spec fn stream_key() -> Seq<u8> {
    seq![0x73u8, 0x74u8, 0x72u8, 0x65u8, 0x61u8, 0x6du8]
}

/// The bytes of `endstream`.
pub open spec fn endstream_key() -> Seq<u8> {
    seq![0x65u8, 0x6eu8, 0x64u8, 0x73u8, 0x74u8, 0x72u8, 0x65u8, 0x61u8, 0x6du8]
}

/// The bytes of `/FlateDecode`.
pub open spec fn flate_key() -> Seq<u8> {
    seq![
        0x2fu8,
        0x46u8,
        0x6cu8,
        0x61u8,
        0x74u8,
        0x65u8,
        0x44u8,
        0x65u8,
        0x63u8,
        0x6fu8,
        0x64u8,
        0x65u8,
    ]
}

/// The first index at or behind `from` whose byte is neither a carriage
/// return nor a line feed.
pub open spec fn skip_line_ends(bytes: Seq<u8>, from: int) -> int
    decreases bytes.len() - from,
{
    if from < 0 || from >= bytes.len() || (bytes[from] != 13 && bytes[from] != 10) {
        from
    } else {
        skip_line_ends(bytes, from + 1)
    }
}

/// The bytes of a stream region as they are to be read: inflated, if one
/// of the up to 256 bytes before the word `stream` declares `/FlateDecode`
/// and the data can be inflated, and as they stand otherwise.
pub open spec fn region_bytes(buffer: Seq<u8>, stream_at: int, start: int, end: int) -> Seq<u8> {
    let raw = buffer.subrange(start, end);
    let header = buffer.subrange(
        if stream_at >= 256 {
            stream_at - 256
        } else {
            0
        },
        stream_at,
    );
    if first_occurrence(header, flate_key(), 0) is Some {
        match inflated(raw) {
            Some(data) => data,
            None => raw,
        }
    } else {
        raw
    }
}

/// The texts of the stream regions that begin at or behind `cursor`, the
/// empty ones left out. A region lies between the word `stream`, with the
/// line ends behind it, and the next `endstream`; the search goes on behind
/// that word. It ends where no `stream` follows, where nothing but line
/// ends follows it, or where no `endstream` follows.
pub open spec fn pages_from(buffer: Seq<u8>, cursor: int) -> Seq<Seq<char>>
    decreases buffer.len() - cursor,
{
    match first_occurrence(buffer, stream_key(), cursor) {
        None => Seq::empty(),
        Some(stream_at) => {
            let start = skip_line_ends(buffer, stream_at + 6);
            if start >= buffer.len() {
                Seq::empty()
            } else {
                match first_occurrence(buffer, endstream_key(), start) {
                    None => Seq::empty(),
                    Some(end) => if 0 <= cursor && cursor < end + 9 && end + 9 <= buffer.len() {
                        if_text(stream_text(region_bytes(buffer, stream_at, start, end)))
                            + pages_from(buffer, end + 9)
                    } else {
                        Seq::empty()
                    },
                }
            }
        },
    }
}

/// View of [`PdfContents`].
pub struct ContentsView {
    pub text: Seq<char>,
    pub page_count: Option<nat>,
    pub pages: Seq<Seq<char>>,
}

/// What the bytes of a PDF file give without outside help: the text of
/// each stream region, all of them joined, and an estimate of the number
/// of pages.
#[derive(Debug)]
pub struct PdfContents {
    pub text: String,
    pub page_count: Option<usize>,
    pub pages: Vec<String>,
}

impl View for PdfContents {
    type V = ContentsView;

    open spec fn view(&self) -> ContentsView {
        ContentsView {
            text: self.text@,
            page_count: match self.page_count {
                Some(count) => Some(count as nat),
                None => None,
            },
            pages: self.pages.deep_view(),
        }
    }
}

/// What the bytes of a PDF file give: the texts of its stream regions, in
/// their order; these joined by spaces; and the number of marks of a page
/// object in the file, if there is any.
pub open spec fn pdf_contents(buffer: Seq<u8>) -> ContentsView {
    let pages = pages_from(buffer, 0);
    let marks = page_markers(buffer, buffer.len() as int);
    ContentsView {
        text: joined(pages),
        page_count: if marks == 0 {
            None
        } else {
            Some(marks)
        },
        pages,
    }
}

/// The bytes of `stream`.
fn stream_key_bytes() -> (key: Vec<u8>)
    ensures
        key@ == stream_key(),
{
    let key: Vec<u8> = vec![0x73u8, 0x74u8, 0x72u8, 0x65u8, 0x61u8, 0x6du8];
    assert(key@ =~= stream_key());
    key
}

/// The bytes of `endstream`.
fn endstream_key_bytes() -> (key: Vec<u8>)
    ensures
        key@ == endstream_key(),
{
    let key: Vec<u8> = vec![
        0x65u8,
        0x6eu8,
        0x64u8,
        0x73u8,
        0x74u8,
        0x72u8,
        0x65u8,
        0x61u8,
        0x6du8,
    ];
    assert(key@ =~= endstream_key());
    key
}

/// The bytes of `/FlateDecode`.
fn flate_key_bytes() -> (key: Vec<u8>)
    ensures
        key@ == flate_key(),
{
    let key: Vec<u8> = vec![
        0x2fu8,
        0x46u8,
        0x6cu8,
        0x61u8,
        0x74u8,
        0x65u8,
        0x44u8,
        0x65u8,
        0x63u8,
        0x6fu8,
        0x64u8,
        0x65u8,
    ];
    assert(key@ =~= flate_key());
    key
}

/// The text of one stream region.
fn region_text(buffer: &[u8], stream_at: usize, start: usize, end: usize) -> (out: Vec<char>)
    requires
        stream_at <= buffer.len(),
        start <= end <= buffer.len(),
    ensures
        out@ == stream_text(region_bytes(buffer@, stream_at as int, start as int, end as int)),
{
    let raw = slice_subrange(buffer, start, end);
    let header_start = if stream_at >= 256 {
        stream_at - 256
    } else {
        0
    };
    let header = slice_subrange(buffer, header_start, stream_at);
    let flate = flate_key_bytes();
    let text = if find_from(header, flate.as_slice(), 0).is_some() {
        match inflate_data(raw) {
            Some(data) => {
                assert(data.deep_view() =~= data@);
                extract_text_from_pdf_stream(data.as_slice())
            },
            None => extract_text_from_pdf_stream(raw),
        }
    } else {
        extract_text_from_pdf_stream(raw)
    };
    to_chars(text.as_str())
}

/// Reads the bytes of a PDF file: the text of every stream region, the
/// regions joined by spaces, and the estimate of the number of pages.
pub fn extract_pdf_contents(buffer: &[u8]) -> (contents: PdfContents)
    ensures
        contents@ == pdf_contents(buffer@),
{
    let marks = count_page_markers(buffer);
    let page_count = if marks == 0 {
        None
    } else {
        Some(marks)
    };
    let stream = stream_key_bytes();
    let endstream = endstream_key_bytes();
    let mut segments: Vec<Vec<char>> = Vec::new();
    let mut cursor: usize = 0;
    let mut done = false;
    assert(views(segments@) =~= Seq::empty());
    while !done
        invariant
            cursor <= buffer.len(),
            stream@ == stream_key(),
            endstream@ == endstream_key(),
            !done ==> views(segments@) + pages_from(buffer@, cursor as int) == pages_from(
                buffer@,
                0,
            ),
            done ==> views(segments@) == pages_from(buffer@, 0),
        decreases buffer.len() - cursor, if done { 0int } else { 1int },
    {
        let ghost before = views(segments@);
        proof {
            lemma_first_occurrence(buffer@, stream_key(), cursor as int);
        }
        match find_from(buffer, stream.as_slice(), cursor) {
            None => {
                assert(before + Seq::<Seq<char>>::empty() =~= before);
                done = true;
            },
            Some(stream_at) => {
                let mut start: usize = stream_at + 6;
                while start < buffer.len() && (buffer[start] == 13 || buffer[start] == 10)
                    invariant
                        stream_at + 6 <= start <= buffer.len(),
                        skip_line_ends(buffer@, stream_at + 6) == skip_line_ends(
                            buffer@,
                            start as int,
                        ),
                    decreases buffer.len() - start,
                {
                    start += 1;
                }
                if start >= buffer.len() {
                    assert(before + Seq::<Seq<char>>::empty() =~= before);
                    done = true;
                } else {
                    proof {
                        lemma_first_occurrence(buffer@, endstream_key(), start as int);
                    }
                    match find_from(buffer, endstream.as_slice(), start) {
                        None => {
                            assert(before + Seq::<Seq<char>>::empty() =~= before);
                            done = true;
                        },
                        Some(end) => {
                            let text = region_text(buffer, stream_at, start, end);
                            if text.len() > 0 {
                                segments.push(text);
                                assert(views(segments@) =~= before + if_text(
                                    stream_text(
                                        region_bytes(
                                            buffer@,
                                            stream_at as int,
                                            start as int,
                                            end as int,
                                        ),
                                    ),
                                ));
                            }
                            assert(views(segments@) + pages_from(buffer@, end + 9) =~= before + (
                            if_text(
                                stream_text(
                                    region_bytes(
                                        buffer@,
                                        stream_at as int,
                                        start as int,
                                        end as int,
                                    ),
                                ),
                            ) + pages_from(buffer@, end + 9)));
                            cursor = end + 9;
                        },
                    }
                }
            },
        }
    }
    let text = join_words(&segments);
    let mut pages: Vec<String> = Vec::new();
    let mut i: usize = 0;
    while i < segments.len()
        invariant
            i <= segments.len(),
            pages.len() == i,
            forall|k: int| 0 <= k < i ==> pages[k]@ == segments[k]@,
        decreases segments.len() - i,
    {
        pages.push(from_chars(segments[i].as_slice()));
        i += 1;
    }
    assert(pages.deep_view() =~= views(segments@));
    PdfContents { text: from_chars(text.as_slice()), page_count, pages }
}

} // verus!
