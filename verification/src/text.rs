//! The cleaning of extracted text: markup tags and binary artefacts give
//! way to spaces, noise words are dropped, runs of whitespace collapse,
//! and what is left is judged for whether it reads as text at all.

use vstd::prelude::*;
use crate::chars::{
    from_chars, is_control_code, is_space, lowercase_of, push_all, same_chars, to_chars,
    trim_chars, trimmed,
};

verus! {

/// The words met so far and the word that is still open, after the
/// characters of `s` were read from left to right.
pub open spec fn split_state(s: Seq<char>) -> (Seq<Seq<char>>, Seq<char>)
    decreases s.len(),
{
    if s.len() == 0 {
        (Seq::empty(), Seq::empty())
    } else {
        let (done, open) = split_state(s.drop_last());
        if is_space(s.last()) {
            if open.len() > 0 {
                (done.push(open), Seq::empty())
            } else {
                (done, open)
            }
        } else {
            (done, open.push(s.last()))
        }
    }
}

/// The words of a text: its maximal runs of characters that are not whitespace.
pub open spec fn words(s: Seq<char>) -> Seq<Seq<char>> {
    let (done, open) = split_state(s);
    if open.len() > 0 {
        done.push(open)
    } else {
        done
    }
}

/// The words with one space between each two.
pub open spec fn joined(parts: Seq<Seq<char>>) -> Seq<char>
    decreases parts.len(),
{
    if parts.len() == 0 {
        Seq::empty()
    } else if parts.len() == 1 {
        parts[0]
    } else {
        joined(parts.drop_last()) + seq![' '] + parts.last()
    }
}

/// The text with every run of whitespace collapsed to one space and none
/// at the ends.
pub open spec fn collapsed(s: Seq<char>) -> Seq<char> {
    joined(words(s))
}

/// A text as a list: of one element, or of none if the text is empty.
pub open spec fn if_text(text: Seq<char>) -> Seq<Seq<char>> {
    if text.len() > 0 {
        seq![text]
    } else {
        Seq::empty()
    }
}

/// The views of a list of character vectors.
pub open spec fn views(parts: Seq<Vec<char>>) -> Seq<Seq<char>> {
    Seq::new(parts.len(), |i: int| parts[i]@)
}

/// The words of a text.
pub fn split_words(text: &[char]) -> (out: Vec<Vec<char>>)
    ensures
        views(out@) == words(text@),
{
    let mut done: Vec<Vec<char>> = Vec::new();
    let mut open: Vec<char> = Vec::new();
    let mut i: usize = 0;
    assert(text@.take(0) =~= Seq::empty());
    assert(views(done@) =~= Seq::empty());
    while i < text.len()
        invariant
            i <= text.len(),
            (views(done@), open@) == split_state(text@.take(i as int)),
        decreases text.len() - i,
    {
        assert(text@.take(i + 1).drop_last() =~= text@.take(i as int));
        assert(text@.take(i + 1).last() == text@[i as int]);
        let c = text[i];
        if c.is_whitespace() {
            if open.len() > 0 {
                let ghost before = views(done@);
                let ghost word = open@;
                done.push(open);
                open = Vec::new();
                assert(views(done@) =~= before.push(word));
            }
        } else {
            open.push(c);
        }
        i += 1;
    }
    assert(text@.take(text@.len() as int) =~= text@);
    if open.len() > 0 {
        let ghost before = views(done@);
        let ghost word = open@;
        done.push(open);
        assert(views(done@) =~= before.push(word));
    }
    done
}

/// The words with one space between each two.
pub fn join_words(parts: &Vec<Vec<char>>) -> (out: Vec<char>)
    ensures
        out@ == joined(views(parts@)),
{
    let mut out: Vec<char> = Vec::new();
    let mut i: usize = 0;
    assert(views(parts@).take(0) =~= Seq::empty());
    while i < parts.len()
        invariant
            i <= parts.len(),
            out@ == joined(views(parts@).take(i as int)),
        decreases parts.len() - i,
    {
        let ghost prefix = views(parts@).take(i + 1);
        assert(prefix.drop_last() =~= views(parts@).take(i as int));
        assert(prefix.last() == parts[i as int]@);
        if i > 0 {
            out.push(' ');
        } else {
            assert(prefix[0] == parts[0]@);
        }
        push_all(&mut out, parts[i].as_slice());
        assert(out@ =~= joined(prefix));
        i += 1;
    }
    assert(views(parts@).take(parts.len() as int) =~= views(parts@));
    out
}

/// The characters with every run of whitespace collapsed to one space.
pub fn collapse_chars(text: &[char]) -> (out: Vec<char>)
    ensures
        out@ == collapsed(text@),
{
    let parts = split_words(text);
    join_words(&parts)
}

/// Collapses every run of whitespace to one space and trims the ends.
pub fn cleanup_whitespace(input: &str) -> (out: String)
    ensures
        out@ == collapsed(input@),
{
    let chars = to_chars(input);
    let cleaned = collapse_chars(chars.as_slice());
    from_chars(cleaned.as_slice())
}

/// The index of the first `>` at or behind `from`, or the length of the
/// text if there is none.
pub open spec fn next_close(s: Seq<char>, from: int) -> int
    decreases s.len() - from,
{
    if from < 0 || from >= s.len() {
        s.len() as int
    } else if s[from] == '>' {
        from
    } else {
        next_close(s, from + 1)
    }
}

/// Whether a markup tag begins at `at`: a `<`, at least one character that
/// is not `>`, and a `>` somewhere behind.
pub open spec fn tag_at(s: Seq<char>, at: int) -> bool {
    0 <= at && at + 1 < s.len() && s[at] == '<' && s[at + 1] != '>' && next_close(s, at + 1)
        < s.len()
}

/// The text from `from` on with every markup tag replaced by one space.
/// A tag reaches from its `<` to the first `>` behind it.
pub open spec fn strip_tags_from(s: Seq<char>, from: int) -> Seq<char>
    decreases s.len() - from,
{
    if from < 0 || from >= s.len() {
        Seq::empty()
    } else if tag_at(s, from) {
        let close = next_close(s, from + 1);
        if close > from {
            seq![' '] + strip_tags_from(s, close + 1)
        } else {
            Seq::empty()
        }
    } else {
        seq![s[from]] + strip_tags_from(s, from + 1)
    }
}

/// The text with every markup tag replaced by one space.
pub open spec fn strip_tags(s: Seq<char>) -> Seq<char> {
    strip_tags_from(s, 0)
}

/// The first `>` is not before the place the search began, and no `>`
/// stands between the two.
pub proof fn lemma_next_close(s: Seq<char>, from: int)
    requires
        0 <= from <= s.len(),
    ensures
        from <= next_close(s, from) <= s.len(),
        next_close(s, from) < s.len() ==> s[next_close(s, from)] == '>',
        forall|k: int| from <= k < next_close(s, from) ==> s[k] != '>',
    decreases s.len() - from,
{
    if from < s.len() && s[from] != '>' {
        lemma_next_close(s, from + 1);
    }
}

/// Where no `>` follows, the text stays as it is.
pub proof fn lemma_strip_tags_no_close(s: Seq<char>, from: int)
    requires
        0 <= from <= s.len(),
        forall|k: int| from <= k < s.len() ==> s[k] != '>',
    ensures
        strip_tags_from(s, from) == s.skip(from),
    decreases s.len() - from,
{
    if from < s.len() {
        lemma_next_close(s, from + 1);
        lemma_strip_tags_no_close(s, from + 1);
        assert(seq![s[from]] + s.skip(from + 1) =~= s.skip(from));
    } else {
        assert(s.skip(from) =~= Seq::empty());
    }
}

/// The characters with every markup tag replaced by one space.
pub fn strip_tags_chars(text: &[char]) -> (out: Vec<char>)
    ensures
        out@ == strip_tags(text@),
{
    let mut out: Vec<char> = Vec::new();
    let mut i: usize = 0;
    while i < text.len()
        invariant
            i <= text.len(),
            out@ + strip_tags_from(text@, i as int) == strip_tags(text@),
        decreases text.len() - i,
    {
        if text[i] == '<' && i + 1 < text.len() && text[i + 1] != '>' {
            let mut j: usize = i + 1;
            while j < text.len() && text[j] != '>'
                invariant
                    i + 1 <= j <= text.len(),
                    next_close(text@, i + 1) == next_close(text@, j as int),
                decreases text.len() - j,
            {
                j += 1;
            }
            if j < text.len() {
                let ghost before = out@;
                out.push(' ');
                assert(tag_at(text@, i as int));
                assert(before.push(' ') + strip_tags_from(text@, j + 1) =~= before + (seq![' ']
                    + strip_tags_from(text@, j + 1)));
                i = j + 1;
            } else {
                // no tag closes from here on: the rest stays as it is
                proof {
                    lemma_next_close(text@, i + 1);
                    lemma_strip_tags_no_close(text@, i as int);
                }
                let ghost before = out@;
                push_rest(&mut out, text, i);
                i = text.len();
                assert(strip_tags_from(text@, text@.len() as int) =~= Seq::empty());
            }
        } else {
            let ghost before = out@;
            out.push(text[i]);
            assert(!tag_at(text@, i as int));
            assert(before.push(text@[i as int]) + strip_tags_from(text@, i + 1) =~= before + (
            seq![text@[i as int]] + strip_tags_from(text@, i + 1)));
            i += 1;
        }
    }
    assert(strip_tags_from(text@, text@.len() as int) =~= Seq::empty());
    assert(out@ + Seq::<char>::empty() =~= out@);
    out
}

/// Appends the characters of `text` from `from` on.
fn push_rest(buf: &mut Vec<char>, text: &[char], from: usize)
    requires
        from <= text.len(),
    ensures
        final(buf)@ == old(buf)@ + text@.skip(from as int),
{
    let mut i: usize = from;
    assert(text@.subrange(from as int, from as int) =~= Seq::empty());
    while i < text.len()
        invariant
            from <= i <= text.len(),
            buf@ == old(buf)@ + text@.subrange(from as int, i as int),
        decreases text.len() - i,
    {
        buf.push(text[i]);
        assert(text@.subrange(from as int, i + 1) =~= text@.subrange(from as int, i as int).push(
            text@[i as int],
        ));
        i += 1;
    }
    assert(text@.subrange(from as int, text@.len() as int) =~= text@.skip(from as int));
}

/// Replaces every markup tag by one space.
pub fn strip_xml_tags(input: &str) -> (out: String)
    ensures
        out@ == strip_tags(input@),
{
    let chars = to_chars(input);
    let stripped = strip_tags_chars(chars.as_slice());
    from_chars(stripped.as_slice())
}

/// A character that stands for damaged or binary content: the replacement
/// character, or a control code other than tab, line feed and carriage return.
pub open spec fn is_artifact(c: char) -> bool {
    c == '\u{FFFD}' || (is_control_code(c) && c != '\n' && c != '\r' && c != '\t')
}

/// The text with every artefact character replaced by one space.
pub open spec fn without_artifacts(s: Seq<char>) -> Seq<char> {
    Seq::new(s.len(), |i: int| if is_artifact(s[i]) { ' ' } else { s[i] })
}

/// The characters with every artefact replaced by one space.
pub fn strip_artifact_chars(text: &[char]) -> (out: Vec<char>)
    ensures
        out@ == without_artifacts(text@),
{
    let mut out: Vec<char> = Vec::new();
    let mut i: usize = 0;
    while i < text.len()
        invariant
            i <= text.len(),
            out@ == without_artifacts(text@).take(i as int),
        decreases text.len() - i,
    {
        let c = text[i];
        let artifact = c == '\u{FFFD}' || (c.is_control() && c != '\n' && c != '\r' && c != '\t');
        if artifact {
            out.push(' ');
        } else {
            out.push(c);
        }
        assert(out@ =~= without_artifacts(text@).take(i + 1));
        i += 1;
    }
    assert(without_artifacts(text@).take(text@.len() as int) =~= without_artifacts(text@));
    out
}

/// Replaces the replacement character and control codes, but for tab,
/// line feed and carriage return, by spaces.
pub fn strip_binary_artifacts(input: &str) -> (out: String)
    ensures
        out@ == without_artifacts(input@),
{
    let chars = to_chars(input);
    let cleaned = strip_artifact_chars(chars.as_slice());
    from_chars(cleaned.as_slice())
}

/// A letter of the basic Latin alphabet.
pub open spec fn is_ascii_letter(c: char) -> bool {
    ('a' <= c && c <= 'z') || ('A' <= c && c <= 'Z')
}

/// A capital letter of the basic Latin alphabet.
pub open spec fn is_ascii_upper(c: char) -> bool {
    'A' <= c && c <= 'Z'
}

/// One of the digits `0` to `9`.
pub open spec fn is_ascii_digit(c: char) -> bool {
    '0' <= c && c <= '9'
}

/// Whether the character is a letter of the basic Latin alphabet.
pub fn ascii_letter(c: char) -> (b: bool)
    ensures
        b == is_ascii_letter(c),
{
    (c >= 'a' && c <= 'z') || (c >= 'A' && c <= 'Z')
}

/// Whether the character is one of the digits `0` to `9`.
pub fn ascii_digit(c: char) -> (b: bool)
    ensures
        b == is_ascii_digit(c),
{
    c >= '0' && c <= '9'
}

/// The text without its round brackets.
pub open spec fn without_parens(s: Seq<char>) -> Seq<char>
    decreases s.len(),
{
    if s.len() == 0 {
        Seq::empty()
    } else if s.last() == '(' || s.last() == ')' {
        without_parens(s.drop_last())
    } else {
        without_parens(s.drop_last()).push(s.last())
    }
}

/// Whether the text holds a letter of the basic Latin alphabet.
pub open spec fn has_ascii_letter(s: Seq<char>) -> bool {
    exists|i: int| 0 <= i < s.len() && is_ascii_letter(#[trigger] s[i])
}

/// Whether every character of the text is a digit.
pub open spec fn all_digits(s: Seq<char>) -> bool {
    forall|i: int| 0 <= i < s.len() ==> is_ascii_digit(#[trigger] s[i])
}

/// The names of shapes, placeholders and fonts that presentation files
/// carry and that say nothing of their content.
pub open spec fn is_noise_word(lowered: Seq<char>) -> bool {
    ||| lowered == "rectangle"@
    ||| lowered == "title"@
    ||| lowered == "subtitle"@
    ||| lowered == "body"@
    ||| lowered == "outline"@
    ||| lowered == "placeholder"@
    ||| lowered == "arial"@
    ||| lowered == "calibri"@
    ||| lowered == "bold"@
    ||| lowered == "italic"@
    ||| lowered == "regular"@
}

/// A locale code: two letters, a dash, two letters.
pub open spec fn is_locale_code(s: Seq<char>) -> bool {
    s.len() == 5 && is_ascii_letter(s[0]) && is_ascii_letter(s[1]) && s[2] == '-'
        && is_ascii_letter(s[3]) && is_ascii_letter(s[4])
}

/// The prefix followed by digits only, and by at least `least` of them.
pub open spec fn is_numbered(s: Seq<char>, prefix: Seq<char>, least: nat) -> bool {
    s.len() >= prefix.len() + least && s.take(prefix.len() as int) == prefix && all_digits(
        s.skip(prefix.len() as int),
    )
}

/// Whether a word without its brackets, given with its lowercase form, is
/// noise: it has no letter of the basic Latin alphabet, or its lowercase
/// form is a noise word, a locale code, `latin-` with digits, or `slide`
/// or `text` with or without digits.
pub open spec fn is_noise_lowered(stripped: Seq<char>, lowered: Seq<char>) -> bool {
    ||| !has_ascii_letter(stripped)
    ||| is_noise_word(lowered)
    ||| is_locale_code(lowered)
    ||| is_numbered(lowered, "latin-"@, 1)
    ||| is_numbered(lowered, "slide"@, 0)
    ||| is_numbered(lowered, "text"@, 0)
}

/// Whether a word is noise.
pub open spec fn is_noise(token: Seq<char>) -> bool {
    is_noise_lowered(without_parens(token), lowercase_of(without_parens(token)))
}

/// The words that are not noise.
pub open spec fn without_noise(parts: Seq<Seq<char>>) -> Seq<Seq<char>>
    decreases parts.len(),
{
    if parts.len() == 0 {
        Seq::empty()
    } else if is_noise(parts.last()) {
        without_noise(parts.drop_last())
    } else {
        without_noise(parts.drop_last()).push(parts.last())
    }
}

/// The words of the text that are not noise, with one space between each two.
pub open spec fn noise_filtered(s: Seq<char>) -> Seq<char> {
    joined(without_noise(words(s)))
}

/// The characters without the round brackets.
fn drop_parens(token: &[char]) -> (out: Vec<char>)
    ensures
        out@ == without_parens(token@),
{
    let mut out: Vec<char> = Vec::new();
    let mut i: usize = 0;
    assert(token@.take(0) =~= Seq::empty());
    while i < token.len()
        invariant
            i <= token.len(),
            out@ == without_parens(token@.take(i as int)),
        decreases token.len() - i,
    {
        assert(token@.take(i + 1).drop_last() =~= token@.take(i as int));
        if token[i] != '(' && token[i] != ')' {
            out.push(token[i]);
        }
        i += 1;
    }
    assert(token@.take(token@.len() as int) =~= token@);
    out
}

/// Whether the characters hold a letter of the basic Latin alphabet.
fn any_ascii_letter(text: &[char]) -> (found: bool)
    ensures
        found == has_ascii_letter(text@),
{
    let mut i: usize = 0;
    while i < text.len()
        invariant
            i <= text.len(),
            forall|k: int| 0 <= k < i ==> !is_ascii_letter(text@[k]),
        decreases text.len() - i,
    {
        if ascii_letter(text[i]) {
            return true;
        }
        i += 1;
    }
    false
}

/// Whether the characters are `prefix` followed by at least `least` digits
/// and nothing else.
fn numbered(text: &[char], prefix: &str, least: usize) -> (matched: bool)
    requires
        least <= 1,
    ensures
        matched == is_numbered(text@, prefix@, least as nat),
{
    let head = to_chars(prefix);
    if text.len() < head.len() || text.len() - head.len() < least {
        return false;
    }
    let mut i: usize = 0;
    while i < head.len()
        invariant
            i <= head.len() <= text.len(),
            head@ == prefix@,
            text@.take(i as int) == head@.take(i as int),
        decreases head.len() - i,
    {
        if text[i] != head[i] {
            assert(text@.take(head@.len() as int)[i as int] == text@[i as int]);
            return false;
        }
        assert(text@.take(i + 1) =~= text@.take(i as int).push(text@[i as int]));
        assert(head@.take(i + 1) =~= head@.take(i as int).push(head@[i as int]));
        i += 1;
    }
    assert(head@.take(head@.len() as int) =~= head@);
    let mut j: usize = head.len();
    while j < text.len()
        invariant
            head.len() <= j <= text.len(),
            head@ == prefix@,
            forall|k: int| head.len() <= k < j ==> is_ascii_digit(text@[k]),
        decreases text.len() - j,
    {
        if !ascii_digit(text[j]) {
            let ghost tail = text@.skip(head.len() as int);
            assert(tail[j - head.len()] == text@[j as int]);
            assert(!is_ascii_digit(tail[j - head.len()]));
            return false;
        }
        j += 1;
    }
    assert forall|k: int| 0 <= k < text@.skip(head.len() as int).len() implies is_ascii_digit(
        #[trigger] text@.skip(head.len() as int)[k],
    ) by {
        assert(text@.skip(head.len() as int)[k] == text@[k + head.len()]);
    }
    true
}

/// Whether the lowercase form is one of the noise words.
fn noise_word(lowered: &[char]) -> (found: bool)
    ensures
        found == is_noise_word(lowered@),
{
    same_chars(lowered, to_chars("rectangle").as_slice()) || same_chars(
        lowered,
        to_chars("title").as_slice(),
    ) || same_chars(lowered, to_chars("subtitle").as_slice()) || same_chars(
        lowered,
        to_chars("body").as_slice(),
    ) || same_chars(lowered, to_chars("outline").as_slice()) || same_chars(
        lowered,
        to_chars("placeholder").as_slice(),
    ) || same_chars(lowered, to_chars("arial").as_slice()) || same_chars(
        lowered,
        to_chars("calibri").as_slice(),
    ) || same_chars(lowered, to_chars("bold").as_slice()) || same_chars(
        lowered,
        to_chars("italic").as_slice(),
    ) || same_chars(lowered, to_chars("regular").as_slice())
}

/// Whether a word without its brackets, given with its lowercase form, is noise.
pub fn is_noise_given_lowercase(stripped: &[char], lowered: &[char]) -> (noise: bool)
    ensures
        noise == is_noise_lowered(stripped@, lowered@),
{
    if !any_ascii_letter(stripped) {
        return true;
    }
    if noise_word(lowered) {
        return true;
    }
    let locale = lowered.len() == 5 && ascii_letter(lowered[0]) && ascii_letter(lowered[1])
        && lowered[2] == '-' && ascii_letter(lowered[3]) && ascii_letter(lowered[4]);
    locale || numbered(lowered, "latin-", 1) || numbered(lowered, "slide", 0) || numbered(
        lowered,
        "text",
        0,
    )
}

/// Whether a word of characters is noise.
pub fn is_noise_chars(token: &[char]) -> (noise: bool)
    ensures
        noise == is_noise(token@),
{
    let stripped = drop_parens(token);
    let text = from_chars(stripped.as_slice());
    let lowered = to_chars(text.as_str().to_lowercase().as_str());
    is_noise_given_lowercase(stripped.as_slice(), lowered.as_slice())
}

/// Whether a word is noise: a word without a letter, a name of a shape,
/// placeholder or font, a locale code, or a numbered placeholder name.
pub fn is_noise_token(token: &str) -> (noise: bool)
    ensures
        noise == is_noise(token@),
{
    let chars = to_chars(token);
    is_noise_chars(chars.as_slice())
}

/// The words of the characters that are not noise, with one space between each two.
pub fn filter_noise_chars(text: &[char]) -> (out: Vec<char>)
    ensures
        out@ == noise_filtered(text@),
{
    let parts = split_words(text);
    let mut kept: Vec<Vec<char>> = Vec::new();
    let mut i: usize = 0;
    assert(views(parts@).take(0) =~= Seq::empty());
    assert(views(kept@) =~= Seq::empty());
    while i < parts.len()
        invariant
            i <= parts.len(),
            views(kept@) == without_noise(views(parts@).take(i as int)),
        decreases parts.len() - i,
    {
        let ghost prefix = views(parts@).take(i + 1);
        assert(prefix.drop_last() =~= views(parts@).take(i as int));
        assert(prefix.last() == parts[i as int]@);
        if !is_noise_chars(parts[i].as_slice()) {
            let ghost before = views(kept@);
            kept.push(parts[i].clone());
            assert(views(kept@) =~= before.push(parts[i as int]@));
        }
        i += 1;
    }
    assert(views(parts@).take(parts.len() as int) =~= views(parts@));
    join_words(&kept)
}

/// Drops the noise words and joins the others by single spaces.
pub fn filter_noise_tokens(input: &str) -> (out: String)
    ensures
        out@ == noise_filtered(input@),
{
    let chars = to_chars(input);
    let kept = filter_noise_chars(chars.as_slice());
    from_chars(kept.as_slice())
}

/// The four cleaning steps in their order: tags, artefacts, noise words, whitespace.
pub open spec fn normalized(s: Seq<char>) -> Seq<char> {
    collapsed(noise_filtered(without_artifacts(strip_tags(s))))
}

/// The characters after the four cleaning steps.
pub fn normalize_chars(text: &[char]) -> (out: Vec<char>)
    ensures
        out@ == normalized(text@),
{
    let stripped = strip_tags_chars(text);
    let sanitized = strip_artifact_chars(stripped.as_slice());
    let filtered = filter_noise_chars(sanitized.as_slice());
    collapse_chars(filtered.as_slice())
}

/// The most characters a snippet holds.
pub const MAX_SNIPPET_LENGTH: usize = 240;

/// The first 240 characters of the text, or all of it if it has no more.
pub open spec fn snippet_of(s: Seq<char>) -> Seq<char> {
    if s.len() <= MAX_SNIPPET_LENGTH {
        s
    } else {
        s.take(MAX_SNIPPET_LENGTH as int)
    }
}

/// The first 240 characters, or all of them if there are no more.
pub fn truncate_chars(text: &[char]) -> (out: Vec<char>)
    ensures
        out@ == snippet_of(text@),
        out@.len() <= MAX_SNIPPET_LENGTH,
{
    let mut out: Vec<char> = Vec::new();
    let mut i: usize = 0;
    while i < text.len() && i < MAX_SNIPPET_LENGTH
        invariant
            i <= text.len(),
            i <= MAX_SNIPPET_LENGTH,
            out@ == text@.take(i as int),
        decreases text.len() - i,
    {
        out.push(text[i]);
        assert(text@.take(i + 1) =~= text@.take(i as int).push(text@[i as int]));
        i += 1;
    }
    assert(text@.take(text@.len() as int) =~= text@);
    out
}

/// Cuts a text down to a snippet of at most 240 characters.
pub fn truncate_snippet(text: &str) -> (out: String)
    ensures
        out@ == snippet_of(text@),
        out@.len() <= MAX_SNIPPET_LENGTH,
{
    let chars = to_chars(text);
    let kept = truncate_chars(chars.as_slice());
    from_chars(kept.as_slice())
}

/// The number of bytes of a character in UTF-8.
pub open spec fn utf8_width(c: char) -> nat {
    if (c as u32) < 0x80 {
        1
    } else if (c as u32) < 0x800 {
        2
    } else if (c as u32) < 0x10000 {
        3
    } else {
        4
    }
}

/// What the judgement of a text counts, over its characters that are not
/// whitespace: their bytes in UTF-8, the letters of the basic Latin
/// alphabet among them, and the capital letters among those.
pub struct TextCounts {
    pub bytes: nat,
    pub letters: nat,
    pub capitals: nat,
}

/// The counts of a text.
pub open spec fn counts_of(s: Seq<char>) -> TextCounts
    decreases s.len(),
{
    if s.len() == 0 {
        TextCounts { bytes: 0, letters: 0, capitals: 0 }
    } else {
        let front = counts_of(s.drop_last());
        let c = s.last();
        if is_space(c) {
            front
        } else {
            TextCounts {
                bytes: front.bytes + utf8_width(c),
                letters: front.letters + if is_ascii_letter(c) { 1nat } else { 0nat },
                capitals: front.capitals + if is_ascii_upper(c) { 1nat } else { 0nat },
            }
        }
    }
}

/// The number of words longer than 40 characters.
pub open spec fn long_words(parts: Seq<Seq<char>>) -> nat
    decreases parts.len(),
{
    if parts.len() == 0 {
        0
    } else {
        long_words(parts.drop_last()) + if parts.last().len() > 40 { 1nat } else { 0nat }
    }
}

/// Whether a text is too noisy to pass for language. A text of fewer than
/// 40 bytes outside of whitespace is never judged so. A longer one is, if
/// it has no letter, if fewer than 35 in 100 of its bytes are letters, if
/// it has more than 80 letters and more than 9 in 10 are capitals, or if
/// more than two of its words are longer than 40 characters.
pub open spec fn gibberish(s: Seq<char>) -> bool {
    let counts = counts_of(s);
    counts.bytes >= 40 && {
        ||| counts.letters == 0
        ||| 20 * counts.letters < 7 * counts.bytes
        ||| (counts.letters > 80 && 10 * counts.capitals > 9 * counts.letters)
        ||| long_words(words(s)) > 2
    }
}

/// The counts are bounded by the length of the text.
proof fn lemma_counts_bound(s: Seq<char>)
    ensures
        counts_of(s).bytes <= 4 * s.len(),
        counts_of(s).letters <= s.len(),
        counts_of(s).capitals <= counts_of(s).letters,
    decreases s.len(),
{
    if s.len() > 0 {
        lemma_counts_bound(s.drop_last());
    }
}

/// Whether the characters are too noisy to pass for language.
pub fn is_gibberish_chars(text: &[char]) -> (noisy: bool)
    ensures
        noisy == gibberish(text@),
{
    let mut bytes: u128 = 0;
    let mut letters: u128 = 0;
    let mut capitals: u128 = 0;
    let mut i: usize = 0;
    assert(text@.take(0) =~= Seq::empty());
    while i < text.len()
        invariant
            i <= text.len(),
            bytes == counts_of(text@.take(i as int)).bytes,
            letters == counts_of(text@.take(i as int)).letters,
            capitals == counts_of(text@.take(i as int)).capitals,
        decreases text.len() - i,
    {
        assert(text@.take(i + 1).drop_last() =~= text@.take(i as int));
        assert(text@.take(i + 1).last() == text@[i as int]);
        proof {
            lemma_counts_bound(text@.take(i as int));
        }
        let c = text[i];
        if !c.is_whitespace() {
            let code = c as u32;
            let width: u128 = if code < 0x80 {
                1
            } else if code < 0x800 {
                2
            } else if code < 0x10000 {
                3
            } else {
                4
            };
            bytes = bytes + width;
            if ascii_letter(c) {
                letters = letters + 1;
            }
            if c >= 'A' && c <= 'Z' {
                capitals = capitals + 1;
            }
        }
        i += 1;
    }
    assert(text@.take(text@.len() as int) =~= text@);
    proof {
        lemma_counts_bound(text@);
    }
    if bytes < 40 {
        return false;
    }
    if letters == 0 || 20 * letters < 7 * bytes {
        return true;
    }
    if letters > 80 && 10 * capitals > 9 * letters {
        return true;
    }
    let parts = split_words(text);
    let mut long: usize = 0;
    let mut k: usize = 0;
    assert(views(parts@).take(0) =~= Seq::empty());
    while k < parts.len()
        invariant
            k <= parts.len(),
            long == long_words(views(parts@).take(k as int)),
            long <= k,
        decreases parts.len() - k,
    {
        let ghost prefix = views(parts@).take(k + 1);
        assert(prefix.drop_last() =~= views(parts@).take(k as int));
        assert(prefix.last() == parts[k as int]@);
        if parts[k].len() > 40 {
            long = long + 1;
        }
        k += 1;
    }
    assert(views(parts@).take(parts.len() as int) =~= views(parts@));
    long > 2
}

/// Whether a text is too noisy to pass for language.
pub fn is_gibberish(text: &str) -> (noisy: bool)
    ensures
        noisy == gibberish(text@),
{
    let chars = to_chars(text);
    is_gibberish_chars(chars.as_slice())
}

/// A letter of the basic Latin alphabet or a digit.
pub open spec fn is_ascii_alphanumeric(c: char) -> bool {
    is_ascii_letter(c) || is_ascii_digit(c)
}

/// The number of bytes of a text in UTF-8.
pub open spec fn utf8_len(s: Seq<char>) -> nat
    decreases s.len(),
{
    if s.len() == 0 {
        0
    } else {
        utf8_len(s.drop_last()) + utf8_width(s.last())
    }
}

/// Whether a text, once trimmed, is worth showing: it is not empty, and
/// it is shorter than 12 bytes and holds a letter or a digit, or else it
/// is not gibberish.
pub open spec fn meaningful(s: Seq<char>) -> bool {
    let t = trimmed(s);
    t.len() > 0 && ((utf8_len(t) < 12 && exists|i: int|
        0 <= i < t.len() && is_ascii_alphanumeric(#[trigger] t[i])) || !gibberish(t))
}

/// Whether the characters, once trimmed, are worth showing.
pub fn has_meaningful_chars(text: &[char]) -> (worth: bool)
    ensures
        worth == meaningful(text@),
{
    let kept = trim_chars(text);
    if kept.len() == 0 {
        return false;
    }
    // a text of 12 characters or more has 12 bytes or more
    let mut size: usize = 0;
    let mut i: usize = 0;
    let mut found = false;
    assert(kept@.take(0) =~= Seq::empty());
    while i < kept.len() && size < 12
        invariant
            i <= kept.len(),
            size == utf8_len(kept@.take(i as int)),
            size <= 15,
            found == exists|k: int| 0 <= k < i && is_ascii_alphanumeric(#[trigger] kept@[k]),
        decreases kept.len() - i,
    {
        assert(kept@.take(i + 1).drop_last() =~= kept@.take(i as int));
        assert(kept@.take(i + 1).last() == kept@[i as int]);
        let c = kept[i];
        let code = c as u32;
        let width: usize = if code < 0x80 {
            1
        } else if code < 0x800 {
            2
        } else if code < 0x10000 {
            3
        } else {
            4
        };
        size = size + width;
        if ascii_letter(c) || ascii_digit(c) {
            found = true;
        }
        i += 1;
    }
    if size < 12 {
        assert(kept@.take(kept@.len() as int) =~= kept@);
        if found {
            return true;
        }
    }
    proof {
        lemma_utf8_len_prefix(kept@, i as int);
    }
    !is_gibberish_chars(kept.as_slice())
}

/// A prefix has no more bytes than the whole.
proof fn lemma_utf8_len_prefix(s: Seq<char>, n: int)
    requires
        0 <= n <= s.len(),
    ensures
        utf8_len(s.take(n)) <= utf8_len(s),
    decreases s.len() - n,
{
    if n == s.len() {
        assert(s.take(n) =~= s);
    } else {
        assert(s.drop_last().take(n) =~= s.take(n));
        lemma_utf8_len_prefix(s.drop_last(), n);
    }
}

/// Whether a text, once trimmed, is worth showing.
pub fn has_meaningful_text(text: &str) -> (worth: bool)
    ensures
        worth == meaningful(text@),
{
    let chars = to_chars(text);
    has_meaningful_chars(chars.as_slice())
}

} // verus!
