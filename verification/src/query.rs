//! Queries: a raw query is taken apart into required phrases, required
//! plain terms and required wildcard patterns, and an item matches if its
//! searchable text holds all of them.

use regex::RegexBuilder;
use vstd::prelude::*;
use vstd::slice::slice_subrange;
use crate::chars::{
    contains_text, from_chars, has_text, is_space, lowercase_of, push_all, to_chars, trim_chars,
    trimmed,
};
use crate::models::{ItemView, SlideIndexItem};
use crate::text::{join_words, joined, views};

verus! {

/// A character that has a meaning of its own in a regular expression.
pub open spec fn is_meta_char(c: char) -> bool {
    ||| c == '\\'
    ||| c == '.'
    ||| c == '+'
    ||| c == '*'
    ||| c == '?'
    ||| c == '('
    ||| c == ')'
    ||| c == '|'
    ||| c == '['
    ||| c == ']'
    ||| c == '{'
    ||| c == '}'
    ||| c == '^'
    ||| c == '$'
    ||| c == '#'
    ||| c == '&'
    ||| c == '-'
    ||| c == '~'
}

/// The text with a backslash before each of its characters that has a
/// meaning of its own in a regular expression.
pub open spec fn escaped(s: Seq<char>) -> Seq<char>
    decreases s.len(),
{
    if s.len() == 0 {
        Seq::empty()
    } else if is_meta_char(s.last()) {
        escaped(s.drop_last()) + seq!['\\', s.last()]
    } else {
        escaped(s.drop_last()).push(s.last())
    }
}

/// Calls `regex::escape` of the `regex` crate: the result is the text with
/// a backslash before every character that has a meaning of its own in a
/// regular expression.
#[verifier::external_body]
fn regex_escape(text: &str) -> (out: String)
    ensures
        out@ == escaped(text@),
{
    regex::escape(text)
}

/// Builds a regular expression with the `regex` crate's `RegexBuilder`,
/// without regard to case and with the dot matching line feeds too, and
/// says whether it could be built. Whether a pattern can be built depends
/// on limits of the crate; nothing is promised of the answer.
#[verifier::external_body]
fn wildcard_compiles(source: &str) -> (built: bool) {
    RegexBuilder::new(source).case_insensitive(true).dot_matches_new_line(true).build().is_ok()
}

/// Whether the regular expression `source`, read without regard to case
/// and with the dot matching line feeds too, matches somewhere in `text`,
/// as the `regex` crate's `Regex::is_match` tells it.
pub uninterp spec fn wildcard_found(source: Seq<char>, text: Seq<char>) -> bool;

/// Builds a regular expression as `wildcard_compiles` does and calls
/// `Regex::is_match` on it: where the expression could be built, the
/// result says whether it matches somewhere in the text, which this crate
/// calls `wildcard_found`; where it could not, there is no result.
#[verifier::external_body]
fn wildcard_is_match(source: &str, text: &str) -> (out: Option<bool>)
    ensures
        out is Some ==> out == Some(wildcard_found(source@, text@)),
{
    match RegexBuilder::new(source).case_insensitive(true).dot_matches_new_line(true).build() {
        Ok(built) => Some(built.is_match(text)),
        Err(_) => None,
    }
}

/// The wildcard pattern as the middle of a regular expression: `*` stands
/// for any run of characters, `?` for any one character, and every other
/// character for itself.
pub open spec fn glob_converted(pattern: Seq<char>) -> Seq<char>
    decreases pattern.len(),
{
    if pattern.len() == 0 {
        Seq::empty()
    } else if pattern.last() == '*' {
        glob_converted(pattern.drop_last()) + seq!['.', '*']
    } else if pattern.last() == '?' {
        glob_converted(pattern.drop_last()).push('.')
    } else {
        glob_converted(pattern.drop_last()) + escaped(seq![pattern.last()])
    }
}

/// The regular expression of a wildcard pattern: it may match anywhere
/// within a text.
pub open spec fn wildcard_source(pattern: Seq<char>) -> Seq<char> {
    seq!['.', '*'] + glob_converted(pattern) + seq!['.', '*']
}

/// The regular expression of a wildcard pattern.
pub fn wildcard_pattern(pattern: &[char]) -> (out: Vec<char>)
    ensures
        out@ == wildcard_source(pattern@),
{
    let mut out: Vec<char> = Vec::new();
    out.push('.');
    out.push('*');
    let ghost head = out@;
    let mut i: usize = 0;
    assert(pattern@.take(0) =~= Seq::empty());
    assert(head + Seq::<char>::empty() =~= head);
    while i < pattern.len()
        invariant
            i <= pattern.len(),
            head == seq!['.', '*'],
            out@ == head + glob_converted(pattern@.take(i as int)),
        decreases pattern.len() - i,
    {
        let ghost before = glob_converted(pattern@.take(i as int));
        assert(pattern@.take(i + 1).drop_last() =~= pattern@.take(i as int));
        assert(pattern@.take(i + 1).last() == pattern@[i as int]);
        let c = pattern[i];
        if c == '*' {
            out.push('.');
            out.push('*');
            assert(out@ =~= head + (before + seq!['.', '*']));
        } else if c == '?' {
            out.push('.');
            assert(out@ =~= head + before.push('.'));
        } else {
            let mut single = String::new();
            single.push(c);
            assert(single@ =~= seq![c]);
            let safe = regex_escape(single.as_str());
            let chars = to_chars(safe.as_str());
            push_all(&mut out, chars.as_slice());
            assert(out@ =~= head + (before + escaped(seq![c])));
        }
        i += 1;
    }
    assert(pattern@.take(pattern@.len() as int) =~= pattern@);
    out.push('.');
    out.push('*');
    assert(out@ =~= wildcard_source(pattern@));
    out
}

/// The regular expression of a wildcard pattern, if the pattern is not
/// empty and the expression can be built.
pub fn wildcard_to_regex(pattern: &str) -> (out: Option<String>)
    ensures
        out matches Some(source) ==> pattern@.len() > 0 && source@ == wildcard_source(pattern@),
        pattern@.len() == 0 ==> out is None,
{
    let chars = to_chars(pattern);
    if chars.len() == 0 {
        return None;
    }
    let source = wildcard_pattern(chars.as_slice());
    let text = from_chars(source.as_slice());
    let builds = wildcard_compiles(text.as_str());
    wildcard_regex_if_built(text, builds)
}

/// What becomes of the regular expression of a wildcard once it is known
/// whether it builds: it is kept if it does, and left out if it does not.
pub fn wildcard_regex_if_built(source: String, builds: bool) -> (out: Option<String>)
    ensures
        out.deep_view() == if builds {
            Some(source@)
        } else {
            None
        },
{
    if builds {
        Some(source)
    } else {
        None
    }
}

/// A piece of a raw query: the inside of a pair of double quotes, or a
/// run of characters that are not whitespace.
pub enum QueryToken {
    Quoted(Seq<char>),
    Word(Seq<char>),
}

/// The first index at or behind `at` whose character is a double quote.
pub open spec fn next_quote(s: Seq<char>, at: int) -> int
    decreases s.len() - at,
{
    if at < 0 || at >= s.len() || s[at] == '"' {
        at
    } else {
        next_quote(s, at + 1)
    }
}

/// The first index at or behind `at` whose character is whitespace.
pub open spec fn word_end(s: Seq<char>, at: int) -> int
    decreases s.len() - at,
{
    if at < 0 || at >= s.len() || is_space(s[at]) {
        at
    } else {
        word_end(s, at + 1)
    }
}

/// Whether a quoted span begins at `at`: a double quote, at least one
/// character that is none, and a double quote.
pub open spec fn quoted_at(s: Seq<char>, at: int) -> bool {
    0 <= at && at < s.len() && s[at] == '"' && at + 1 < next_quote(s, at + 1) && next_quote(
        s,
        at + 1,
    ) < s.len()
}

/// The pieces of a query from `at` on. A quoted span is taken before a
/// word; a double quote that opens no quoted span belongs to a word.
pub open spec fn query_tokens_from(s: Seq<char>, at: int) -> Seq<QueryToken>
    decreases s.len() - at,
{
    if at < 0 || at >= s.len() {
        Seq::empty()
    } else if quoted_at(s, at) {
        let close = next_quote(s, at + 1);
        seq![QueryToken::Quoted(s.subrange(at + 1, close))] + query_tokens_from(s, close + 1)
    } else if !is_space(s[at]) {
        let end = word_end(s, at + 1);
        if at < end && end <= s.len() {
            seq![QueryToken::Word(s.subrange(at, end))] + query_tokens_from(s, end)
        } else {
            Seq::empty()
        }
    } else {
        query_tokens_from(s, at + 1)
    }
}

/// Whether a word is a wildcard pattern: it holds a `*` or a `?`.
pub open spec fn is_wildcard(word: Seq<char>) -> bool {
    exists|i: int| 0 <= i < word.len() && (#[trigger] word[i] == '*' || word[i] == '?')
}

/// View of a [`ParsedQuery`].
pub struct ParsedView {
    pub phrases: Seq<Seq<char>>,
    pub terms: Seq<Seq<char>>,
    pub wildcards: Seq<Seq<char>>,
}

impl ParsedView {
    /// A query without any requirement.
    pub open spec fn empty() -> ParsedView {
        ParsedView { phrases: Seq::empty(), terms: Seq::empty(), wildcards: Seq::empty() }
    }

    /// The requirements with that of one more piece: a quoted span gives a
    /// phrase, trimmed and in lowercase, unless it is empty then; a word
    /// with `*` or `?` gives the regular expression of a wildcard; any
    /// other word gives a term in lowercase.
    pub open spec fn with_token(self, token: QueryToken) -> ParsedView {
        match token {
            QueryToken::Quoted(inner) => {
                let phrase = lowercase_of(trimmed(inner));
                if phrase.len() > 0 {
                    ParsedView { phrases: self.phrases.push(phrase), ..self }
                } else {
                    self
                }
            },
            QueryToken::Word(word) => {
                let value = trimmed(word);
                if value.len() == 0 {
                    self
                } else if is_wildcard(value) {
                    ParsedView { wildcards: self.wildcards.push(wildcard_source(value)), ..self }
                } else {
                    ParsedView { terms: self.terms.push(lowercase_of(value)), ..self }
                }
            },
        }
    }
}

/// The requirements of the pieces, in their order.
pub open spec fn requirements(tokens: Seq<QueryToken>) -> ParsedView
    decreases tokens.len(),
{
    if tokens.len() == 0 {
        ParsedView::empty()
    } else {
        requirements(tokens.drop_last()).with_token(tokens.last())
    }
}

/// What a raw query asks for.
pub open spec fn parsed_query(raw: Seq<char>) -> ParsedView {
    requirements(query_tokens_from(raw, 0))
}

/// What a raw query asks for: the phrases and terms in lowercase, and the
/// regular expressions of its wildcard patterns.
#[derive(Debug)]
pub struct ParsedQuery {
    pub phrases: Vec<String>,
    pub terms: Vec<String>,
    pub wildcards: Vec<String>,
}

impl View for ParsedQuery {
    type V = ParsedView;

    open spec fn view(&self) -> ParsedView {
        ParsedView {
            phrases: self.phrases.deep_view(),
            terms: self.terms.deep_view(),
            wildcards: self.wildcards.deep_view(),
        }
    }
}

/// The requirements are those of the first pieces with those of the rest.
proof fn lemma_requirements_step(done: Seq<QueryToken>, token: QueryToken, rest: Seq<QueryToken>)
    ensures
        requirements(done.push(token)) == requirements(done).with_token(token),
        (done + (seq![token] + rest)) == done.push(token) + rest,
{
    assert(done.push(token).drop_last() =~= done);
    assert((done + (seq![token] + rest)) =~= done.push(token) + rest);
}

/// Whether the characters hold a `*` or a `?`.
fn holds_wildcard(word: &[char]) -> (found: bool)
    ensures
        found == is_wildcard(word@),
{
    let mut i: usize = 0;
    while i < word.len()
        invariant
            i <= word.len(),
            forall|k: int| 0 <= k < i ==> !(word@[k] == '*' || word@[k] == '?'),
        decreases word.len() - i,
    {
        if word[i] == '*' || word[i] == '?' {
            return true;
        }
        i += 1;
    }
    false
}

/// The lowercase form of the characters.
fn lowercase_chars(text: &[char]) -> (out: String)
    ensures
        out@ == lowercase_of(text@),
{
    let owned = from_chars(text);
    owned.as_str().to_lowercase()
}

/// Takes a raw query apart: quoted spans become phrases, words with `*`
/// or `?` wildcard patterns, all other words terms.
pub fn parse_query(raw: &str) -> (parsed: ParsedQuery)
    ensures
        parsed@ == parsed_query(raw@),
{
    let text = to_chars(raw);
    let mut parsed = ParsedQuery { phrases: Vec::new(), terms: Vec::new(), wildcards: Vec::new() };
    let ghost mut done: Seq<QueryToken> = Seq::empty();
    let mut at: usize = 0;
    assert(parsed@ =~= ParsedView::empty()) by {
        assert(parsed.phrases.deep_view() =~= Seq::empty());
        assert(parsed.terms.deep_view() =~= Seq::empty());
        assert(parsed.wildcards.deep_view() =~= Seq::empty());
    }
    assert(done + query_tokens_from(text@, 0) =~= query_tokens_from(text@, 0));
    while at < text.len()
        invariant
            at <= text.len(),
            text@ == raw@,
            parsed@ == requirements(done),
            done + query_tokens_from(text@, at as int) == query_tokens_from(text@, 0),
        decreases text.len() - at,
    {
        let ghost phrases_before = parsed.phrases.deep_view();
        let ghost terms_before = parsed.terms.deep_view();
        let ghost wildcards_before = parsed.wildcards.deep_view();
        let mut quoted = false;
        if text[at] == '"' {
            let mut close: usize = at + 1;
            while close < text.len() && text[close] != '"'
                invariant
                    at + 1 <= close <= text.len(),
                    next_quote(text@, at + 1) == next_quote(text@, close as int),
                decreases text.len() - close,
            {
                close += 1;
            }
            if close > at + 1 && close < text.len() {
                assert(quoted_at(text@, at as int));
                let inner = slice_subrange(text.as_slice(), at + 1, close);
                let kept = trim_chars(inner);
                let phrase = lowercase_chars(kept.as_slice());
                let ghost token = QueryToken::Quoted(text@.subrange(at + 1, close as int));
                proof {
                    lemma_requirements_step(done, token, query_tokens_from(text@, close + 1));
                    done = done.push(token);
                }
                if !phrase.as_str().is_empty() {
                    parsed.phrases.push(phrase);
                    assert(parsed.phrases.deep_view() =~= phrases_before.push(
                        lowercase_of(trimmed(text@.subrange(at + 1, close as int))),
                    ));
                }
                at = close + 1;
                quoted = true;
            } else {
                assert(!quoted_at(text@, at as int));
            }
        } else {
            assert(!quoted_at(text@, at as int));
        }
        if !quoted {
            if text[at].is_whitespace() {
                at += 1;
            } else {
                let mut end: usize = at + 1;
                while end < text.len() && !text[end].is_whitespace()
                    invariant
                        at + 1 <= end <= text.len(),
                        word_end(text@, at + 1) == word_end(text@, end as int),
                    decreases text.len() - end,
                {
                    end += 1;
                }
                let word = slice_subrange(text.as_slice(), at, end);
                let value = trim_chars(word);
                let ghost token = QueryToken::Word(text@.subrange(at as int, end as int));
                proof {
                    lemma_requirements_step(done, token, query_tokens_from(text@, end as int));
                    done = done.push(token);
                }
                if value.len() > 0 {
                    if holds_wildcard(value.as_slice()) {
                        let source = wildcard_pattern(value.as_slice());
                        parsed.wildcards.push(from_chars(source.as_slice()));
                        assert(parsed.wildcards.deep_view() =~= wildcards_before.push(
                            wildcard_source(trimmed(text@.subrange(at as int, end as int))),
                        ));
                    } else {
                        parsed.terms.push(lowercase_chars(value.as_slice()));
                        assert(parsed.terms.deep_view() =~= terms_before.push(
                            lowercase_of(trimmed(text@.subrange(at as int, end as int))),
                        ));
                    }
                }
                at = end;
            }
        }
    }
    assert(query_tokens_from(text@, text@.len() as int) =~= Seq::empty());
    assert(done + Seq::<QueryToken>::empty() =~= done);
    parsed
}

/// View of a [`SearchPattern`].
pub struct PatternView {
    pub terms: Seq<Seq<char>>,
    pub phrases: Seq<Seq<char>>,
    pub wildcards: Seq<Seq<char>>,
    pub is_empty: bool,
}

/// The regular expressions that were found to build.
pub open spec fn kept_wildcards(sources: Seq<Seq<char>>, built: Seq<bool>) -> Seq<Seq<char>>
    decreases sources.len(),
{
    if sources.len() == 0 {
        Seq::empty()
    } else if sources.len() <= built.len() && built[sources.len() - 1] {
        kept_wildcards(sources.drop_last(), built).push(sources.last())
    } else {
        kept_wildcards(sources.drop_last(), built)
    }
}

/// The pattern of a parsed query, given for each of its wildcards whether
/// its regular expression builds: the phrases and terms, and the wildcards
/// that build. A pattern without any of these is the empty pattern.
pub open spec fn pattern_of(parsed: ParsedView, built: Seq<bool>) -> PatternView {
    let wildcards = kept_wildcards(parsed.wildcards, built);
    PatternView {
        terms: parsed.terms,
        phrases: parsed.phrases,
        wildcards,
        is_empty: parsed.terms.len() == 0 && parsed.phrases.len() == 0 && wildcards.len() == 0,
    }
}

/// Every kept wildcard is one of the sources.
pub proof fn lemma_kept_wildcards(sources: Seq<Seq<char>>, built: Seq<bool>)
    ensures
        kept_wildcards(sources, built).len() <= sources.len(),
        forall|k: int|
            0 <= k < kept_wildcards(sources, built).len() ==> sources.contains(
                #[trigger] kept_wildcards(sources, built)[k],
            ),
    decreases sources.len(),
{
    if sources.len() > 0 {
        lemma_kept_wildcards(sources.drop_last(), built);
        let front = kept_wildcards(sources.drop_last(), built);
        assert forall|k: int| 0 <= k < kept_wildcards(sources, built).len() implies sources.contains(
            #[trigger] kept_wildcards(sources, built)[k],
        ) by {
            if k < front.len() {
                let j = choose|j: int|
                    0 <= j < sources.drop_last().len() && sources.drop_last()[j] == front[k];
                assert(sources[j] == front[k]);
            } else {
                assert(sources[sources.len() - 1] == sources.last());
            }
        }
    }
}

/// A parsed query: what a matching item has to hold.
#[derive(Debug)]
pub struct SearchPattern {
    terms: Vec<String>,
    phrases: Vec<String>,
    wildcards: Vec<String>,
    is_empty: bool,
}

impl View for SearchPattern {
    type V = PatternView;

    closed spec fn view(&self) -> PatternView {
        PatternView {
            terms: self.terms.deep_view(),
            phrases: self.phrases.deep_view(),
            wildcards: self.wildcards.deep_view(),
            is_empty: self.is_empty,
        }
    }
}

impl SearchPattern {
    /// The required terms, in lowercase.
    pub fn terms(&self) -> (terms: &Vec<String>)
        ensures
            terms.deep_view() == self@.terms,
    {
        &self.terms
    }

    /// The required phrases, in lowercase.
    pub fn phrases(&self) -> (phrases: &Vec<String>)
        ensures
            phrases.deep_view() == self@.phrases,
    {
        &self.phrases
    }

    /// The regular expressions of the required wildcards.
    pub fn wildcards(&self) -> (wildcards: &Vec<String>)
        ensures
            wildcards.deep_view() == self@.wildcards,
    {
        &self.wildcards
    }

    /// Whether the pattern asks for nothing, and so is matched by every item.
    pub fn is_empty(&self) -> (empty: bool)
        ensures
            empty == self@.is_empty,
    {
        self.is_empty
    }

    /// The pattern of a parsed query, given for each of its wildcards, in
    /// their order, whether its regular expression builds. A wildcard for
    /// which nothing is given counts as one that does not build.
    pub fn from_parts(parsed: ParsedQuery, built: &Vec<bool>) -> (pattern: SearchPattern)
        ensures
            pattern@ == pattern_of(parsed@, built@),
    {
        let ParsedQuery { phrases, terms, wildcards: sources } = parsed;
        let mut wildcards: Vec<String> = Vec::new();
        let mut i: usize = 0;
        assert(sources.deep_view().take(0) =~= Seq::empty());
        assert(wildcards.deep_view() =~= Seq::empty());
        while i < sources.len()
            invariant
                i <= sources.len(),
                wildcards.deep_view() == kept_wildcards(sources.deep_view().take(i as int), built@),
            decreases sources.len() - i,
        {
            let ghost prefix = sources.deep_view().take(i + 1);
            let ghost before = wildcards.deep_view();
            assert(prefix.drop_last() =~= sources.deep_view().take(i as int));
            assert(prefix.last() == sources[i as int]@);
            if i < built.len() && built[i] {
                wildcards.push(sources[i].clone());
                assert(wildcards.deep_view() =~= before.push(sources[i as int]@));
            }
            i += 1;
        }
        assert(sources.deep_view().take(sources.len() as int) =~= sources.deep_view());
        let is_empty = terms.len() == 0 && phrases.len() == 0 && wildcards.len() == 0;
        SearchPattern { terms, phrases, wildcards, is_empty }
    }

    /// Parses a raw query. The phrases and terms are those of the query;
    /// of its wildcards those are kept whose regular expression builds.
    pub fn new(raw: &str) -> (pattern: SearchPattern)
        ensures
            exists|built: Seq<bool>| pattern@ == pattern_of(parsed_query(raw@), built),
            pattern@.phrases == parsed_query(raw@).phrases,
            pattern@.terms == parsed_query(raw@).terms,
            forall|k: int|
                0 <= k < pattern@.wildcards.len() ==> parsed_query(raw@).wildcards.contains(
                    #[trigger] pattern@.wildcards[k],
                ),
            parsed_query(raw@).wildcards.len() == 0 ==> pattern@ == pattern_of(
                parsed_query(raw@),
                Seq::empty(),
            ),
    {
        let parsed = parse_query(raw);
        let mut built: Vec<bool> = Vec::new();
        let mut i: usize = 0;
        while i < parsed.wildcards.len()
            invariant
                i <= parsed.wildcards.len(),
            decreases parsed.wildcards.len() - i,
        {
            built.push(wildcard_compiles(parsed.wildcards[i].as_str()));
            i += 1;
        }
        let pattern = SearchPattern::from_parts(parsed, &built);
        assert(pattern@ == pattern_of(parsed_query(raw@), built@));
        proof {
            lemma_kept_wildcards(parsed_query(raw@).wildcards, built@);
        }
        pattern
    }
}

/// The parts of the searchable text of an item: its name and its path,
/// its snippet if it has one, the texts of its previews, and its keywords
/// joined by spaces if it has any; each in lowercase.
pub open spec fn corpus_parts(item: ItemView) -> Seq<Seq<char>> {
    seq![lowercase_of(item.name), lowercase_of(item.path)] + (if item.snippet.len() > 0 {
        seq![lowercase_of(item.snippet)]
    } else {
        Seq::empty()
    }) + Seq::new(item.slides.len(), |i: int| lowercase_of(item.slides[i].text)) + (
    if item.keywords.len() > 0 {
        seq![lowercase_of(joined(item.keywords))]
    } else {
        Seq::empty()
    })
}

/// The searchable text of an item: its parts with one space between each two.
pub open spec fn corpus_of(item: ItemView) -> Seq<char> {
    joined(corpus_parts(item))
}

/// The searchable text of an item.
pub fn build_search_corpus(item: &SlideIndexItem) -> (corpus: String)
    ensures
        corpus@ == corpus_of(item@),
{
    let mut parts: Vec<Vec<char>> = Vec::new();
    parts.push(to_chars(item.name.as_str().to_lowercase().as_str()));
    parts.push(to_chars(item.path.as_str().to_lowercase().as_str()));
    if !item.snippet.as_str().is_empty() {
        parts.push(to_chars(item.snippet.as_str().to_lowercase().as_str()));
    }
    let ghost head = views(parts@);
    let mut shown: Vec<Vec<char>> = Vec::new();
    let mut i: usize = 0;
    while i < item.slides.len()
        invariant
            i <= item.slides.len(),
            shown.len() == i,
            forall|k: int| 0 <= k < i ==> shown[k]@ == lowercase_of(item.slides[k].text@),
        decreases item.slides.len() - i,
    {
        shown.push(to_chars(item.slides[i].text.as_str().to_lowercase().as_str()));
        i += 1;
    }
    let ghost texts = Seq::new(item@.slides.len(), |k: int| lowercase_of(item@.slides[k].text));
    assert(views(shown@) =~= texts) by {
        assert forall|k: int| 0 <= k < shown.len() implies views(shown@)[k] == texts[k] by {
            assert(item@.slides[k] == item.slides[k]@);
        }
    }
    parts.append(&mut shown);
    assert(views(parts@) =~= head + texts);
    if item.keywords.len() > 0 {
        let mut words: Vec<Vec<char>> = Vec::new();
        let mut k: usize = 0;
        while k < item.keywords.len()
            invariant
                k <= item.keywords.len(),
                words.len() == k,
                forall|j: int| 0 <= j < k ==> words[j]@ == item.keywords[j]@,
            decreases item.keywords.len() - k,
        {
            words.push(to_chars(item.keywords[k].as_str()));
            k += 1;
        }
        assert(views(words@) =~= item@.keywords);
        let all = join_words(&words);
        let ghost before = views(parts@);
        parts.push(to_chars(lowercase_chars(all.as_slice()).as_str()));
        assert(views(parts@) =~= before.push(lowercase_of(joined(item@.keywords))));
    }
    assert(views(parts@) =~= corpus_parts(item@));
    let corpus = join_words(&parts);
    from_chars(corpus.as_slice())
}

/// Whether the text holds every one of the given texts.
pub open spec fn holds_all(corpus: Seq<char>, wanted: Seq<Seq<char>>) -> bool {
    forall|i: int| 0 <= i < wanted.len() ==> contains_text(corpus, #[trigger] wanted[i])
}

/// Whether the text is matched by every one of the regular expressions.
pub open spec fn matches_all(corpus: Seq<char>, wildcards: Seq<Seq<char>>) -> bool {
    forall|i: int| 0 <= i < wildcards.len() ==> wildcard_found(#[trigger] wildcards[i], corpus)
}

/// Whether an item matches a pattern: the empty pattern is matched by
/// every item; any other by the items whose searchable text holds every
/// phrase and every term and is matched by every wildcard.
pub open spec fn query_matches(item: ItemView, pattern: PatternView) -> bool {
    pattern.is_empty || (holds_all(corpus_of(item), pattern.phrases) && holds_all(
        corpus_of(item),
        pattern.terms,
    ) && matches_all(corpus_of(item), pattern.wildcards))
}

/// Whether each of `count` wildcards was found to match: there is an
/// outcome for each, and each says so.
pub open spec fn all_found(outcomes: Seq<Option<bool>>, count: nat) -> bool {
    outcomes.len() == count && forall|i: int|
        0 <= i < outcomes.len() ==> #[trigger] outcomes[i] == Some(true)
}

/// Whether the characters hold every one of the texts.
fn holds_each(corpus: &[char], wanted: &Vec<String>) -> (all: bool)
    ensures
        all == holds_all(corpus@, wanted.deep_view()),
{
    let mut i: usize = 0;
    while i < wanted.len()
        invariant
            i <= wanted.len(),
            forall|k: int| 0 <= k < i ==> contains_text(corpus@, #[trigger] wanted.deep_view()[k]),
        decreases wanted.len() - i,
    {
        let needle = to_chars(wanted[i].as_str());
        if !has_text(corpus, needle.as_slice()) {
            assert(!contains_text(corpus@, wanted.deep_view()[i as int]));
            return false;
        }
        i += 1;
    }
    true
}

/// Whether an item matches a pattern, given for each wildcard of the
/// pattern what the search for it in the item's searchable text gave: a
/// wildcard counts as matched if the search ran and found it.
pub fn matches_with(item: &SlideIndexItem, pattern: &SearchPattern, outcomes: &Vec<Option<bool>>) -> (matched:
    bool)
    ensures
        matched == (pattern@.is_empty || (holds_all(corpus_of(item@), pattern@.phrases)
            && holds_all(corpus_of(item@), pattern@.terms) && all_found(
            outcomes@,
            pattern@.wildcards.len(),
        ))),
{
    if pattern.is_empty {
        return true;
    }
    if outcomes.len() != pattern.wildcards.len() {
        return false;
    }
    let corpus = to_chars(build_search_corpus(item).as_str());
    if !holds_each(corpus.as_slice(), &pattern.phrases) {
        return false;
    }
    if !holds_each(corpus.as_slice(), &pattern.terms) {
        return false;
    }
    let mut i: usize = 0;
    while i < outcomes.len()
        invariant
            i <= outcomes.len(),
            !pattern@.is_empty,
            outcomes.len() == pattern@.wildcards.len(),
            forall|k: int| 0 <= k < i ==> #[trigger] outcomes@[k] == Some(true),
        decreases outcomes.len() - i,
    {
        let found = match outcomes[i] {
            Some(hit) => hit,
            None => false,
        };
        if !found {
            assert(outcomes@[i as int] != Some(true));
            return false;
        }
        i += 1;
    }
    true
}

/// Whether an item matches a pattern. An item that is said to match does
/// match; for a pattern without wildcards the answer is exact.
pub fn matches_query(item: &SlideIndexItem, pattern: &SearchPattern) -> (matched: bool)
    ensures
        matched ==> query_matches(item@, pattern@),
        pattern@.wildcards.len() == 0 ==> matched == query_matches(item@, pattern@),
        pattern@.is_empty ==> matched,
        !(pattern@.is_empty || (holds_all(corpus_of(item@), pattern@.phrases) && holds_all(
            corpus_of(item@),
            pattern@.terms,
        ))) ==> !matched,
{
    if pattern.is_empty {
        return true;
    }
    let corpus = build_search_corpus(item);
    let mut outcomes: Vec<Option<bool>> = Vec::new();
    let mut i: usize = 0;
    while i < pattern.wildcards.len()
        invariant
            i <= pattern.wildcards.len(),
            outcomes.len() == i,
            forall|k: int|
                0 <= k < i ==> (#[trigger] outcomes@[k] is Some ==> outcomes@[k] == Some(
                    wildcard_found(pattern@.wildcards[k], corpus@),
                )),
        decreases pattern.wildcards.len() - i,
    {
        let outcome = wildcard_is_match(pattern.wildcards[i].as_str(), corpus.as_str());
        outcomes.push(outcome);
        i += 1;
    }
    let matched = matches_with(item, pattern, &outcomes);
    assert(matched && !pattern@.is_empty ==> matches_all(corpus_of(item@), pattern@.wildcards)) by {
        if matched && !pattern@.is_empty {
            assert forall|k: int| 0 <= k < pattern@.wildcards.len() implies wildcard_found(
                #[trigger] pattern@.wildcards[k],
                corpus_of(item@),
            ) by {
                assert(outcomes@[k] == Some(true));
            }
        }
    }
    matched
}

/// The items that are marked to be kept, in their order.
pub open spec fn selected(items: Seq<ItemView>, keep: Seq<bool>) -> Seq<ItemView>
    decreases items.len(),
{
    if items.len() == 0 {
        Seq::empty()
    } else if items.len() <= keep.len() && keep[items.len() - 1] {
        selected(items.drop_last(), keep).push(items.last())
    } else {
        selected(items.drop_last(), keep)
    }
}

/// For each item whether it matches the pattern.
pub open spec fn match_marks(items: Seq<ItemView>, pattern: PatternView) -> Seq<bool> {
    Seq::new(items.len(), |i: int| query_matches(items[i], pattern))
}

/// The items that match a pattern, in their order.
pub open spec fn matching_items(items: Seq<ItemView>, pattern: PatternView) -> Seq<ItemView> {
    selected(items, match_marks(items, pattern))
}

/// What is selected is among the items, and is marked.
pub proof fn lemma_selected(items: Seq<ItemView>, keep: Seq<bool>, k: int)
    requires
        0 <= k < selected(items, keep).len(),
    ensures
        exists|i: int|
            0 <= i < items.len() && i < keep.len() && keep[i] && #[trigger] items[i] == selected(
                items,
                keep,
            )[k],
    decreases items.len(),
{
    if items.len() > 0 {
        let front = selected(items.drop_last(), keep);
        if k < front.len() {
            lemma_selected(items.drop_last(), keep, k);
            let i = choose|i: int|
                0 <= i < items.drop_last().len() && i < keep.len() && keep[i]
                    && #[trigger] items.drop_last()[i] == front[k];
            assert(items[i] == front[k]);
        } else {
            assert(items[items.len() - 1] == items.last());
        }
    }
}

/// Only the marks of the items matter, and only as far as the items go.
proof fn lemma_selected_prefix(items: Seq<ItemView>, keep: Seq<bool>, n: int)
    requires
        0 <= n <= items.len(),
        n <= keep.len(),
    ensures
        selected(items.take(n), keep) == selected(items.take(n), keep.take(n)),
    decreases n,
{
    if n > 0 {
        assert(items.take(n).drop_last() =~= items.take(n - 1));
        lemma_selected_prefix(items, keep, n - 1);
        lemma_selected_prefix(items, keep.take(n), n - 1);
        assert(keep.take(n).take(n - 1) =~= keep.take(n - 1));
    }
}

/// The stored items that a search gives back: a selection of the items,
/// in their order, in which every selected item matches the pattern, and
/// which for a pattern without wildcards is the selection of all that match.
pub open spec fn search_result(
    items: Seq<ItemView>,
    pattern: PatternView,
    found: Seq<ItemView>,
) -> bool {
    exists|keep: Seq<bool>|
        {
            &&& keep.len() == items.len()
            &&& #[trigger] selected(items, keep) == found
            &&& forall|i: int| 0 <= i < items.len() && keep[i] ==> query_matches(items[i], pattern)
            &&& pattern.wildcards.len() == 0 ==> keep == match_marks(items, pattern)
        }
}

/// The items that match a pattern, in their order. Every item that is
/// given back matches and is one of the given items; for a pattern
/// without wildcards exactly the matching items are given back.
pub fn search_items(items: &Vec<SlideIndexItem>, pattern: &SearchPattern) -> (found: Vec<
    SlideIndexItem,
>)
    ensures
        search_result(items.deep_view(), pattern@, found.deep_view()),
        found.len() <= items.len(),
        pattern@.wildcards.len() == 0 ==> found.deep_view() == matching_items(
            items.deep_view(),
            pattern@,
        ),
{
    let mut found: Vec<SlideIndexItem> = Vec::new();
    let ghost mut keep: Seq<bool> = Seq::empty();
    let mut i: usize = 0;
    assert(items.deep_view().take(0) =~= Seq::empty());
    assert(found.deep_view() =~= Seq::empty());
    while i < items.len()
        invariant
            i <= items.len(),
            found.len() <= i,
            keep.len() == i,
            found.deep_view() == selected(items.deep_view().take(i as int), keep),
            forall|k: int| 0 <= k < i && keep[k] ==> query_matches(items.deep_view()[k], pattern@),
            pattern@.wildcards.len() == 0 ==> forall|k: int|
                0 <= k < i ==> keep[k] == query_matches(items.deep_view()[k], pattern@),
        decreases items.len() - i,
    {
        let ghost prefix = items.deep_view().take(i + 1);
        let ghost before = found.deep_view();
        let ghost marks = keep;
        assert(prefix.drop_last() =~= items.deep_view().take(i as int));
        assert(prefix.last() == items[i as int]@);
        assert(items.deep_view()[i as int] == items[i as int]@);
        let matched = matches_query(&items[i], pattern);
        proof {
            keep = keep.push(matched);
            lemma_selected_prefix(items.deep_view(), keep, i as int);
            lemma_selected_prefix(items.deep_view(), marks, i as int);
            assert(keep.take(i as int) =~= marks);
            assert(marks.take(i as int) =~= marks);
        }
        if matched {
            found.push(items[i].clone());
            assert(found.deep_view() =~= before.push(items[i as int]@));
        }
        i += 1;
    }
    assert(items.deep_view().take(items.len() as int) =~= items.deep_view());
    proof {
        if pattern@.wildcards.len() == 0 {
            assert(keep =~= match_marks(items.deep_view(), pattern@));
        }
    }
    found
}

} // verus!
