use slides_indexer::models::{SlideIndexItem, SlideKind, SlidePreview};
use slides_indexer::query::{
    build_search_corpus, matches_query, matches_with, parse_query, search_items,
    wildcard_regex_if_built, wildcard_to_regex, ParsedQuery, SearchPattern,
};

fn item(name: &str, path: &str, snippet: &str, previews: &[&str], keywords: &[&str]) -> SlideIndexItem {
    SlideIndexItem {
        id: format!("id-{}", path),
        path: path.to_string(),
        name: name.to_string(),
        kind: SlideKind::Pptx,
        slide_count: None,
        snippet: snippet.to_string(),
        keywords: keywords.iter().map(|k| k.to_string()).collect(),
        updated_at: 0,
        slides: previews
            .iter()
            .enumerate()
            .map(|(i, text)| SlidePreview { index: i as u32 + 1, text: text.to_string() })
            .collect(),
        checksum: None,
    }
}

fn named(name: &str) -> SlideIndexItem {
    item(name, "x", "", &[], &[])
}

#[test]
fn a_query_is_taken_apart_into_phrases_terms_and_wildcards() {
    let parsed = parse_query("Foo \"Bar Baz\" rep*t  qu?x \" \" plain");
    assert_eq!(parsed.phrases, vec!["bar baz"]);
    assert_eq!(parsed.terms, vec!["foo", "plain"]);
    assert_eq!(parsed.wildcards, vec![".*rep.*t.*", ".*qu.x.*"]);
}

#[test]
fn phrases_are_trimmed_and_put_in_lowercase() {
    let parsed = parse_query("\"  Quarterly  Revenue \"");
    assert_eq!(parsed.phrases, vec!["quarterly  revenue"]);
    assert!(parsed.terms.is_empty());
    assert!(parsed.wildcards.is_empty());
}

#[test]
fn a_quote_that_opens_no_phrase_belongs_to_a_word() {
    let parsed = parse_query("say \"hello");
    assert!(parsed.phrases.is_empty());
    assert_eq!(parsed.terms, vec!["say", "\"hello"]);
    let parsed = parse_query("\"\"");
    assert!(parsed.phrases.is_empty());
    assert_eq!(parsed.terms, vec!["\"\""]);
    let parsed = parse_query("a\"b c\"d");
    assert_eq!(parsed.terms, vec!["a\"b", "c\"d"]);
}

#[test]
fn an_empty_query_asks_for_nothing() {
    for raw in ["", "   ", "\n\t"] {
        let parsed = parse_query(raw);
        assert!(parsed.phrases.is_empty() && parsed.terms.is_empty() && parsed.wildcards.is_empty());
        let pattern = SearchPattern::new(raw);
        assert!(pattern.is_empty());
    }
}

#[test]
fn the_pattern_holds_what_the_query_asks_for() {
    let pattern = SearchPattern::new("Foo \"Bar Baz\" rep*t");
    assert_eq!(pattern.terms(), &vec!["foo".to_string()]);
    assert_eq!(pattern.phrases(), &vec!["bar baz".to_string()]);
    assert_eq!(pattern.wildcards(), &vec![".*rep.*t.*".to_string()]);
    assert!(!pattern.is_empty());
}

#[test]
fn wildcards_that_do_not_build_are_left_out() {
    let parsed = ParsedQuery {
        phrases: vec![],
        terms: vec!["term".to_string()],
        wildcards: vec![".*a.*".to_string(), ".*b.*".to_string(), ".*c.*".to_string()],
    };
    let pattern = SearchPattern::from_parts(parsed, &vec![true, false, true]);
    assert_eq!(pattern.wildcards(), &vec![".*a.*".to_string(), ".*c.*".to_string()]);
    assert!(!pattern.is_empty());
    let only = ParsedQuery { phrases: vec![], terms: vec![], wildcards: vec![".*a.*".to_string()] };
    let pattern = SearchPattern::from_parts(only, &vec![false]);
    assert!(pattern.wildcards().is_empty());
    assert!(pattern.is_empty());
    let short = ParsedQuery { phrases: vec![], terms: vec![], wildcards: vec![".*a.*".to_string()] };
    assert!(SearchPattern::from_parts(short, &vec![]).is_empty());
}

#[test]
fn wildcards_become_regular_expressions() {
    assert_eq!(wildcard_to_regex("rep*t").as_deref(), Some(".*rep.*t.*"));
    assert_eq!(wildcard_to_regex("a?c").as_deref(), Some(".*a.c.*"));
    assert_eq!(wildcard_to_regex("*").as_deref(), Some(".*.*.*"));
    assert_eq!(wildcard_to_regex(""), None);
}

#[test]
fn the_regular_expression_of_a_wildcard_is_kept_only_if_it_builds() {
    assert_eq!(wildcard_regex_if_built(".*rep.*t.*".to_string(), true).as_deref(), Some(".*rep.*t.*"));
    assert_eq!(wildcard_regex_if_built(".*rep.*t.*".to_string(), false), None);
    assert_eq!(wildcard_regex_if_built(String::new(), true).as_deref(), Some(""));
}

#[test]
fn other_characters_of_a_wildcard_stand_for_themselves() {
    assert_eq!(wildcard_to_regex("a.b*").as_deref(), Some(".*a\\.b.*.*"));
    assert_eq!(wildcard_to_regex("(x)+[y]").as_deref(), Some(".*\\(x\\)\\+\\[y\\].*"));
    assert_eq!(wildcard_to_regex("a-b&c~d#e").as_deref(), Some(".*a\\-b\\&c\\~d\\#e.*"));
    assert_eq!(wildcard_to_regex("100%/!").as_deref(), Some(".*100%/!.*"));
    let pattern = SearchPattern::new("v1.*");
    assert!(matches_query(&named("release v1.2"), &pattern));
    assert!(!matches_query(&named("release v12"), &pattern));
}

#[test]
fn the_wildcard_rep_star_t_matches_report_and_repeat_but_not_reply() {
    let pattern = SearchPattern::new("rep*t");
    assert!(matches_query(&named("report"), &pattern));
    assert!(matches_query(&named("repeat"), &pattern));
    assert!(!matches_query(&named("reply"), &pattern));
}

#[test]
fn a_question_mark_stands_for_one_character() {
    let pattern = SearchPattern::new("b?t");
    assert!(matches_query(&named("bat"), &pattern));
    assert!(matches_query(&named("a bit more"), &pattern));
    assert!(!matches_query(&named("bt"), &pattern));
    assert!(!matches_query(&named("boot"), &pattern));
}

#[test]
fn wildcards_match_without_regard_to_case_and_across_lines() {
    let pattern = SearchPattern::new("REP*T");
    assert!(matches_query(&named("Annual Report"), &pattern));
    let across = item("n", "x", "", &["rep\nort"], &[]);
    assert!(matches_query(&across, &SearchPattern::new("rep*t")));
    assert!(matches_query(&across, &SearchPattern::new("rep?ort")));
}

#[test]
fn the_searchable_text_is_put_together_in_lowercase() {
    let full = item("Deck.PPTX", "/Decks/Deck.PPTX", "The Snippet", &["First Slide", "Second"], &["alpha", "beta"]);
    assert_eq!(build_search_corpus(&full), "deck.pptx /decks/deck.pptx the snippet first slide second alpha beta");
    let bare = item("N", "P", "", &[], &[]);
    assert_eq!(build_search_corpus(&bare), "n p");
    let accented = item("\u{c9}t\u{e9}", "p", "", &[], &[]);
    assert_eq!(build_search_corpus(&accented), "\u{e9}t\u{e9} p");
}

#[test]
fn every_term_has_to_be_found() {
    let both = item("a", "x", "foo and bar", &[], &[]);
    let one = item("b", "x", "only foo here", &[], &[]);
    let pattern = SearchPattern::new("foo bar");
    assert!(matches_query(&both, &pattern));
    assert!(!matches_query(&one, &pattern));
    assert!(matches_query(&one, &SearchPattern::new("foo")));
    assert!(matches_query(&both, &SearchPattern::new("BAR Foo")));
}

#[test]
fn a_phrase_has_to_be_found_as_it_stands() {
    let together = item("a", "x", "say foo bar now", &[], &[]);
    let apart = item("b", "x", "foo and bar", &[], &[]);
    let pattern = SearchPattern::new("\"foo bar\"");
    assert!(matches_query(&together, &pattern));
    assert!(!matches_query(&apart, &pattern));
}

#[test]
fn terms_are_found_in_every_part_of_the_item() {
    let full = item("Name.pptx", "/dir/file", "snippet", &["preview"], &["keyword"]);
    for term in ["name", "dir", "snippet", "preview", "keyword", "pptx /dir", "w k"] {
        let quoted = format!("\"{}\"", term);
        assert!(matches_query(&full, &SearchPattern::new(&quoted)), "{}", term);
    }
    assert!(!matches_query(&full, &SearchPattern::new("absent")));
}

#[test]
fn the_empty_pattern_matches_every_item() {
    let pattern = SearchPattern::new("  ");
    assert!(matches_query(&named("anything"), &pattern));
    assert!(matches_query(&item("", "", "", &[], &[]), &pattern));
}

#[test]
fn a_wildcard_counts_as_matched_only_if_the_search_found_it() {
    let pattern = SearchPattern::new("deck a*b");
    let subject = named("deck");
    assert!(matches_with(&subject, &pattern, &vec![Some(true)]));
    assert!(!matches_with(&subject, &pattern, &vec![Some(false)]));
    assert!(!matches_with(&subject, &pattern, &vec![None]));
    assert!(!matches_with(&subject, &pattern, &vec![]));
    assert!(!matches_with(&subject, &pattern, &vec![Some(true), Some(true)]));
    assert!(!matches_with(&named("other"), &pattern, &vec![Some(true)]));
    let empty = SearchPattern::new("");
    assert!(matches_with(&subject, &empty, &vec![Some(false)]));
}

#[test]
fn search_gives_back_the_matching_items_in_their_order() {
    let items = vec![
        item("c.pptx", "/d/c.pptx", "marketing plan", &[], &[]),
        item("a.pptx", "/d/a.pptx", "Quarterly Revenue Growth", &["Quarterly Revenue Growth"], &[]),
        item("b.pdf", "/d/b.pdf", "revenue forecast", &[], &[]),
    ];
    let found = search_items(&items, &SearchPattern::new("revenue"));
    let names: Vec<&str> = found.iter().map(|i| i.name.as_str()).collect();
    assert_eq!(names, vec!["a.pptx", "b.pdf"]);
    let found = search_items(&items, &SearchPattern::new("\"quarterly revenue\""));
    assert_eq!(found.len(), 1);
    assert_eq!(found[0].name, "a.pptx");
    assert!(search_items(&items, &SearchPattern::new("absent")).is_empty());
    assert_eq!(search_items(&items, &SearchPattern::new("")).len(), 3);
    assert_eq!(search_items(&items, &SearchPattern::new("*.pptx")).len(), 2);
}
