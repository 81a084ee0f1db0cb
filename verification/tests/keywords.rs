use slides_indexer::keywords::{derive_keywords, keywords_from_lowercase, tokenize};
use slides_indexer::models::SlidePreview;

fn preview(index: u32, text: &str) -> SlidePreview {
    SlidePreview { index, text: text.to_string() }
}

fn chars(text: &str) -> Vec<char> {
    text.chars().collect()
}

fn strings(tokens: Vec<Vec<char>>) -> Vec<String> {
    tokens.into_iter().map(|t| t.into_iter().collect()).collect()
}

#[test]
fn tokens_are_runs_of_small_letters_and_digits_of_three_or_more() {
    let found = strings(tokenize(&chars("ab abc a1b2 x-yz12 UPPER lower")));
    assert_eq!(found, vec!["abc", "a1b2", "yz12", "lower"]);
    assert!(tokenize(&chars("")).is_empty());
    assert!(tokenize(&chars("ab cd")).is_empty());
    assert_eq!(strings(tokenize(&chars("abc"))), vec!["abc"]);
}

#[test]
fn keywords_are_ranked_by_frequency() {
    let keywords = derive_keywords("alpha beta beta gamma gamma gamma", &vec![]);
    assert_eq!(keywords, vec!["gamma", "beta", "alpha"]);
}

#[test]
fn keywords_of_equal_frequency_keep_the_order_of_first_occurrence() {
    let keywords = derive_keywords("zeta alpha mid zeta alpha mid", &vec![]);
    assert_eq!(keywords, vec!["zeta", "alpha", "mid"]);
}

#[test]
fn keywords_are_taken_from_the_lowercase_text() {
    let keywords = derive_keywords("Revenue REVENUE revenue Growth", &vec![]);
    assert_eq!(keywords, vec!["revenue", "growth"]);
}

#[test]
fn tokens_that_a_preview_shows_are_no_keywords() {
    let previews = vec![preview(1, "Quarterly Revenue"), preview(2, "Growth")];
    let keywords = derive_keywords("quarterly revenue growth margin margin outlook", &previews);
    assert_eq!(keywords, vec!["margin", "outlook"]);
}

#[test]
fn no_keyword_is_a_token_of_a_preview() {
    let previews = vec![preview(1, "one two three four"), preview(2, "Five SIX seven")];
    let text = "one five eight nine nine six ten eleven three twelve";
    let keywords = derive_keywords(text, &previews);
    for keyword in &keywords {
        for shown in &previews {
            let lowered = shown.text.to_lowercase();
            assert!(!strings(tokenize(&chars(&lowered))).contains(keyword));
        }
    }
    assert_eq!(keywords, vec!["nine", "eight", "ten", "eleven", "twelve"]);
}

#[test]
fn at_most_40_keywords_are_kept() {
    let words: Vec<String> = (0..60).map(|n| format!("word{:02}", n)).collect();
    let mut text = words.join(" ");
    // the last ten occur twice and so come first
    text.push(' ');
    text.push_str(&words[50..].join(" "));
    let keywords = derive_keywords(&text, &vec![]);
    assert_eq!(keywords.len(), 40);
    assert_eq!(&keywords[..10], &words[50..]);
    assert_eq!(&keywords[10..], &words[..30]);
}

#[test]
fn text_without_tokens_has_no_keywords() {
    assert!(derive_keywords("", &vec![]).is_empty());
    assert!(derive_keywords("a bc -- !!", &vec![]).is_empty());
}

#[test]
fn keywords_from_lowercase_text_are_exact() {
    let previews = vec![chars("shown here")];
    let keywords = keywords_from_lowercase(&chars("shown twice twice here once"), &previews);
    assert_eq!(keywords, vec!["twice", "once"]);
}
