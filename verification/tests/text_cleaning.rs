use slides_indexer::text::{
    cleanup_whitespace, filter_noise_tokens, has_meaningful_text, is_gibberish, is_noise_token,
    strip_binary_artifacts, strip_xml_tags, truncate_snippet,
};

#[test]
fn whitespace_runs_collapse_to_single_spaces() {
    assert_eq!(cleanup_whitespace("  a \t b\n\nc  "), "a b c");
    assert_eq!(cleanup_whitespace(""), "");
    assert_eq!(cleanup_whitespace(" \n\t "), "");
    assert_eq!(cleanup_whitespace("one"), "one");
    assert_eq!(cleanup_whitespace("a\u{a0}b\u{3000}c"), "a b c");
}

#[test]
fn tags_give_way_to_spaces() {
    assert_eq!(strip_xml_tags("a<b>c</b>d"), "a c d");
    assert_eq!(strip_xml_tags("<p>x</p>"), " x ");
    assert_eq!(strip_xml_tags("no tags"), "no tags");
}

#[test]
fn a_tag_reaches_to_the_first_closing_bracket() {
    assert_eq!(strip_xml_tags("1 < 2 and <> stays"), "1   stays");
    assert_eq!(strip_xml_tags("<<a>>"), " >");
    assert_eq!(strip_xml_tags("<a\nb>c"), " c");
}

#[test]
fn a_bracket_without_a_tag_stays() {
    assert_eq!(strip_xml_tags("a <> b < c"), "a <> b < c");
    assert_eq!(strip_xml_tags("<"), "<");
    assert_eq!(strip_xml_tags("<>"), "<>");
    assert_eq!(strip_xml_tags("x<y"), "x<y");
}

#[test]
fn control_codes_and_replacement_characters_become_spaces() {
    assert_eq!(strip_binary_artifacts("a\u{0}b\u{7}c\u{fffd}d"), "a b c d");
    assert_eq!(strip_binary_artifacts("tab\there\nand\rthere"), "tab\there\nand\rthere");
    assert_eq!(strip_binary_artifacts("x\u{7f}y\u{85}z"), "x y z");
    assert_eq!(strip_binary_artifacts("plain"), "plain");
}

#[test]
fn words_without_letters_are_noise() {
    assert!(is_noise_token("12345"));
    assert!(is_noise_token("---"));
    assert!(is_noise_token("(2024)"));
    assert!(is_noise_token("()"));
    assert!(is_noise_token("\u{e9}\u{e9}"));
    assert!(!is_noise_token("a1"));
}

#[test]
fn names_of_shapes_and_fonts_are_noise_whatever_their_case() {
    for word in [
        "rectangle",
        "title",
        "subtitle",
        "body",
        "outline",
        "placeholder",
        "arial",
        "calibri",
        "bold",
        "italic",
        "regular",
    ] {
        assert!(is_noise_token(word), "{}", word);
        assert!(is_noise_token(&word.to_uppercase()), "{}", word);
    }
    assert!(is_noise_token("Title"));
    assert!(is_noise_token("(Body)"));
    assert!(!is_noise_token("titles"));
    assert!(!is_noise_token("revenue"));
}

#[test]
fn locale_codes_and_numbered_names_are_noise() {
    assert!(is_noise_token("en-US"));
    assert!(is_noise_token("de-de"));
    assert!(!is_noise_token("eng-US"));
    assert!(!is_noise_token("e1-US"));
    assert!(is_noise_token("latin-1"));
    assert!(is_noise_token("Latin-15"));
    assert!(!is_noise_token("latin-"));
    assert!(!is_noise_token("latin-1a"));
    assert!(is_noise_token("slide"));
    assert!(is_noise_token("Slide12"));
    assert!(!is_noise_token("slides"));
    assert!(is_noise_token("text"));
    assert!(is_noise_token("TEXT7"));
    assert!(!is_noise_token("textbook"));
}

#[test]
fn noise_words_are_dropped_and_the_rest_joined() {
    assert_eq!(filter_noise_tokens("Title  Quarterly 2024 Revenue en-US Growth"), "Quarterly Revenue Growth");
    assert_eq!(filter_noise_tokens("123 456"), "");
    assert_eq!(filter_noise_tokens(""), "");
}

#[test]
fn snippet_is_cut_at_240_characters() {
    let long: String = std::iter::repeat('x').take(300).collect();
    assert_eq!(truncate_snippet(&long).chars().count(), 240);
    assert_eq!(truncate_snippet("short"), "short");
    let exact: String = std::iter::repeat('y').take(240).collect();
    assert_eq!(truncate_snippet(&exact), exact);
    let one_more: String = std::iter::repeat('z').take(241).collect();
    assert_eq!(truncate_snippet(&one_more).chars().count(), 240);
}

#[test]
fn snippet_length_counts_characters_not_bytes() {
    let long: String = std::iter::repeat('\u{e9}').take(250).collect();
    let cut = truncate_snippet(&long);
    assert_eq!(cut.chars().count(), 240);
    assert_eq!(cut.len(), 480);
}

#[test]
fn symbols_are_gibberish_and_prose_is_not() {
    let symbols = "!@#$%^&*()_+-=[]{};:,.<>/?|~`!@#$%^&*()_+-=[]{};:,";
    assert_eq!(symbols.chars().count(), 50);
    assert!(is_gibberish(symbols));
    let prose = "The quick brown fox jumps over the lazy dog again.";
    assert_eq!(prose.chars().count(), 50);
    assert!(!is_gibberish(prose));
}

#[test]
fn short_text_is_never_gibberish() {
    assert!(!is_gibberish(""));
    assert!(!is_gibberish("!!!!!!!!!!!!!!!!!!!!!!!!!!!!!!!!!!!!!!!"));
    assert!(is_gibberish("!!!!!!!!!!!!!!!!!!!!!!!!!!!!!!!!!!!!!!!!"));
    // whitespace does not count towards the 40
    assert!(!is_gibberish("! ! ! ! ! ! ! ! ! ! ! ! ! ! ! ! ! ! ! ! ! ! ! ! ! ! ! ! ! ! ! ! ! ! ! ! ! ! !"));
}

#[test]
fn fewer_than_35_letters_in_100_is_gibberish() {
    // 40 characters outside of whitespace, 14 of them letters: exactly 35 in 100
    let at_the_line = format!("{}{}", "a".repeat(14), "1".repeat(26));
    assert!(!is_gibberish(&at_the_line));
    // 13 letters of 40: below
    let below = format!("{}{}", "a".repeat(13), "1".repeat(27));
    assert!(is_gibberish(&below));
}

#[test]
fn mostly_capitals_is_gibberish_only_beyond_80_letters() {
    let shouting = "A".repeat(81);
    assert!(is_gibberish(&shouting));
    let eighty = "A".repeat(80);
    assert!(!is_gibberish(&eighty));
    // 100 letters, 90 capitals: exactly 9 in 10, not more
    let at_the_line = format!("{}{}", "A".repeat(90), "b".repeat(10));
    assert!(!is_gibberish(&at_the_line));
    let above = format!("{}{}", "A".repeat(91), "b".repeat(9));
    assert!(is_gibberish(&above));
}

#[test]
fn more_than_two_long_words_is_gibberish() {
    let long = "ab".repeat(21);
    assert_eq!(long.len(), 42);
    let two = format!("{} {}", long, long);
    assert!(!is_gibberish(&two));
    let three = format!("{} {} {}", long, long, long);
    assert!(is_gibberish(&three));
    // a word of exactly 40 characters is not long
    let forty = "ab".repeat(20);
    let three_of_forty = format!("{} {} {}", forty, forty, forty);
    assert!(!is_gibberish(&three_of_forty));
}

#[test]
fn gibberish_counts_bytes_of_text_outside_the_basic_alphabet() {
    // 20 characters of two bytes each: 40 bytes, no basic letter
    let accented = "\u{e9}".repeat(20);
    assert!(is_gibberish(&accented));
    let shorter = "\u{e9}".repeat(19);
    assert!(!is_gibberish(&shorter));
}

#[test]
fn empty_and_blank_text_is_not_meaningful() {
    assert!(!has_meaningful_text(""));
    assert!(!has_meaningful_text("   \n\t "));
}

#[test]
fn short_text_is_meaningful_if_it_has_a_letter_or_digit() {
    assert!(has_meaningful_text("ab"));
    assert!(has_meaningful_text("  7  "));
    assert!(has_meaningful_text("hello world"));
}

#[test]
fn short_text_without_letter_or_digit_is_judged_as_any_other_and_is_no_gibberish() {
    assert!(has_meaningful_text("!!!"));
    assert!(has_meaningful_text("---"));
    assert!(has_meaningful_text("\u{e9}\u{e9}"));
    assert!(has_meaningful_text(" . "));
    assert!(!has_meaningful_text("   "));
}

#[test]
fn longer_text_is_meaningful_unless_it_is_gibberish() {
    assert!(has_meaningful_text("Quarterly Revenue Growth"));
    assert!(has_meaningful_text("------------"));
    let symbols = "!@#$%^&*()_+-=[]{};:,.<>/?|~`!@#$%^&*()_+-=[]{};:,";
    assert!(!has_meaningful_text(symbols));
    // six accented letters: 12 bytes, judged as longer text
    assert!(has_meaningful_text("\u{e9}\u{e9}\u{e9}\u{e9}\u{e9}\u{e9}"));
}
