use regex::Regex;
use slides_indexer::keywords::tokenize;
use slides_indexer::pdf::{
    count_page_markers, decode_pdf_encoded_bytes, decode_pdf_hex_string, decode_pdf_string,
    extract_pdf_contents, extract_text_from_pdf_stream,
};
use slides_indexer::query::{parse_query, wildcard_to_regex};
use slides_indexer::text::{
    cleanup_whitespace, filter_noise_tokens, is_gibberish, is_noise_token, strip_xml_tags,
};
use slides_indexer::xml::{decode_xml, extract_text_runs};

/// Every text of up to `length` pieces of the given ones.
fn texts(pieces: &[&str], length: usize) -> Vec<String> {
    let mut all = vec![String::new()];
    let mut last = vec![String::new()];
    for _ in 0..length {
        let mut next = Vec::new();
        for text in &last {
            for piece in pieces {
                next.push(format!("{}{}", text, piece));
            }
        }
        all.extend(next.iter().cloned());
        last = next;
    }
    all
}

#[test]
fn tags_are_what_the_pattern_of_a_tag_matches() {
    let pattern = Regex::new(r"<[^>]+>").unwrap();
    for text in texts(&["<", ">", "a", " ", "\n"], 6) {
        assert_eq!(strip_xml_tags(&text), pattern.replace_all(&text, " ").to_string(), "{:?}", text);
    }
}

#[test]
fn words_are_what_splitting_at_whitespace_gives() {
    for text in texts(&["a", "b", " ", "\t", "\n", "\u{a0}", "\u{2003}"], 5) {
        let expected = text.split_whitespace().collect::<Vec<&str>>().join(" ");
        assert_eq!(cleanup_whitespace(&text), expected, "{:?}", text);
    }
}

#[test]
fn tokens_are_what_the_pattern_of_a_token_matches() {
    let pattern = Regex::new(r"[a-z0-9]{3,}").unwrap();
    for text in texts(&["a", "z", "0", "9", "A", " ", "-", "\u{e9}"], 5) {
        let expected: Vec<String> = pattern.find_iter(&text).map(|m| m.as_str().to_string()).collect();
        let chars: Vec<char> = text.chars().collect();
        let found: Vec<String> = tokenize(&chars).into_iter().map(|t| t.into_iter().collect()).collect();
        assert_eq!(found, expected, "{:?}", text);
    }
}

#[test]
fn noise_is_what_the_patterns_of_noise_match() {
    let patterns = [
        Regex::new(r"^[a-zA-Z]{2}-[a-zA-Z]{2}$").unwrap(),
        Regex::new(r"^latin-\d+$").unwrap(),
        Regex::new(r"^slide\d*$").unwrap(),
        Regex::new(r"^text\d*$").unwrap(),
    ];
    let words = ["rectangle", "title", "subtitle", "body", "outline", "placeholder", "arial", "calibri", "bold", "italic", "regular"];
    let pieces = ["latin", "-", "slide", "text", "1", "07", "en", "US", "x", "(", ")", "Title", "BOLD"];
    for token in texts(&pieces, 4) {
        let stripped = token.replace(['(', ')'], "");
        let lowered = stripped.to_lowercase();
        let expected = !stripped.chars().any(|c| c.is_ascii_alphabetic())
            || words.contains(&lowered.as_str())
            || patterns.iter().any(|p| p.is_match(&lowered));
        assert_eq!(is_noise_token(&token), expected, "{:?}", token);
    }
}

#[test]
fn filtering_noise_keeps_the_words_that_are_none() {
    for text in texts(&["Title", "plan", " ", "2024", "en-US", "\n", "slide3", "(x)"], 5) {
        let expected = text
            .split_whitespace()
            .filter(|token| !is_noise_token(token))
            .collect::<Vec<&str>>()
            .join(" ");
        assert_eq!(filter_noise_tokens(&text), expected, "{:?}", text);
    }
}

#[test]
fn gibberish_is_judged_as_by_the_ratios() {
    for size in 38..140usize {
        for letters in 0..=size {
            for capitals in [0, letters / 2, letters * 9 / 10, letters * 9 / 10 + 1, letters] {
                if capitals > letters {
                    continue;
                }
                let text = format!(
                    "{}{}{}",
                    "A".repeat(capitals),
                    "b".repeat(letters - capitals),
                    "1".repeat(size - letters)
                );
                let expected = if size < 40 {
                    false
                } else if letters == 0 {
                    true
                } else if (letters as f64 / size as f64) < 0.35 {
                    true
                } else if letters > 80 && (capitals as f64 / letters as f64) > 0.9 {
                    true
                } else {
                    // the text is one word of more than 40 characters: not more than two
                    false
                };
                assert_eq!(is_gibberish(&text), expected, "{} {} {}", size, letters, capitals);
            }
        }
    }
}

#[test]
fn literal_strings_are_what_their_pattern_matches() {
    let pattern = Regex::new(r"\((?:\\.|[^\\)])*\)").unwrap();
    for text in texts(&["(", ")", "\\", "\n", "a", "1"], 6) {
        let expected = pattern
            .find_iter(&text)
            .map(|m| decode_pdf_string(&m.as_str()[1..m.as_str().len() - 1]))
            .filter(|decoded| !decoded.is_empty())
            .collect::<Vec<String>>()
            .join(" ");
        assert_eq!(extract_text_from_pdf_stream(text.as_bytes()), expected, "{:?}", text);
    }
}

#[test]
fn hexadecimal_strings_are_what_their_pattern_matches() {
    let pattern = Regex::new(r"<([0-9A-Fa-f\s]+)>").unwrap();
    for text in texts(&["<", ">", "4", "a", "F", " ", "g", "\n"], 5) {
        let expected = pattern
            .captures_iter(&text)
            .map(|c| decode_pdf_hex_string(c.get(1).unwrap().as_str()))
            .filter(|decoded| !decoded.is_empty())
            .collect::<Vec<String>>()
            .join(" ");
        assert_eq!(extract_text_from_pdf_stream(text.as_bytes()), expected, "{:?}", text);
    }
}

#[test]
fn hexadecimal_digits_are_read_two_by_two() {
    for text in texts(&["4", "8", "a", "F", " ", "g", "+", "-", "0"], 5) {
        let compact: Vec<char> = text.chars().filter(|c| !c.is_whitespace()).collect();
        let mut bytes = Vec::new();
        for pair in compact.chunks(2) {
            let second = if pair.len() == 2 { pair[1] } else { '0' };
            if let Ok(value) = u8::from_str_radix(&format!("{}{}", pair[0], second), 16) {
                bytes.push(value);
            }
        }
        let expected = match String::from_utf8(bytes.clone()) {
            Ok(value) => value,
            Err(_) => bytes.iter().map(|&b| b as char).collect(),
        };
        assert_eq!(decode_pdf_hex_string(&text), expected, "{:?}", text);
    }
}

#[test]
fn marks_of_pages_are_what_their_pattern_matches() {
    let pattern = Regex::new(r"/Type\s*/Page\b").unwrap();
    for text in texts(&["/Type", "/Page", " ", "\n", "s", "/", "_", "1", ">", "\u{b}"], 4) {
        assert_eq!(count_page_markers(text.as_bytes()), pattern.find_iter(&text).count(), "{:?}", text);
    }
}

#[test]
fn text_runs_are_what_their_pattern_captures() {
    let pattern = Regex::new(r"(?s)<a:t[^>]*>(.*?)</a:t>").unwrap();
    for xml in texts(&["<a:t", ">", "</a:t>", "x", " ", "&amp;", "<a:r>", "\n"], 5) {
        let expected = pattern
            .captures_iter(&xml)
            .map(|c| decode_xml(c.get(1).unwrap().as_str()))
            .filter(|run| !run.trim().is_empty())
            .map(|run| run.trim().to_string())
            .collect::<Vec<String>>()
            .join(" ");
        assert_eq!(extract_text_runs(&xml), expected, "{:?}", xml);
    }
}

#[test]
fn character_references_are_what_their_patterns_match() {
    let decimal = Regex::new(r"&#(\d+);").unwrap();
    let hexadecimal = Regex::new(r"&#x([0-9a-fA-F]+);").unwrap();
    for text in texts(&["&", "#", "x", ";", "6", "5", "a", "F", "38", "1114112"], 5) {
        let named = text
            .replace("&lt;", "<")
            .replace("&gt;", ">")
            .replace("&amp;", "&")
            .replace("&quot;", "\"")
            .replace("&apos;", "'");
        let first = decimal
            .replace_all(&named, |caps: &regex::Captures| {
                caps.get(1)
                    .and_then(|m| m.as_str().parse::<u32>().ok())
                    .and_then(char::from_u32)
                    .map(|c| c.to_string())
                    .unwrap_or_default()
            })
            .into_owned();
        let expected = hexadecimal
            .replace_all(&first, |caps: &regex::Captures| {
                caps.get(1)
                    .and_then(|m| u32::from_str_radix(m.as_str(), 16).ok())
                    .and_then(char::from_u32)
                    .map(|c| c.to_string())
                    .unwrap_or_default()
            })
            .into_owned();
        assert_eq!(decode_xml(&text), expected, "{:?}", text);
    }
}

#[test]
fn named_entities_are_replaced_from_left_to_right() {
    for text in texts(&["&", "lt;", "gt;", "amp;", "quot;", "apos;", "a"], 5) {
        let expected = text
            .replace("&lt;", "<")
            .replace("&gt;", ">")
            .replace("&amp;", "&")
            .replace("&quot;", "\"")
            .replace("&apos;", "'");
        assert_eq!(decode_xml(&text), expected, "{:?}", text);
    }
}

#[test]
fn the_pieces_of_a_query_are_what_their_pattern_matches() {
    let pattern = Regex::new(r#""([^"]+)"|([^\s]+)"#).unwrap();
    for raw in texts(&["\"", "a", "B", " ", "*", "?", "\t", "."], 4) {
        let mut phrases = Vec::new();
        let mut terms = Vec::new();
        let mut wildcards = Vec::new();
        for capture in pattern.captures_iter(&raw) {
            if let Some(phrase) = capture.get(1) {
                let value = phrase.as_str().trim().to_lowercase();
                if !value.is_empty() {
                    phrases.push(value);
                }
            } else if let Some(token) = capture.get(2) {
                let value = token.as_str().trim();
                if value.is_empty() {
                    continue;
                }
                if value.contains('*') || value.contains('?') {
                    if let Some(source) = wildcard_to_regex(value) {
                        wildcards.push(source);
                    }
                } else {
                    terms.push(value.to_lowercase());
                }
            }
        }
        let parsed = parse_query(&raw);
        assert_eq!(parsed.phrases, phrases, "{:?}", raw);
        assert_eq!(parsed.terms, terms, "{:?}", raw);
        assert_eq!(parsed.wildcards, wildcards, "{:?}", raw);
    }
}

#[test]
fn the_regular_expression_of_a_wildcard_escapes_as_the_regex_crate_does() {
    for pattern in texts(&["*", "?", ".", "a", "\\", "(", "[", "-", "&", "~", "#", "$", "^", "|", "+", "}", " "], 3) {
        if pattern.is_empty() {
            continue;
        }
        let mut converted = String::new();
        for ch in pattern.chars() {
            match ch {
                '*' => converted.push_str(".*"),
                '?' => converted.push('.'),
                _ => converted.push_str(&regex::escape(&ch.to_string())),
            }
        }
        let expected = format!(".*{}.*", converted);
        assert_eq!(wildcard_to_regex(&pattern), Some(expected), "{:?}", pattern);
    }
}

/// A literal string read character by character, looking one ahead.
fn read_literal(input: &str) -> String {
    let mut chars = input.chars().peekable();
    let mut result = String::new();
    while let Some(ch) = chars.next() {
        if ch != '\\' {
            result.push(ch);
            continue;
        }
        match chars.peek().copied() {
            Some('n') => result.push('\n'),
            Some('r') => result.push('\r'),
            Some('t') => result.push('\t'),
            Some('b') => result.push('\u{8}'),
            Some('f') => result.push('\u{c}'),
            Some(digit @ '0'..='7') => {
                let mut octal = String::new();
                octal.push(digit);
                chars.next();
                for _ in 0..2 {
                    match chars.peek().copied() {
                        Some(next @ '0'..='7') => {
                            octal.push(next);
                            chars.next();
                        }
                        _ => break,
                    }
                }
                if let Ok(value) = u8::from_str_radix(&octal, 8) {
                    result.push(value as char);
                }
                continue;
            }
            Some(other) => result.push(other),
            None => continue,
        }
        chars.next();
    }
    result
}

#[test]
fn literal_strings_are_decoded_as_by_a_reader_that_looks_one_ahead() {
    for text in texts(&["\\", "n", "t", "1", "7", "8", "0", "(", "a", "3"], 6) {
        assert_eq!(decode_pdf_string(&text), read_literal(&text), "{:?}", text);
    }
}

#[test]
fn bytes_behind_a_byte_order_mark_are_decoded_as_the_standard_library_does() {
    let pieces: [&[u8]; 8] = [&[0xFE], &[0xFF], &[0x00], &[0x41], &[0xD8], &[0xDC], &[0xC3, 0xA9], &[0x20]];
    let mut all: Vec<Vec<u8>> = vec![vec![]];
    let mut last: Vec<Vec<u8>> = vec![vec![]];
    for _ in 0..5 {
        let mut next = Vec::new();
        for bytes in &last {
            for piece in pieces {
                let mut longer = bytes.clone();
                longer.extend_from_slice(piece);
                next.push(longer);
            }
        }
        all.extend(next.iter().cloned());
        last = next;
    }
    for bytes in all {
        let units = |big: bool| -> Vec<u16> {
            bytes[2..]
                .chunks(2)
                .filter(|chunk| chunk.len() == 2)
                .map(|chunk| {
                    if big {
                        u16::from_be_bytes([chunk[0], chunk[1]])
                    } else {
                        u16::from_le_bytes([chunk[0], chunk[1]])
                    }
                })
                .collect()
        };
        let marked = if bytes.len() >= 2 && bytes[0] == 0xFE && bytes[1] == 0xFF {
            String::from_utf16(&units(true)).ok()
        } else if bytes.len() >= 2 && bytes[0] == 0xFF && bytes[1] == 0xFE {
            String::from_utf16(&units(false)).ok()
        } else {
            None
        };
        let expected = match marked {
            Some(text) => text,
            None => match String::from_utf8(bytes.clone()) {
                Ok(text) => text,
                Err(_) => bytes.iter().map(|&b| b as char).collect(),
            },
        };
        assert_eq!(decode_pdf_encoded_bytes(&bytes), expected, "{:?}", bytes);
    }
}

fn position(haystack: &[u8], needle: &[u8]) -> Option<usize> {
    haystack.windows(needle.len()).position(|window| window == needle)
}

/// The texts of the stream regions, found by searching what is left of
/// the file again and again.
fn regions_of(buffer: &[u8]) -> Vec<String> {
    let mut segments = Vec::new();
    let mut cursor = 0usize;
    while let Some(stream_pos) = position(&buffer[cursor..], b"stream") {
        let stream_at = cursor + stream_pos;
        let mut data_start = stream_at + 6;
        while data_start < buffer.len() && (buffer[data_start] == b'\r' || buffer[data_start] == b'\n') {
            data_start += 1;
        }
        if data_start >= buffer.len() {
            break;
        }
        let Some(end_pos) = position(&buffer[data_start..], b"endstream") else {
            break;
        };
        let data_end = data_start + end_pos;
        let extracted = extract_text_from_pdf_stream(&buffer[data_start..data_end]);
        if !extracted.is_empty() {
            segments.push(extracted);
        }
        cursor = data_end + 9;
    }
    segments
}

#[test]
fn stream_regions_are_found_as_by_searching_the_rest_of_the_file() {
    for file in texts(&["stream", "endstream", "end", "\n", "\r", "(a)", "<42>", " ", "s"], 5) {
        let contents = extract_pdf_contents(file.as_bytes());
        let expected = regions_of(file.as_bytes());
        assert_eq!(contents.pages, expected, "{:?}", file);
        assert_eq!(contents.text, expected.join(" "), "{:?}", file);
        assert_eq!(contents.page_count, None);
    }
}
