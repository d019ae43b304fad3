use std::collections::{BTreeMap, BTreeSet};

use inverted_index::chars::{chars_of, string_of};
use inverted_index::document::{process_file, process_line, Document, Line};
use inverted_index::index::InvertedIndex;
use inverted_index::normalize::normalize;
use inverted_index::render::format_inverted_index;
use inverted_index::tokens::token_spans;

#[test]
fn normalize_keeps_letters_and_lowercases() {
    assert_eq!(normalize("Hello"), "hello");
    assert_eq!(normalize("ABC"), "abc");
    assert_eq!(normalize("world!"), "world");
    assert_eq!(normalize("don't"), "dont");
    assert_eq!(normalize("(e.g.)"), "eg");
    assert_eq!(normalize("x86_64"), "x");
    assert_eq!(normalize("already"), "already");
}

#[test]
fn normalize_gives_the_empty_term_without_letters() {
    assert_eq!(normalize("123"), "");
    assert_eq!(normalize("!!"), "");
    assert_eq!(normalize(""), "");
    assert_eq!(normalize("3.14159"), "");
    assert_eq!(normalize("--"), "");
}

#[test]
fn normalize_knows_letters_beyond_ascii() {
    assert_eq!(normalize("Ünïcödé"), "ünïcödé");
    assert_eq!(normalize("ΑΒΓ"), "αβγ");
    assert_eq!(normalize("Straße"), "straße");
    assert_eq!(normalize("日本語!"), "日本語");
    assert_eq!(normalize("ПРИВЕТ,"), "привет");
}

#[test]
fn normalize_uses_the_full_lowercase_mapping() {
    assert_eq!(normalize("\u{130}"), "i\u{307}");
    assert_eq!(normalize("\u{130}stanbul"), "i\u{307}stanbul");
}

#[test]
fn normalize_agrees_with_filter_and_lowercase() {
    let tokens = ["Hello,", "WORLD", "a1b2C3", "", "42", "Émile", "ǅ", "ﬁn", "İ", "tab\there"];
    for token in tokens {
        let expected: String = token
            .chars()
            .filter(|c| c.is_alphabetic())
            .map(|c| c.to_lowercase().to_string())
            .collect();
        assert_eq!(normalize(token), expected);
    }
}

#[test]
fn chars_and_strings_convert_both_ways() {
    assert_eq!(chars_of("héllo"), vec!['h', 'é', 'l', 'l', 'o']);
    assert_eq!(chars_of(""), Vec::<char>::new());
    assert_eq!(string_of(&vec!['a', 'ß', '日']), "aß日");
    assert_eq!(string_of(&vec![]), "");
    assert_eq!(string_of(&chars_of("round trip \u{1F600}")), "round trip \u{1F600}");
}

#[test]
fn token_spans_finds_the_runs_between_whitespace() {
    assert_eq!(token_spans(&chars_of("cat dog")), vec![(0, 3), (4, 7)]);
    assert_eq!(token_spans(&chars_of("  a bc  d")), vec![(2, 3), (4, 6), (8, 9)]);
    assert_eq!(token_spans(&chars_of("word")), vec![(0, 4)]);
    assert_eq!(token_spans(&chars_of("trailing   ")), vec![(0, 8)]);
    assert_eq!(token_spans(&chars_of("é è")), vec![(0, 1), (2, 3)]);
}

#[test]
fn token_spans_finds_nothing_in_blank_lines() {
    assert_eq!(token_spans(&chars_of("")), vec![]);
    assert_eq!(token_spans(&chars_of(" ")), vec![]);
    assert_eq!(token_spans(&chars_of(" \t \r\n ")), vec![]);
}

#[test]
fn token_spans_agrees_with_split_whitespace() {
    let lines = [
        "The quick  brown\tfox",
        " leading and trailing ",
        "no-break\u{A0}space and\u{2003}em space",
        "line\u{2028}separator\u{3000}ideographic",
        "zero\u{200B}width is no whitespace",
        "",
        "x",
        "\n\n",
    ];
    for line in lines {
        let chars = chars_of(line);
        let found: Vec<String> = token_spans(&chars)
            .into_iter()
            .map(|(start, end)| chars[start..end].iter().collect())
            .collect();
        let expected: Vec<String> = line.split_whitespace().map(|t| t.to_string()).collect();
        assert_eq!(found, expected);
    }
}

#[test]
fn process_line_records_each_term_of_the_line() {
    let mut index = InvertedIndex::new();
    process_line("To be, or not to be: that is the question.", 3, &mut index);
    assert_eq!(
        format_inverted_index(&index),
        "be: 3 \nis: 3 \nnot: 3 \nor: 3 \nquestion: 3 \nthat: 3 \nthe: 3 \nto: 3 \n"
    );
    process_line("", 4, &mut index);
    process_line("  \t ", 4, &mut index);
    process_line("1 2 3", 4, &mut index);
    assert_eq!(
        format_inverted_index(&index),
        "be: 3 \nis: 3 \nnot: 3 \nor: 3 \nquestion: 3 \nthat: 3 \nthe: 3 \nto: 3 \n"
    );
    process_line("BE", 4, &mut index);
    assert!(format_inverted_index(&index).starts_with("be: 3 4 \n"));
}

fn by_maps(documents: &[(usize, Vec<&str>)]) -> String {
    let mut index: BTreeMap<String, BTreeSet<usize>> = BTreeMap::new();
    for (id, lines) in documents {
        for line in lines {
            for word in line.split_whitespace() {
                let term: String = word
                    .chars()
                    .filter(|c| c.is_alphabetic())
                    .map(|c| c.to_lowercase().to_string())
                    .collect();
                if !term.is_empty() {
                    index.entry(term).or_default().insert(*id);
                }
            }
        }
    }
    let mut out = String::new();
    for (term, ids) in &index {
        out.push_str(&format!("{}: ", term));
        for id in ids {
            out.push_str(&format!("{} ", id));
        }
        out.push('\n');
    }
    out
}

#[test]
fn process_file_agrees_with_maps_and_sets() {
    let documents: Vec<(usize, Vec<&str>)> = vec![
        (12, vec!["It was the best of times,", "it was the worst of times,"]),
        (0, vec!["it was the age of wisdom, it was the age of foolishness"]),
        (7, vec![]),
        (3, vec!["Ça va? Très bien!", "  Ünïcödé   wörds 123 ...  "]),
        (12, vec!["a Tale of Two Cities (1859)"]),
        (1000000, vec!["İstanbul straße ǅ ΑΒΓ"]),
    ];
    let mut index = InvertedIndex::new();
    for (id, lines) in &documents {
        let document =
            Document::Lines(lines.iter().map(|line| Line::Text(line.to_string())).collect());
        process_file(&document, *id, &mut index);
    }
    assert_eq!(format_inverted_index(&index), by_maps(&documents));
}
