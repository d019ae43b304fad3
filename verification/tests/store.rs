use std::collections::{BTreeMap, BTreeSet};

use inverted_index::index::InvertedIndex;
use inverted_index::order::{rank, Rank};
use inverted_index::render::{format_inverted_index, render};

fn chars(text: &str) -> Vec<char> {
    text.chars().collect()
}

#[test]
fn new_index_is_empty() {
    let index = InvertedIndex::new();
    assert!(index.snapshot().is_empty());
    assert_eq!(format_inverted_index(&index), "");
}

#[test]
fn record_creates_then_extends_a_posting_set() {
    let mut index = InvertedIndex::new();
    index.record("tree", 3);
    assert_eq!(index.snapshot(), vec![("tree".to_string(), vec![3])]);
    index.record("tree", 1);
    assert_eq!(index.snapshot(), vec![("tree".to_string(), vec![1, 3])]);
    index.record("bush", 2);
    assert_eq!(
        index.snapshot(),
        vec![("bush".to_string(), vec![2]), ("tree".to_string(), vec![1, 3])]
    );
}

#[test]
fn recording_a_pair_twice_is_recording_it_once() {
    let mut once = InvertedIndex::new();
    once.record("term", 7);
    let mut twice = InvertedIndex::new();
    twice.record("term", 7);
    twice.record("term", 7);
    assert_eq!(once.snapshot(), twice.snapshot());
    assert_eq!(twice.snapshot(), vec![("term".to_string(), vec![7])]);

    let mut mixed = InvertedIndex::new();
    for &(term, id) in &[("a", 1), ("b", 1), ("a", 1), ("a", 0), ("b", 1), ("a", 0)] {
        mixed.record(term, id);
    }
    assert_eq!(
        mixed.snapshot(),
        vec![("a".to_string(), vec![0, 1]), ("b".to_string(), vec![1])]
    );
}

#[test]
fn record_term_takes_characters() {
    let mut index = InvertedIndex::new();
    index.record_term(chars("beta"), 1);
    index.record_term(chars("alpha"), 1);
    index.record("beta", 0);
    assert_eq!(
        index.snapshot(),
        vec![("alpha".to_string(), vec![1]), ("beta".to_string(), vec![0, 1])]
    );
}

#[test]
fn identifiers_come_out_ascending() {
    let mut index = InvertedIndex::new();
    for id in [5usize, 1, 9, 3, 7, 0, 8, 2, 6, 4, 5, 0, 9] {
        index.record("w", id);
    }
    assert_eq!(index.snapshot(), vec![("w".to_string(), (0..10).collect::<Vec<usize>>())]);
    assert_eq!(format_inverted_index(&index), "w: 0 1 2 3 4 5 6 7 8 9 \n");
}

#[test]
fn terms_come_out_in_the_order_of_strings() {
    let terms = [
        "b", "a", "ab", "abc", "aa", "", "z", "zz", "é", "e", "ez", "ñ", "n", "日本", "日",
        "a\u{10FFFF}", "a\u{E000}", "a\u{D7FF}", "ß", "ss", "Z", "A", "\u{1F600}", "\u{FFFF}",
    ];
    let mut index = InvertedIndex::new();
    let mut expected: BTreeMap<String, BTreeSet<usize>> = BTreeMap::new();
    for (id, term) in terms.iter().enumerate() {
        index.record(term, id);
        index.record(term, id + 100);
        expected.entry(term.to_string()).or_default().insert(id);
        expected.entry(term.to_string()).or_default().insert(id + 100);
    }
    let expected: Vec<(String, Vec<usize>)> =
        expected.into_iter().map(|(term, ids)| (term, ids.into_iter().collect())).collect();
    assert_eq!(index.snapshot(), expected);
}

#[test]
fn rank_orders_by_first_difference_then_length() {
    assert_eq!(rank(&chars("abc"), &chars("abd")), Rank::Before);
    assert_eq!(rank(&chars("abd"), &chars("abc")), Rank::After);
    assert_eq!(rank(&chars("abc"), &chars("abc")), Rank::Same);
    assert_eq!(rank(&chars("ab"), &chars("abc")), Rank::Before);
    assert_eq!(rank(&chars("abc"), &chars("ab")), Rank::After);
    assert_eq!(rank(&chars(""), &chars("")), Rank::Same);
    assert_eq!(rank(&chars(""), &chars("a")), Rank::Before);
    assert_eq!(rank(&chars("b"), &chars("abc")), Rank::After);
    assert_eq!(rank(&chars("Z"), &chars("a")), Rank::Before);
    assert_eq!(rank(&chars("z"), &chars("é")), Rank::Before);
}

#[test]
fn rank_agrees_with_string_comparison() {
    let words =
        ["", "a", "A", "aa", "ab", "b", "é", "e\u{301}", "日本語", "\u{10000}", "\u{FFFD}"];
    for a in words {
        for b in words {
            let expected = if a < b {
                Rank::Before
            } else if a == b {
                Rank::Same
            } else {
                Rank::After
            };
            assert_eq!(rank(&chars(a), &chars(b)), expected, "{:?} against {:?}", a, b);
        }
    }
}

#[test]
fn render_writes_one_line_for_each_term() {
    let snapshot = vec![
        ("bird".to_string(), vec![1]),
        ("cat".to_string(), vec![0]),
        ("dog".to_string(), vec![0, 1]),
    ];
    assert_eq!(render(&snapshot), "bird: 1 \ncat: 0 \ndog: 0 1 \n");
    assert_eq!(render(&vec![]), "");
    assert_eq!(render(&vec![("lonely".to_string(), vec![])]), "lonely: \n");
}

#[test]
fn render_writes_identifiers_in_decimal() {
    let ids = vec![0usize, 9, 10, 99, 100, 101, 12345, 1000000, usize::MAX];
    let expected: String =
        format!("n: {}\n", ids.iter().map(|id| format!("{} ", id)).collect::<String>());
    assert_eq!(render(&vec![("n".to_string(), ids)]), expected);
    assert_eq!(
        render(&vec![("n".to_string(), vec![7, 42, 1203])]),
        "n: 7 42 1203 \n"
    );
}

#[test]
fn largest_identifier_is_recorded_and_written() {
    let mut index = InvertedIndex::new();
    index.record("edge", usize::MAX);
    index.record("edge", 0);
    assert_eq!(index.snapshot(), vec![("edge".to_string(), vec![0, usize::MAX])]);
    assert_eq!(format_inverted_index(&index), format!("edge: 0 {} \n", usize::MAX));
}
