use parlay::counts::{count_word, WordCount};
use parlay::index_parallel::headers_are_apart;
use parlay::index_serial::can_build_index;

fn pairs(result: &[(String, usize)]) -> Vec<(&str, usize)> {
    result.iter().map(|(w, c)| (w.as_str(), *c)).collect()
}

#[test]
fn histogram_counts_each_word() {
    let mut result: Vec<(String, usize)> = vec![("old".to_string(), 9)];
    parlay::wc_histogram::word_counts(b"The cat; the DOG, the end.", &mut result);
    assert_eq!(pairs(&result), vec![("cat", 1), ("dog", 1), ("end", 1), ("the", 3)]);
}

#[test]
fn histogram_of_a_text_without_letters_is_empty() {
    let mut result: Vec<(String, usize)> = Vec::new();
    parlay::wc_histogram::word_counts(b"123 456 !?", &mut result);
    assert!(result.is_empty());
    parlay::wc_histogram::word_counts(b"", &mut result);
    assert!(result.is_empty());
}

#[test]
fn histogram_counts_a_long_text() {
    let mut text = String::new();
    for i in 0..5000 {
        text.push_str(if i % 3 == 0 { "ab " } else { "Cd," });
    }
    let mut result: Vec<(String, usize)> = Vec::new();
    parlay::wc_histogram::word_counts(text.as_bytes(), &mut result);
    assert_eq!(pairs(&result), vec![("ab", 1667), ("cd", 3333)]);
}

#[test]
fn serial_counts_what_white_space_leaves() {
    let mut result: Vec<(String, usize)> = vec![("old".to_string(), 9)];
    parlay::wc_serial::word_counts(b"Ab cd", &mut result);
    assert_eq!(pairs(&result), vec![("old", 9), ("ab\0cd", 1)]);
}

#[test]
fn serial_counts_of_nothing_are_empty() {
    let mut result: Vec<(String, usize)> = Vec::new();
    parlay::wc_serial::word_counts(b"", &mut result);
    assert!(result.is_empty());
}

#[test]
fn count_word_counts_and_keeps_order() {
    let mut entries: Vec<WordCount> = Vec::new();
    for w in ["b", "a", "b", "c", "b", "a"] {
        count_word(&mut entries, w.as_bytes());
    }
    let seen: Vec<(&[u8], usize)> = entries.iter().map(|e| (e.word.as_slice(), e.count)).collect();
    assert_eq!(seen, vec![(&b"a"[..], 2), (&b"b"[..], 3), (&b"c"[..], 1)]);
}

#[test]
fn can_build_index_asks_for_room_behind_each_header() {
    let ok: Vec<char> = "<doc a b<doc c d".chars().collect();
    assert!(can_build_index(&ok, "<doc"));
    let short: Vec<char> = "<doc a b<doc c".chars().collect();
    assert!(!can_build_index(&short, "<doc"));
    let none: Vec<char> = "plain text".chars().collect();
    assert!(can_build_index(&none, "<doc"));
    assert!(!can_build_index(&none, ""));
    assert!(!can_build_index(&none, "a header longer than the text"));
    assert!(can_build_index(&Vec::new(), ""));
}

#[test]
fn headers_are_apart_unless_they_overlap() {
    assert!(headers_are_apart(b"aa b aa c", "aa"));
    assert!(headers_are_apart(b"aaaa", "aa") == false);
    assert!(headers_are_apart(b"", "aa"));
    assert!(headers_are_apart(b"abab", "ab"));
}
