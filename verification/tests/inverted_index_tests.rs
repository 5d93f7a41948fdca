use parlay::index_parallel::{djb2_hash_char, djb2_hash_str};
use parlay::index_serial::search;

#[test]
fn djb2_of_nothing_is_the_seed() {
    assert_eq!(djb2_hash_char(&[]), 5381);
    assert_eq!(djb2_hash_str(""), 5381);
}

#[test]
fn djb2_multiplies_by_33_and_adds() {
    assert_eq!(djb2_hash_char(b"a"), 5381 * 33 + 97);
    assert_eq!(djb2_hash_char(b"ab"), (5381 * 33 + 97) * 33 + 98);
    assert_eq!(djb2_hash_str("ab"), (5381 * 33 + 97) * 33 + 98);
}

#[test]
fn djb2_wraps_around() {
    let expected = "a long enough word to overflow"
        .bytes()
        .fold(5381usize, |h, c| h.wrapping_mul(33).wrapping_add(c as usize));
    assert_eq!(djb2_hash_char(b"a long enough word to overflow"), expected);
    assert_eq!(djb2_hash_str("a long enough word to overflow"), expected);
}

#[test]
fn djb2_of_a_string_hashes_code_points() {
    assert_eq!(djb2_hash_str("\u{e9}"), 5381 * 33 + 0xe9);
}

#[test]
fn search_finds_the_first_occurrence() {
    let input: Vec<char> = "abcabc".chars().collect();
    let delim: Vec<char> = "bc".chars().collect();
    assert_eq!(search(&input, &delim), Some(1));
}

#[test]
fn search_for_nothing_finds_it_at_once() {
    let input: Vec<char> = "abc".chars().collect();
    assert_eq!(search(&input, &[]), Some(0));
    assert_eq!(search(&[], &[]), Some(0));
}

#[test]
fn search_for_something_longer_than_the_input_gives_none() {
    let input: Vec<char> = "ab".chars().collect();
    let delim: Vec<char> = "abc".chars().collect();
    assert_eq!(search(&input, &delim), None);
}

#[test]
fn search_gives_the_length_where_nothing_is_found() {
    let input: Vec<char> = "abcabc".chars().collect();
    let delim: Vec<char> = "cb".chars().collect();
    assert_eq!(search(&input, &delim), Some(6));
}

#[test]
fn search_finds_an_occurrence_at_the_end() {
    let input: Vec<char> = "xxabc".chars().collect();
    let delim: Vec<char> = "abc".chars().collect();
    assert_eq!(search(&input, &delim), Some(2));
}
