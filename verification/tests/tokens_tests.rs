use parlay::primitives::{map_tokens, tokens};

fn is_blank(c: &u8) -> bool {
    *c == b' '
}

#[test]
fn tokenize_round_trip() {
    let text: Vec<u8> = "  ab  cd ".bytes().collect();
    let found = tokens(&text, is_blank);
    assert_eq!(found.len(), 2);
    assert_eq!(found[0], "ab".as_bytes());
    assert_eq!(found[1], "cd".as_bytes());
}

#[test]
fn tokenize_of_empty_input_has_no_tokens() {
    let text: Vec<u8> = Vec::new();
    let found = tokens(&text, is_blank);
    assert_eq!(found.len(), 0);
}

#[test]
fn tokenize_without_separators_gives_one_token() {
    let text: Vec<u8> = "abc".bytes().collect();
    let found = tokens(&text, is_blank);
    assert_eq!(found.len(), 1);
    assert_eq!(found[0], "abc".as_bytes());
}

#[test]
fn tokenize_of_separators_only_has_no_tokens() {
    let text: Vec<u8> = "    ".bytes().collect();
    let found = tokens(&text, is_blank);
    assert!(found.is_empty());
}

#[test]
fn tokenize_keeps_tokens_at_both_ends() {
    let text: Vec<u8> = "x yz  w".bytes().collect();
    let found = tokens(&text, is_blank);
    assert_eq!(found, vec!["x".as_bytes(), "yz".as_bytes(), "w".as_bytes()]);
}

#[test]
fn map_tokens_applies_the_transform_to_each_token() {
    let text: Vec<u8> = " one three  fives ".bytes().collect();
    let lengths = map_tokens(&text, |word: &[u8]| word.len(), is_blank);
    assert_eq!(lengths, vec![3, 5, 5]);
}

#[test]
fn map_tokens_with_the_identity_is_tokenize() {
    let text: Vec<u8> = "a bb  ccc   dddd".bytes().collect();
    let mapped: Vec<&[u8]> = map_tokens(&text, |word| word, is_blank);
    let split: Vec<&[u8]> = tokens(&text, is_blank);
    assert_eq!(mapped, split);
}

#[test]
fn tokenize_of_a_long_input_matches_a_plain_split() {
    let n: usize = 20_000;
    let text: Vec<u8> = (0..n)
        .map(|i| if (i * i + 3 * i) % 7 < 2 { b' ' } else { b'a' + (i % 26) as u8 })
        .collect();
    let found = tokens(&text, is_blank);
    let expected: Vec<&[u8]> = text.split(|c| *c == b' ').filter(|w| !w.is_empty()).collect();
    assert_eq!(found, expected);
}

#[test]
fn tokens_may_straddle_block_edges() {
    let mut text: Vec<u8> = vec![b'q'; 3000];
    text[1500] = b' ';
    let found = tokens(&text, is_blank);
    assert_eq!(found.len(), 2);
    assert_eq!(found[0].len(), 1500);
    assert_eq!(found[1].len(), 1499);
}
