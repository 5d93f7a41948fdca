use parlay::postings::{add_posting, place, write_index, Placement, Posting};
use parlay::text::push_decimal;

fn text_of(chars: &[char]) -> String {
    chars.iter().collect()
}

#[test]
fn serial_index_lists_each_word_with_its_documents() {
    let s: Vec<char> = "<doc Hello world<doc hello, there! ".chars().collect();
    let mut result: Vec<char> = Vec::new();
    parlay::index_serial::build_index(&s, "<doc", &mut result);
    assert_eq!(text_of(&result), "hello 0 1\nthere 1\nworld 0\n");
}

#[test]
fn serial_index_is_appended_to_the_result() {
    let s: Vec<char> = "#a b a# c a ".chars().collect();
    let mut result: Vec<char> = "x\n".chars().collect();
    parlay::index_serial::build_index(&s, "#", &mut result);
    assert_eq!(text_of(&result), "x\na 0 1\nb 0\nc 1\n");
}

#[test]
fn serial_index_skips_the_text_before_the_first_header() {
    let s: Vec<char> = "lost words <d>kept<d>kept too".chars().collect();
    let mut result: Vec<char> = Vec::new();
    parlay::index_serial::build_index(&s, "<d>", &mut result);
    assert_eq!(text_of(&result), "kept 0 1\ntoo 1\n");
}

#[test]
fn serial_index_of_a_text_without_headers_is_empty() {
    let s: Vec<char> = "no header here".chars().collect();
    let mut result: Vec<char> = Vec::new();
    parlay::index_serial::build_index(&s, "<doc", &mut result);
    assert!(result.is_empty());
}

#[test]
fn serial_index_of_nothing_is_empty() {
    let s: Vec<char> = Vec::new();
    let mut result: Vec<char> = Vec::new();
    parlay::index_serial::build_index(&s, "", &mut result);
    assert!(result.is_empty());
}

#[test]
fn parallel_index_lists_each_word_with_its_documents() {
    let s = "<doc Hello world<doc hello, there! ".as_bytes();
    let mut result: Vec<char> = vec!['x'];
    parlay::index_parallel::build_index(s, "<doc", &mut result);
    assert_eq!(text_of(&result), "hello 0 1\nthere 1\nworld 0\n");
}

#[test]
fn parallel_index_agrees_with_the_serial_one() {
    let mut text = String::new();
    for d in 0..40 {
        text.push_str("<doc id> ");
        for w in 0..50 {
            let word = match (d * 7 + w * 3) % 6 {
                0 => "Alpha",
                1 => "beta",
                2 => "GAMMA",
                3 => "delta",
                4 => "be",
                _ => "zeta",
            };
            text.push_str(word);
            text.push_str(if w % 2 == 0 { " " } else { ", " });
        }
    }
    let chars: Vec<char> = text.chars().collect();
    let mut serial: Vec<char> = Vec::new();
    parlay::index_serial::build_index(&chars, "<doc", &mut serial);
    let mut parallel: Vec<char> = Vec::new();
    parlay::index_parallel::build_index(text.as_bytes(), "<doc", &mut parallel);
    assert_eq!(text_of(&parallel), text_of(&serial));
    assert!(text_of(&serial).contains("\nid 0 1 2 3 "));
}

#[test]
fn parallel_index_of_a_text_without_headers_is_empty() {
    let mut result: Vec<char> = vec!['x'];
    parlay::index_parallel::build_index("no header here".as_bytes(), "<doc", &mut result);
    assert!(result.is_empty());
}

#[test]
fn place_orders_words_by_their_first_difference() {
    assert_eq!(place(b"abc", b"abd"), Placement::Before);
    assert_eq!(place(b"ab", b"abc"), Placement::Before);
    assert_eq!(place(b"", b"a"), Placement::Before);
    assert_eq!(place(b"abc", b"abc"), Placement::Same);
    assert_eq!(place(b"", b""), Placement::Same);
    assert_eq!(place(b"b", b"abc"), Placement::After);
    assert_eq!(place(b"abc", b"ab"), Placement::After);
}

#[test]
fn add_posting_keeps_words_sorted_and_documents_once() {
    let mut entries: Vec<Posting> = Vec::new();
    add_posting(&mut entries, b"pear", 0);
    add_posting(&mut entries, b"apple", 0);
    add_posting(&mut entries, b"pear", 0);
    add_posting(&mut entries, b"fig", 1);
    add_posting(&mut entries, b"apple", 2);
    let words: Vec<&[u8]> = entries.iter().map(|e| e.word.as_slice()).collect();
    assert_eq!(words, vec![&b"apple"[..], &b"fig"[..], &b"pear"[..]]);
    assert_eq!(entries[0].docs, vec![0, 2]);
    assert_eq!(entries[1].docs, vec![1]);
    assert_eq!(entries[2].docs, vec![0]);
    let mut out: Vec<char> = Vec::new();
    write_index(&entries, &mut out);
    assert_eq!(text_of(&out), "apple 0 2\nfig 1\npear 0\n");
}

#[test]
fn push_decimal_writes_the_digits() {
    let mut out: Vec<char> = vec!['n'];
    push_decimal(&mut out, 0);
    out.push(' ');
    push_decimal(&mut out, 7);
    out.push(' ');
    push_decimal(&mut out, 10);
    out.push(' ');
    push_decimal(&mut out, 90210);
    assert_eq!(text_of(&out), "n0 7 10 90210");
}
