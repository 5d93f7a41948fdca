use parlay::flatten::clone_into;
use parlay::primitives::{flatten, flatten_by_val};

#[test]
fn flatten_concatenates_the_sources_in_order() {
    let a: Vec<u32> = vec![1, 2];
    let b: Vec<u32> = vec![];
    let c: Vec<u32> = vec![3];
    let d: Vec<u32> = vec![4, 5, 6];
    let mut dest: Vec<u32> = Vec::new();
    flatten(&[&a, &b, &c, &d], &mut dest);
    assert_eq!(dest, vec![1, 2, 3, 4, 5, 6]);
}

#[test]
fn flatten_of_no_sources_is_empty() {
    let sources: Vec<&Vec<u8>> = Vec::new();
    let mut dest: Vec<u8> = vec![1, 2];
    flatten(&sources, &mut dest);
    assert!(dest.is_empty());
}

#[test]
fn flatten_of_empty_sources_is_empty() {
    let a: Vec<u8> = Vec::new();
    let b: Vec<u8> = Vec::new();
    let mut dest: Vec<u8> = vec![1, 2];
    flatten(&[&a, &b, &a], &mut dest);
    assert!(dest.is_empty());
}

#[test]
fn flatten_is_associative_with_concatenation() {
    let a: Vec<i64> = vec![1, 2, 3];
    let b: Vec<i64> = vec![-4];
    let c: Vec<i64> = vec![5, 6];
    let mut all: Vec<i64> = Vec::new();
    flatten(&[&a, &b, &c], &mut all);
    let mut first_two: Vec<i64> = Vec::new();
    flatten(&[&a, &b], &mut first_two);
    let mut nested: Vec<i64> = Vec::new();
    flatten(&[&first_two, &c], &mut nested);
    assert_eq!(all, nested);
    assert_eq!(all, vec![1, 2, 3, -4, 5, 6]);
}

#[test]
fn flatten_by_val_takes_the_sources_themselves() {
    let sources: Vec<Vec<String>> = vec![
        vec!["a".to_string()],
        vec![],
        vec!["b".to_string(), "c".to_string()],
    ];
    let mut dest: Vec<String> = Vec::new();
    flatten_by_val(&sources, &mut dest);
    assert_eq!(dest, vec!["a".to_string(), "b".to_string(), "c".to_string()]);
}

#[test]
fn flatten_copies_long_sources_block_by_block() {
    let a: Vec<usize> = (0..5000).collect();
    let b: Vec<usize> = (5000..5003).collect();
    let c: Vec<usize> = (5003..12000).collect();
    let mut dest: Vec<usize> = Vec::new();
    flatten(&[&a, &b, &c], &mut dest);
    let expected: Vec<usize> = (0..12000).collect();
    assert_eq!(dest, expected);
}

#[test]
fn clone_into_gives_the_same_result_for_every_block_size() {
    let src: Vec<String> = (0..300).map(|i| format!("s{}", i)).collect();
    for bls in [1usize, 2, 7, 299, 300, 301, 1024] {
        let mut dest: Vec<String> = vec![String::new(); 300];
        clone_into(&src, bls, &mut dest);
        assert_eq!(dest, src);
    }
}
