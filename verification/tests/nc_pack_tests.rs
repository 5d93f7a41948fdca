use parlay::primitives::{nc_pack, nc_pack_helper, nc_pack_serial, nc_pack_serial_at};

#[test]
fn nc_pack_keeps_flagged_elements_that_cannot_be_copied() {
    let source: Vec<String> = vec!["a".to_string(), "b".to_string(), "c".to_string()];
    let flags = vec![true, false, true];
    let mut dest: Vec<String> = Vec::new();
    nc_pack(&source, &flags, &mut dest);
    assert_eq!(dest, vec!["a".to_string(), "c".to_string()]);
}

#[test]
fn nc_pack_of_empty_source_is_empty() {
    let source: Vec<String> = Vec::new();
    let flags: Vec<bool> = Vec::new();
    let mut dest: Vec<String> = vec!["x".to_string()];
    nc_pack(&source, &flags, &mut dest);
    assert!(dest.is_empty());
}

#[test]
fn nc_pack_serial_at_fills_the_first_places_once() {
    let flags = vec![false, true, true, false, true];
    let mut slots: Vec<Option<String>> = vec![None, None, None, None];
    nc_pack_serial_at(&|i: usize| format!("v{}", i), &flags, &mut slots);
    assert_eq!(
        slots,
        vec![
            Some("v1".to_string()),
            Some("v2".to_string()),
            Some("v4".to_string()),
            None
        ]
    );
}

#[test]
fn nc_pack_serial_places_every_kept_value() {
    let flags = vec![true, true, false, true];
    let mut dest: Vec<Vec<usize>> = Vec::new();
    nc_pack_serial(|i| vec![i; i], &flags, &mut dest);
    assert_eq!(dest, vec![vec![], vec![1], vec![3, 3, 3]]);
}

#[test]
fn nc_pack_helper_gives_the_same_result_for_every_block_size() {
    let n: usize = 777;
    let flags: Vec<bool> = (0..n).map(|i| i % 4 == 1 || i % 9 == 0).collect();
    let expected: Vec<String> = (0..n).filter(|i| flags[*i]).map(|i| i.to_string()).collect();
    for bls in [1usize, 2, 5, 100, 776, 777, 778, 4096] {
        let mut dest: Vec<String> = Vec::new();
        nc_pack_helper(|i: usize| i.to_string(), &flags, bls, &mut dest);
        assert_eq!(dest, expected);
    }
}

#[test]
fn nc_pack_of_a_large_input_uses_the_blocked_path() {
    let n: usize = 40_000;
    let source: Vec<String> = (0..n).map(|i| i.to_string()).collect();
    let flags: Vec<bool> = (0..n).map(|i| i % 3 == 2).collect();
    let expected: Vec<String> = (0..n).filter(|i| i % 3 == 2).map(|i| i.to_string()).collect();
    let mut dest: Vec<String> = Vec::new();
    nc_pack(&source, &flags, &mut dest);
    assert_eq!(dest, expected);
}
