use parlay::primitives::{pack, pack_helper, pack_serial};

#[test]
fn pack_keeps_flagged_elements_in_order() {
    let source: Vec<u32> = vec![1, 0, 2, 0, 0, 3];
    let flags = vec![true, false, true, false, false, true];
    let mut dest: Vec<u32> = Vec::new();
    pack(&source, &flags, &mut dest);
    assert_eq!(dest, vec![1, 2, 3]);
}

#[test]
fn pack_of_empty_source_is_empty() {
    let source: Vec<u32> = Vec::new();
    let flags: Vec<bool> = Vec::new();
    let mut dest: Vec<u32> = vec![7, 7];
    pack(&source, &flags, &mut dest);
    assert!(dest.is_empty());
}

#[test]
fn pack_serial_calls_the_source_function() {
    let flags = vec![false, true, true, false, true];
    let mut dest: Vec<usize> = Vec::new();
    pack_serial(|i| i * 10, &flags, &mut dest);
    assert_eq!(dest, vec![10, 20, 40]);
}

#[test]
fn pack_helper_gives_the_same_result_for_every_block_size() {
    let n: usize = 1000;
    let flags: Vec<bool> = (0..n).map(|i| i % 3 == 0 || i % 7 == 2).collect();
    let expected: Vec<usize> = (0..n).filter(|i| flags[*i]).map(|i| i + 5).collect();
    for bls in [1usize, 2, 3, 7, 64, 999, 1000, 1001, 5000] {
        let mut dest: Vec<usize> = Vec::new();
        pack_helper(|i| i + 5, &flags, bls, &mut dest);
        assert_eq!(dest, expected);
    }
}

#[test]
fn pack_of_a_large_input_uses_the_blocked_path() {
    let n: usize = 50_000;
    let source: Vec<u64> = (0..n as u64).collect();
    let flags: Vec<bool> = (0..n).map(|i| i % 5 != 1).collect();
    let expected: Vec<u64> = (0..n as u64).filter(|i| i % 5 != 1).collect();
    let mut dest: Vec<u64> = Vec::new();
    pack(&source, &flags, &mut dest);
    assert_eq!(dest, expected);
}

#[test]
fn pack_with_all_flags_set_copies_the_source() {
    let source: Vec<i32> = vec![4, -1, 9, 9, 0];
    let flags = vec![true; 5];
    let mut dest: Vec<i32> = Vec::new();
    pack(&source, &flags, &mut dest);
    assert_eq!(dest, source);
}

#[test]
fn pack_with_no_flag_set_is_empty() {
    let source: Vec<i32> = vec![4, -1, 9, 9, 0];
    let flags = vec![false; 5];
    let mut dest: Vec<i32> = vec![1];
    pack(&source, &flags, &mut dest);
    assert!(dest.is_empty());
}

#[test]
fn pack_serial_of_no_flags_is_empty() {
    let flags: Vec<bool> = Vec::new();
    let mut dest: Vec<usize> = vec![3];
    pack_serial(|i| i, &flags, &mut dest);
    assert!(dest.is_empty());
}
