use parlay::primitives::{pack, pack_index, PackError};

#[test]
fn pack_index_gives_the_flagged_positions() {
    let flags = vec![true, false, true, false, false, true];
    let mut dest: Vec<u32> = Vec::new();
    assert_eq!(pack_index(&flags, &mut dest), Ok(()));
    assert_eq!(dest, vec![0, 2, 5]);
}

#[test]
fn pack_index_is_the_pack_of_the_identity() {
    let n: usize = 30_000;
    let flags: Vec<bool> = (0..n).map(|i| (i * 7) % 11 < 4).collect();
    let identity: Vec<usize> = (0..n).collect();
    let mut by_pack: Vec<usize> = Vec::new();
    pack(&identity, &flags, &mut by_pack);
    let mut by_index: Vec<usize> = Vec::new();
    assert_eq!(pack_index(&flags, &mut by_index), Ok(()));
    assert_eq!(by_index, by_pack);
}

#[test]
fn pack_index_refuses_empty_flags() {
    let flags: Vec<bool> = Vec::new();
    let mut dest: Vec<u64> = vec![9, 9];
    assert_eq!(pack_index(&flags, &mut dest), Err(PackError::InvalidArgument));
    assert_eq!(dest, vec![9, 9]);
}

#[test]
fn pack_index_reports_the_first_position_that_does_not_fit() {
    let mut flags = vec![false; 400];
    flags[3] = true;
    flags[255] = true;
    flags[300] = true;
    flags[399] = true;
    let mut dest: Vec<u8> = vec![1];
    assert_eq!(
        pack_index(&flags, &mut dest),
        Err(PackError::ConversionError { index: 300 })
    );
    assert_eq!(dest, vec![1]);
}

#[test]
fn pack_index_accepts_long_flags_whose_kept_positions_fit() {
    let mut flags = vec![false; 1000];
    flags[0] = true;
    flags[127] = true;
    let mut dest: Vec<i8> = Vec::new();
    assert_eq!(pack_index(&flags, &mut dest), Ok(()));
    assert_eq!(dest, vec![0, 127]);
}

#[test]
fn pack_index_reports_a_signed_overflow() {
    let mut flags = vec![false; 200];
    flags[128] = true;
    let mut dest: Vec<i8> = Vec::new();
    assert_eq!(
        pack_index(&flags, &mut dest),
        Err(PackError::ConversionError { index: 128 })
    );
}
