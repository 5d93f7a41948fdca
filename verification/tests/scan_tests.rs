use parlay::blocks::{block_bounds, block_starts, num_blocks};
use parlay::flags::sum_bool_serial;
use parlay::monoid::Monoid;
use parlay::pack::pack_offsets;
use parlay::sequence_ops::{block_delayed_scan, reduce_serial, scan_blocks, scan_serial_inplace};
use parlay::tokens::TokenPair;

#[test]
fn num_blocks_rounds_up() {
    assert_eq!(num_blocks(0, 4), 0);
    assert_eq!(num_blocks(1, 4), 1);
    assert_eq!(num_blocks(4, 4), 1);
    assert_eq!(num_blocks(5, 4), 2);
    assert_eq!(num_blocks(8, 4), 2);
    assert_eq!(num_blocks(9, 4), 3);
    assert_eq!(num_blocks(7, 1), 7);
    assert_eq!(num_blocks(7, 100), 1);
}

#[test]
fn block_bounds_cap_the_last_block() {
    assert_eq!(block_bounds(0, 4, 10), (0, 4));
    assert_eq!(block_bounds(1, 4, 10), (4, 8));
    assert_eq!(block_bounds(2, 4, 10), (8, 10));
    assert_eq!(block_starts(4, 10), vec![0, 4, 8]);
    assert_eq!(block_starts(4, 0), Vec::<usize>::new());
}

#[test]
fn sum_bool_serial_counts_set_flags() {
    assert_eq!(sum_bool_serial(&[]), 0);
    assert_eq!(sum_bool_serial(&[false, false]), 0);
    assert_eq!(sum_bool_serial(&[true, false, true, true]), 3);
}

#[test]
fn scan_serial_inplace_is_exclusive() {
    let mut v: Vec<usize> = vec![3, 1, 4, 1, 5];
    let total = scan_serial_inplace(&mut v);
    assert_eq!(v, vec![0, 3, 4, 8, 9]);
    assert_eq!(total, 14);
}

#[test]
fn scan_of_nothing_is_the_identity() {
    let mut v: Vec<usize> = Vec::new();
    assert_eq!(scan_serial_inplace(&mut v), 0);
    let (offsets, total) = block_delayed_scan::<usize>(&[], 8);
    assert!(offsets.is_empty());
    assert_eq!(total, 0);
}

#[test]
fn reduce_serial_combines_a_run() {
    let v: Vec<usize> = vec![3, 1, 4, 1, 5];
    assert_eq!(reduce_serial(&v, 1, 4), 6);
    assert_eq!(reduce_serial(&v, 2, 2), 0);
}

#[test]
fn block_delayed_scan_gives_the_same_result_for_every_block_size() {
    let input: Vec<usize> = (0..1000).map(|i| (i * 37) % 11).collect();
    let mut expected = input.clone();
    let expected_total = scan_serial_inplace(&mut expected);
    for bls in [1usize, 2, 3, 10, 31, 32, 999, 1000, 1001, 100_000] {
        let (offsets, total) = block_delayed_scan(&input, bls);
        assert_eq!(offsets, expected);
        assert_eq!(total, expected_total);
    }
}

#[test]
fn pack_offsets_are_the_counts_before_each_block() {
    let flags = vec![true, true, false, false, true, false, true, true, true];
    let (offsets, total) = pack_offsets(&flags, 4);
    assert_eq!(offsets, vec![0, 2, 5]);
    assert_eq!(total, 6);
}

#[test]
fn token_pairs_carry_the_last_start_forward() {
    let none = TokenPair { count: 0, start: 0 };
    let a = TokenPair { count: 2, start: 7 };
    let b = TokenPair { count: 1, start: 9 };
    assert_eq!(a.combine(&none), a);
    assert_eq!(none.combine(&a), a);
    assert_eq!(a.combine(&b), TokenPair { count: 3, start: 9 });
    assert_eq!(b.combine(&a), TokenPair { count: 3, start: 7 });
    assert_eq!(TokenPair::identity(), none);
}

#[test]
fn token_pair_combine_is_associative() {
    let values = [
        TokenPair { count: 0, start: 0 },
        TokenPair { count: 1, start: 4 },
        TokenPair { count: 1, start: 8 },
        TokenPair { count: 3, start: 2 },
    ];
    for a in values {
        for b in values {
            for c in values {
                assert_eq!(a.combine(&b).combine(&c), a.combine(&b.combine(&c)));
            }
        }
    }
}

#[test]
fn token_scan_gives_the_same_result_for_every_block_size() {
    let input: Vec<TokenPair> = (0..200usize)
        .map(|i| {
            if i % 5 == 1 {
                TokenPair { count: 1, start: i }
            } else {
                TokenPair { count: 0, start: 0 }
            }
        })
        .collect();
    let (expected, expected_total) = block_delayed_scan(&input, 1000);
    assert_eq!(expected[0], TokenPair { count: 0, start: 0 });
    assert_eq!(expected[2], TokenPair { count: 1, start: 1 });
    assert_eq!(expected[7], TokenPair { count: 2, start: 6 });
    assert_eq!(expected_total, TokenPair { count: 40, start: 196 });
    for bls in [1usize, 2, 3, 16, 199, 200] {
        let (offsets, total) = block_delayed_scan(&input, bls);
        assert_eq!(offsets, expected);
        assert_eq!(total, expected_total);
    }
}

#[test]
fn scan_blocks_gives_the_offset_of_each_block() {
    let input: Vec<usize> = vec![1, 2, 3, 4, 5, 6, 7];
    assert_eq!(scan_blocks(&input, 3), (vec![0, 6, 21], 28));
    assert_eq!(scan_blocks(&input, 7), (vec![0], 28));
    assert_eq!(scan_blocks(&input, 100), (vec![0], 28));
    assert_eq!(scan_blocks(&input, 1), (vec![0, 1, 3, 6, 10, 15, 21], 28));
    assert_eq!(scan_blocks::<usize>(&[], 3), (vec![], 0));
}

#[test]
fn scan_blocks_scans_many_aggregates_by_blocks_again() {
    let input: Vec<usize> = (0..500).collect();
    let (offsets, total) = scan_blocks(&input, 2);
    assert_eq!(total, 499 * 500 / 2);
    assert_eq!(offsets.len(), 250);
    for (i, offset) in offsets.iter().enumerate() {
        let lo = 2 * i;
        assert_eq!(*offset, lo * lo.saturating_sub(1) / 2);
    }
}
