use parlay::convex_hull::split;

#[test]
fn split_gathers_both_sides() {
    let mut indices: Vec<usize> = vec![5, 12, 7, 30, 1, 18, 22, 3, 40];
    let (l, r) = split(&mut indices, |i| i < 10, |i| i >= 20);
    assert_eq!((l, r), (4, 3));
    let mut left: Vec<usize> = indices[..l].to_vec();
    left.sort();
    assert_eq!(left, vec![1, 3, 5, 7]);
    let mut right: Vec<usize> = indices[indices.len() - r..].to_vec();
    right.sort();
    assert_eq!(right, vec![22, 30, 40]);
}

#[test]
fn split_may_put_everything_on_one_side() {
    let mut all_right: Vec<usize> = vec![3, 1, 2];
    assert_eq!(split(&mut all_right, |_| false, |_| true), (0, 3));
    all_right.sort();
    assert_eq!(all_right, vec![1, 2, 3]);
    let mut all_left: Vec<usize> = vec![3, 1, 2];
    assert_eq!(split(&mut all_left, |_| true, |_| false), (3, 0));
    all_left.sort();
    assert_eq!(all_left, vec![1, 2, 3]);
}

#[test]
fn split_leaves_out_what_no_side_takes() {
    let mut indices: Vec<usize> = vec![4, 4, 4];
    assert_eq!(split(&mut indices, |_| false, |_| false), (0, 0));
    let mut one: Vec<usize> = vec![9];
    assert_eq!(split(&mut one, |i| i == 9, |_| false), (1, 0));
    assert_eq!(one, vec![9]);
}

#[test]
fn split_swaps_elements_on_the_wrong_side() {
    let mut indices: Vec<usize> = vec![100, 1, 200, 2];
    let (l, r) = split(&mut indices, |i| i < 10, |i| i >= 100);
    assert_eq!((l, r), (2, 2));
    let mut left: Vec<usize> = indices[..2].to_vec();
    left.sort();
    assert_eq!(left, vec![1, 2]);
    let mut right: Vec<usize> = indices[2..].to_vec();
    right.sort();
    assert_eq!(right, vec![100, 200]);
}
