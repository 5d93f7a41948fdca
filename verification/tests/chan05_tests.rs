use std::cmp::Ordering;

use parlay::chan05::{cmp_shuffle, deciding_dim, dist_sq_to_box, less_msb, set_below_msb};
use parlay::geometry::Point;

#[test]
fn less_msb_compares_the_highest_set_digits() {
    assert!(less_msb(0, 1));
    assert!(less_msb(1, 2));
    assert!(less_msb(3, 4));
    assert!(less_msb(5, 8));
    assert!(!less_msb(0, 0));
    assert!(!less_msb(4, 5));
    assert!(!less_msb(5, 4));
    assert!(!less_msb(8, 7));
    assert!(less_msb(u64::MAX >> 1, u64::MAX));
}

#[test]
fn set_below_msb_fills_the_lower_digits() {
    assert_eq!(set_below_msb(0), 0);
    assert_eq!(set_below_msb(1), 1);
    assert_eq!(set_below_msb(2), 3);
    assert_eq!(set_below_msb(4), 7);
    assert_eq!(set_below_msb(5), 7);
    assert_eq!(set_below_msb(0x1234), 0x1fff);
    assert_eq!(set_below_msb(0x8000_0000), 0xffff_ffff);
}

#[test]
fn deciding_dim_is_the_first_with_the_highest_difference() {
    assert_eq!(deciding_dim(&Point::new([1u64, 2, 3]), &Point::new([1u64, 2, 3])), 0);
    assert_eq!(deciding_dim(&Point::new([1u64, 8, 3]), &Point::new([0u64, 0, 12])), 1);
    assert_eq!(deciding_dim(&Point::new([1u64, 4, 16]), &Point::new([0u64, 0, 0])), 2);
    assert_eq!(deciding_dim(&Point::new([5u64, 6]), &Point::new([1u64, 3])), 0);
}

#[test]
fn cmp_shuffle_orders_by_the_deciding_coordinate() {
    let p = Point::new([1u64, 8]);
    let q = Point::new([2u64, 1]);
    assert_eq!(cmp_shuffle(p, q), Ordering::Greater);
    assert_eq!(cmp_shuffle(q, p), Ordering::Less);
    assert_eq!(cmp_shuffle(p, p), Ordering::Equal);
    assert_eq!(cmp_shuffle(Point::new([4u64, 0]), Point::new([0u64, 7])), Ordering::Greater);
}

#[test]
fn dist_sq_to_box_is_zero_inside_the_box() {
    let corners = (Point::new([8u64, 8]), Point::new([11u64, 10]));
    assert_eq!(dist_sq_to_box(Point::new([9u64, 9]), corners), 0);
    assert_eq!(dist_sq_to_box(Point::new([8u64, 11]), corners), 0);
}

#[test]
fn dist_sq_to_box_adds_the_squares_of_the_sides() {
    let corners = (Point::new([8u64, 8]), Point::new([11u64, 10]));
    assert_eq!(dist_sq_to_box(Point::new([5u64, 9]), corners), 9);
    assert_eq!(dist_sq_to_box(Point::new([14u64, 15]), corners), 9 + 16);
    assert_eq!(dist_sq_to_box(Point::new([0u64, 0]), corners), 64 + 64);
}
