use crate::geometry::Point;
use std::cmp::Ordering;
use vstd::prelude::*;

verus! {

/// The number of binary digits of `x`: 0 for 0, and one more than the
/// place of the highest digit that is set otherwise.
pub open spec fn bits(x: nat) -> nat
    decreases x,
{
    if x == 0 {
        0
    } else {
        1 + bits(x / 2)
    }
}

/// Halving both numbers keeps the answer of `less_msb`, unless the second
/// is below 2.
proof fn lemma_less_msb_step(x: u64, y: u64)
    ensures
        y >= 2 ==> ((x < y && x < (x ^ y)) <==> ((x >> 1) < (y >> 1) && (x >> 1) < ((x >> 1) ^ (y
            >> 1)))),
        y < 2 ==> ((x < y && x < (x ^ y)) <==> (x == 0 && y == 1)),
        (x >> 1) == x / 2,
        (y >> 1) == y / 2,
{
    assert(y >= 2 ==> ((x < y && x < (x ^ y)) <==> ((x >> 1) < (y >> 1) && (x >> 1) < ((x >> 1) ^ (
    y >> 1))))) by (bit_vector);
    assert(y < 2 ==> ((x < y && x < (x ^ y)) <==> (x == 0 && y == 1))) by (bit_vector);
    assert((x >> 1) == x / 2) by (bit_vector);
    assert((y >> 1) == y / 2) by (bit_vector);
}

/// The answer of `less_msb` is whether the first number has fewer digits.
proof fn lemma_less_msb(x: u64, y: u64)
    ensures
        (x < y && x < (x ^ y)) <==> bits(x as nat) < bits(y as nat),
    decreases y,
{
    lemma_less_msb_step(x, y);
    if y >= 2 {
        lemma_less_msb(x >> 1, y >> 1);
    } else {
        if y == 1 {
            assert(bits(1) == 1 + bits(0));
        }
    }
}

/// Whether the highest set digit of `x` is below that of `y`.
pub fn less_msb(x: u64, y: u64) -> (r: bool)
    ensures
        r == (bits(x as nat) < bits(y as nat)),
{
    proof {
        lemma_less_msb(x, y);
    }
    x < y && x < x ^ y
}

/// Sets every digit below the highest set digit of `x`.  For numbers below
/// 2^32 the result is the least number not below `x` whose digits are set
/// from the highest one down: below each set digit of it the next is set,
/// and half of it is not above `x`.
pub fn set_below_msb(x: u64) -> (r: u64)
    ensures
        x <= r,
        x < 0x1_0000_0000 ==> (r | (r >> 1)) == r && (r >> 1) <= x,
{
    let a: u64 = x | x >> 1;
    let b: u64 = a | a >> 2;
    let c: u64 = b | b >> 4;
    let d: u64 = c | c >> 8;
    let r: u64 = d | d >> 16;
    proof {
        assert(x <= r) by (bit_vector)
            requires
                a == x | x >> 1,
                b == a | a >> 2,
                c == b | b >> 4,
                d == c | c >> 8,
                r == d | d >> 16,
        ;
        assert(x < 0x1_0000_0000 ==> (r | (r >> 1)) == r && (r >> 1) <= x) by (bit_vector)
            requires
                a == x | x >> 1,
                b == a | a >> 2,
                c == b | b >> 4,
                d == c | c >> 8,
                r == d | d >> 16,
        ;
    }
    r
}

/// The digits in which coordinate `i` of `p` and `q` differ.
pub open spec fn difference(p: Seq<u64>, q: Seq<u64>, i: int) -> u64 {
    p[i] ^ q[i]
}

/// `d` is the coordinate that decides between `p` and `q` in the order of
/// shuffled digits: the first one whose difference has the most digits.
pub open spec fn is_deciding_dim(p: Seq<u64>, q: Seq<u64>, d: int) -> bool {
    &&& 0 <= d < p.len()
    &&& forall|i: int|
        0 <= i < p.len() ==> bits(#[trigger] difference(p, q, i) as nat) <= bits(
            difference(p, q, d) as nat,
        )
    &&& forall|i: int|
        0 <= i < d ==> bits(#[trigger] difference(p, q, i) as nat) < bits(
            difference(p, q, d) as nat,
        )
}

/// Finds the coordinate that decides between `p` and `q`.
pub fn deciding_dim<const D: usize>(p: &Point<D, u64>, q: &Point<D, u64>) -> (d: usize)
    requires
        D > 0,
    ensures
        is_deciding_dim(p@, q@, d as int),
{
    proof {
        p.lemma_dimension();
        q.lemma_dimension();
    }
    let mut highest: u64 = p[0] ^ q[0];
    let mut d: usize = 0;
    let mut i: usize = 1;
    while i < D
        invariant
            1 <= i <= D,
            p@.len() == D,
            q@.len() == D,
            d < i,
            highest == difference(p@, q@, d as int),
            forall|k: int|
                0 <= k < i ==> bits(#[trigger] difference(p@, q@, k) as nat) <= bits(
                    highest as nat,
                ),
            forall|k: int|
                0 <= k < d ==> bits(#[trigger] difference(p@, q@, k) as nat) < bits(
                    highest as nat,
                ),
        decreases D - i,
    {
        let here: u64 = p[i] ^ q[i];
        if less_msb(highest, here) {
            highest = here;
            d = i;
        }
        i = i + 1;
    }
    d
}

/// Places `p` with respect to `q` in the order of shuffled digits: by the
/// coordinate that decides between them.
pub fn cmp_shuffle<const D: usize>(p: Point<D, u64>, q: Point<D, u64>) -> (r: Ordering)
    requires
        D > 0,
    ensures
        exists|d: int|
            {
                &&& #[trigger] is_deciding_dim(p@, q@, d)
                &&& r == Ordering::Less <==> p@[d] < q@[d]
                &&& r == Ordering::Equal <==> p@[d] == q@[d]
                &&& r == Ordering::Greater <==> p@[d] > q@[d]
            },
{
    proof {
        p.lemma_dimension();
        q.lemma_dimension();
    }
    let d: usize = deciding_dim(&p, &q);
    let a: u64 = p[d];
    let b: u64 = q[d];
    if a < b {
        Ordering::Less
    } else if a == b {
        Ordering::Equal
    } else {
        Ordering::Greater
    }
}

/// `size` is `x` with every digit below its highest set digit set too.
pub open spec fn is_filled(x: u64, size: u64) -> bool {
    x <= size && (size | (size >> 1)) == size && (size >> 1) <= x
}

/// The square of the distance from `p` to the side of a box along one
/// coordinate: the side begins at `lo` with the digits of `size` cleared and
/// is `size` long.
pub open spec fn side_distance(p: u64, lo: u64, size: u64) -> int {
    let lower = lo & !size;
    let upper = lower + size;
    if p < lower {
        (lower - p) * (lower - p)
    } else if p > upper {
        (p - upper) * (p - upper)
    } else {
        0
    }
}

/// The square of the distance from `p` to the box whose sides begin at `lo`
/// with the digits of `size` cleared and are `size` long.
pub open spec fn box_distance(p: Seq<u64>, lo: Seq<u64>, size: u64) -> int
    decreases p.len(),
{
    if p.len() == 0 || lo.len() != p.len() {
        0
    } else {
        box_distance(p.drop_last(), lo.drop_last(), size) + side_distance(
            p.last(),
            lo.last(),
            size,
        )
    }
}

/// Every coordinate is below 2^31.
pub open spec fn is_small(p: Seq<u64>) -> bool {
    forall|i: int| 0 <= i < p.len() ==> #[trigger] p[i] < 0x8000_0000
}

/// The distance along one coordinate fits well into 64 digits.
proof fn lemma_side_distance_bound(p: u64, lo: u64, size: u64)
    requires
        p < 0x8000_0000,
        lo < 0x8000_0000,
        size < 0x1_0000_0000,
    ensures
        (lo & !size) <= lo,
        0 <= side_distance(p, lo, size) < 0x4000_0000_0000_0000,
{
    let lower = lo & !size;
    assert(lower <= lo) by (bit_vector)
        requires
            lower == lo & !size,
    ;
    let upper = lower + size;
    if p < lower {
        let a = lower - p;
        assert(0 <= a * a < 0x4000_0000_0000_0000) by (nonlinear_arith)
            requires
                0 <= a < 0x8000_0000,
        ;
    } else if p > upper {
        let a = p - upper;
        assert(0 <= a * a < 0x4000_0000_0000_0000) by (nonlinear_arith)
            requires
                0 <= a < 0x8000_0000,
        ;
    }
}

/// The square of the distance from `p` to the least box of shuffled keys
/// that holds both corners of `bounding_box`: the box whose sides are as
/// long as the highest difference between the corners, filled up, and begin
/// where the lower corner has those digits cleared.
pub fn dist_sq_to_box<const D: usize>(
    p: Point<D, u64>,
    bounding_box: (Point<D, u64>, Point<D, u64>),
) -> (r: u64)
    requires
        0 < D <= 4,
        is_small(p@),
        is_small(bounding_box.0@),
        is_small(bounding_box.1@),
    ensures
        exists|d: int, size: u64|
            {
                &&& #[trigger] is_deciding_dim(bounding_box.0@, bounding_box.1@, d)
                &&& #[trigger] is_filled(difference(bounding_box.0@, bounding_box.1@, d), size)
                &&& r == box_distance(p@, bounding_box.0@, size)
            },
{
    let lo: &Point<D, u64> = &bounding_box.0;
    let hi: &Point<D, u64> = &bounding_box.1;
    proof {
        p.lemma_dimension();
        lo.lemma_dimension();
        hi.lemma_dimension();
    }
    let d: usize = deciding_dim(lo, hi);
    let a: u64 = lo[d];
    let b: u64 = hi[d];
    let highest: u64 = a ^ b;
    let size: u64 = set_below_msb(highest);
    proof {
        assert(highest < 0x8000_0000) by (bit_vector)
            requires
                highest == a ^ b,
                a < 0x8000_0000,
                b < 0x8000_0000,
        ;
        assert(size < 0x1_0000_0000) by (bit_vector)
            requires
                (size >> 1) <= highest,
                highest < 0x8000_0000,
        ;
        assert(p@.take(0) =~= Seq::<u64>::empty());
        assert(lo@.take(0) =~= Seq::<u64>::empty());
    }
    let mut distance: u64 = 0;
    let mut i: usize = 0;
    while i < D
        invariant
            i <= D <= 4,
            p@.len() == D,
            lo@.len() == D,
            is_small(p@),
            is_small(lo@),
            size < 0x1_0000_0000,
            lo@ == bounding_box.0@,
            is_deciding_dim(bounding_box.0@, bounding_box.1@, d as int),
            is_filled(difference(bounding_box.0@, bounding_box.1@, d as int), size),
            distance == box_distance(p@.take(i as int), lo@.take(i as int), size),
            distance <= i * 0x4000_0000_0000_0000,
        decreases D - i,
    {
        proof {
            lemma_side_distance_bound(p@[i as int], lo@[i as int], size);
            assert(p@.take(i + 1).drop_last() =~= p@.take(i as int));
            assert(lo@.take(i + 1).drop_last() =~= lo@.take(i as int));
        }
        let lower_bound: u64 = lo[i] & !size;
        let upper_bound: u64 = lower_bound + size;
        let x: u64 = p[i];
        if x < lower_bound {
            let side: u64 = lower_bound - x;
            distance = distance + side * side;
        } else if x > upper_bound {
            let side: u64 = x - upper_bound;
            distance = distance + side * side;
        }
        i = i + 1;
    }
    proof {
        assert(p@.take(D as int) =~= p@);
        assert(lo@.take(D as int) =~= lo@);
    }
    distance
}

} // verus!
