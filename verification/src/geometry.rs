use crate::text::decimal_digits;
use vstd::prelude::*;

verus! {

/// A triangle, as the indices of its three corners.
pub type Tri = [i32; 3];

/// Relates a point type to the type of the vectors between two points.
pub trait PointToVec {
    type Vec;
}

/// A vector of `D` coordinates.
#[derive(Copy, Clone)]
pub struct Vector<const D: usize, T>([T; D]);

impl<const D: usize, T> View for Vector<D, T> {
    type V = Seq<T>;

    closed spec fn view(&self) -> Seq<T> {
        self.0@
    }
}

impl<const D: usize, T> Vector<D, T> {
    /// A vector has `D` coordinates.
    pub proof fn lemma_dimension(self)
        ensures
            self@.len() == D,
    {
    }

    /// The vector with the coordinates `coords`.
    pub fn new(coords: [T; D]) -> (v: Self)
        ensures
            v@ == coords@,
    {
        Self(coords)
    }

}

impl<const D: usize, T> vstd::std_specs::core::IndexSpecImpl<usize> for Vector<D, T> {
    open spec fn index_req(&self, index: &usize) -> bool {
        *index < D
    }
}

impl<const D: usize, T> core::ops::Index<usize> for Vector<D, T> {
    type Output = T;

    fn index(&self, idx: usize) -> (c: &T)
        ensures
            *c == self@[idx as int],
    {
        &self.0[idx]
    }
}

/// The sum of the squares of the coordinates.
pub open spec fn sum_of_squares(coords: Seq<u64>) -> int
    decreases coords.len(),
{
    if coords.len() == 0 {
        0
    } else {
        sum_of_squares(coords.drop_last()) + coords.last() * coords.last()
    }
}

/// The squares of the first coordinates add up to no more than those of
/// all.
pub proof fn lemma_sum_of_squares_grows(coords: Seq<u64>, i: int)
    requires
        0 <= i <= coords.len(),
    ensures
        0 <= sum_of_squares(coords.take(i)) <= sum_of_squares(coords),
    decreases coords.len() - i,
{
    if i < coords.len() {
        lemma_sum_of_squares_grows(coords, i + 1);
        assert(coords.take(i + 1).drop_last() =~= coords.take(i));
        assert(0 <= coords[i] * coords[i]) by (nonlinear_arith);
        lemma_sum_of_squares_nonnegative(coords.take(i));
    } else {
        assert(coords.take(i) =~= coords);
        lemma_sum_of_squares_nonnegative(coords);
    }
}

/// A sum of squares is not negative.
pub proof fn lemma_sum_of_squares_nonnegative(coords: Seq<u64>)
    ensures
        0 <= sum_of_squares(coords),
    decreases coords.len(),
{
    if coords.len() > 0 {
        lemma_sum_of_squares_nonnegative(coords.drop_last());
        assert(0 <= coords.last() * coords.last()) by (nonlinear_arith);
    }
}

impl<const D: usize> Vector<D, u64> {
    /// The square of the length of the vector.
    pub fn length_squared(&self) -> (r: u64)
        requires
            sum_of_squares(self@) <= u64::MAX,
        ensures
            r == sum_of_squares(self@),
    {
        let mut sum: u64 = 0;
        let mut i: usize = 0;
        proof {
            assert(self@.take(0) =~= Seq::<u64>::empty());
        }
        while i < D
            invariant
                i <= D == self@.len(),
                sum == sum_of_squares(self@.take(i as int)),
                sum_of_squares(self@) <= u64::MAX,
            decreases D - i,
        {
            proof {
                lemma_sum_of_squares_grows(self@, i + 1);
                assert(self@.take(i + 1).drop_last() =~= self@.take(i as int));
                lemma_sum_of_squares_nonnegative(self@.take(i as int));
                assert(0 <= self@[i as int] * self@[i as int]) by (nonlinear_arith);
            }
            let x: u64 = self.0[i];
            sum = sum + x * x;
            i = i + 1;
        }
        proof {
            assert(self@.take(D as int) =~= self@);
        }
        sum
    }
}

/// A point of `D` coordinates.
#[derive(Copy, Clone, Debug, PartialEq, Eq)]
pub struct Point<const D: usize, T>([T; D]);

impl<const D: usize, T> View for Point<D, T> {
    type V = Seq<T>;

    closed spec fn view(&self) -> Seq<T> {
        self.0@
    }
}

impl<const D: usize, T> vstd::std_specs::core::IndexSpecImpl<usize> for Point<D, T> {
    open spec fn index_req(&self, index: &usize) -> bool {
        *index < D
    }
}

impl<const D: usize, T> core::ops::Index<usize> for Point<D, T> {
    type Output = T;

    fn index(&self, idx: usize) -> (c: &T)
        ensures
            *c == self@[idx as int],
    {
        &self.0[idx]
    }
}

impl<const D: usize, T> PointToVec for Point<D, T> {
    type Vec = Vector<D, T>;
}

impl<const D: usize, T> Point<D, T> {
    /// A point has `D` coordinates.
    pub proof fn lemma_dimension(self)
        ensures
            self@.len() == D,
    {
    }

    /// The point with the coordinates `coords`.
    pub fn new(coords: [T; D]) -> (p: Self)
        ensures
            p@ == coords@,
    {
        Self(coords)
    }

    /// Replaces the coordinate at `idx`, and leaves the others as they are.
    pub fn set(&mut self, idx: usize, value: T)
        requires
            idx < D,
        ensures
            final(self)@ == old(self)@.update(idx as int, value),
    {
        self.0[idx] = value;
    }
}

/// The error of reading a point of `D` coordinates from text.
#[derive(Debug)]
pub struct ParsePointError<const D: usize>;

impl<const D: usize> ParsePointError<D> {
    /// The error's message.
    pub fn message(&self) -> (s: String)
        ensures
            s@ == parse_error_text(D as nat),
    {
        point_error_text(D)
    }
}

/// The message for a point of `d` coordinates.
pub open spec fn parse_error_text(d: nat) -> Seq<char> {
    "Can not parse as Point"@ + decimal_digits(d) + "d."@
}

/// Formats the message with std's `format!`, which writes the number of
/// coordinates in decimal, without sign or padding, between the two fixed
/// parts of the text.
#[verifier::external_body]
fn point_error_text(d: usize) -> (s: String)
    ensures
        s@ == parse_error_text(d as nat),
{
    format!("Can not parse as Point{d}d.")
}

/// A triangle mesh: corner points, and triangles that name their corners by
/// index.
#[derive(Clone)]
pub struct Triangles<P> {
    pub p: Vec<P>,
    pub t: Vec<Tri>,
}

impl<P> Triangles<P> {
    /// The mesh of the points `p` and the triangles `t`.
    pub fn new(p: Vec<P>, t: Vec<Tri>) -> (r: Self)
        ensures
            r.p == p,
            r.t == t,
    {
        Self { p, t }
    }

    /// The number of points.
    pub fn num_points(&self) -> (n: usize)
        ensures
            n == self.p@.len(),
    {
        self.p.len()
    }

    /// The number of triangles.
    pub fn num_triangles(&self) -> (n: usize)
        ensures
            n == self.t@.len(),
    {
        self.t.len()
    }
}

/// A ray: the point it starts from and the direction it goes in.
#[derive(Copy, Clone)]
pub struct Ray<P> where P: PointToVec {
    pub o: P,
    pub d: P::Vec,
}

impl<P> Ray<P> where P: PointToVec {
    /// The ray from `o` in the direction `d`.
    pub fn new(o: P, d: P::Vec) -> (r: Self)
        ensures
            r.o == o,
            r.d == d,
    {
        Self { o, d }
    }
}

} // verus!
