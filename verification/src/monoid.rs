use vstd::prelude::*;

verus! {

/// A machine type that stands for the elements of a monoid.
///
/// Every value has a mathematical `model`.  The models that are `valid`
/// form the monoid: `m_op` is an associative operator on them, with `m_unit`
/// as its identity.  The machine type may hold only part of the monoid (the
/// `representable` models), so `combine` asks that its result can be held.
pub trait Monoid: Copy + Sized {
    type Model;

    spec fn model(&self) -> Self::Model;

    spec fn valid(m: Self::Model) -> bool;

    spec fn m_unit() -> Self::Model;

    spec fn m_op(a: Self::Model, b: Self::Model) -> Self::Model;

    spec fn representable(m: Self::Model) -> bool;

    /// Machine values stand only for elements of the monoid.
    proof fn lemma_model_valid(&self)
        ensures
            Self::valid(self.model()),
    ;

    /// The monoid holds its identity.
    proof fn lemma_unit_valid()
        ensures
            Self::valid(Self::m_unit()),
    ;

    /// The monoid is closed under its operator.
    proof fn lemma_closed(a: Self::Model, b: Self::Model)
        requires
            Self::valid(a),
            Self::valid(b),
        ensures
            Self::valid(Self::m_op(a, b)),
    ;

    proof fn lemma_associative(a: Self::Model, b: Self::Model, c: Self::Model)
        requires
            Self::valid(a),
            Self::valid(b),
            Self::valid(c),
        ensures
            Self::m_op(Self::m_op(a, b), c) == Self::m_op(a, Self::m_op(b, c)),
    ;

    proof fn lemma_unit(a: Self::Model)
        requires
            Self::valid(a),
        ensures
            Self::m_op(Self::m_unit(), a) == a,
            Self::m_op(a, Self::m_unit()) == a,
    ;

    fn identity() -> (r: Self)
        ensures
            r.model() == Self::m_unit(),
    ;

    fn combine(&self, other: &Self) -> (r: Self)
        requires
            Self::representable(Self::m_op(self.model(), other.model())),
        ensures
            r.model() == Self::m_op(self.model(), other.model()),
    ;
}

/// The combination of all elements of `s`, left to right.
pub open spec fn fold<M: Monoid>(s: Seq<M>) -> M::Model
    decreases s.len(),
{
    if s.len() == 0 {
        M::m_unit()
    } else {
        M::m_op(fold(s.drop_last()), s.last().model())
    }
}

/// A fold is an element of the monoid.
pub proof fn lemma_fold_valid<M: Monoid>(s: Seq<M>)
    ensures
        M::valid(fold(s)),
    decreases s.len(),
{
    if s.len() == 0 {
        M::lemma_unit_valid();
    } else {
        lemma_fold_valid(s.drop_last());
        s.last().lemma_model_valid();
        M::lemma_closed(fold(s.drop_last()), s.last().model());
    }
}

/// Every contiguous run of `s` combines to a value the machine type holds.
pub open spec fn all_runs_fit<M: Monoid>(s: Seq<M>) -> bool {
    forall|i: int, j: int|
        0 <= i <= j <= s.len() ==> M::representable(#[trigger] fold(s.subrange(i, j)))
}

/// Folding a concatenation combines the folds of its two parts.
pub proof fn lemma_fold_concat<M: Monoid>(a: Seq<M>, b: Seq<M>)
    ensures
        fold(a + b) == M::m_op(fold(a), fold(b)),
    decreases b.len(),
{
    lemma_fold_valid(a);
    if b.len() == 0 {
        assert(a + b =~= a);
        M::lemma_unit(fold(a));
    } else {
        assert((a + b).drop_last() =~= a + b.drop_last());
        assert((a + b).last() == b.last());
        lemma_fold_concat(a, b.drop_last());
        lemma_fold_valid(b.drop_last());
        b.last().lemma_model_valid();
        M::lemma_associative(fold(a), fold(b.drop_last()), b.last().model());
    }
}

impl Monoid for usize {
    type Model = int;

    open spec fn model(&self) -> int {
        *self as int
    }

    open spec fn valid(m: int) -> bool {
        0 <= m
    }

    open spec fn m_unit() -> int {
        0
    }

    open spec fn m_op(a: int, b: int) -> int {
        a + b
    }

    open spec fn representable(m: int) -> bool {
        0 <= m <= usize::MAX
    }

    proof fn lemma_model_valid(&self) {
    }

    proof fn lemma_unit_valid() {
    }

    proof fn lemma_closed(a: int, b: int) {
    }

    proof fn lemma_associative(a: int, b: int, c: int) {
    }

    proof fn lemma_unit(a: int) {
    }

    fn identity() -> (r: usize) {
        0
    }

    fn combine(&self, other: &usize) -> (r: usize) {
        *self + *other
    }
}

/// The sum of a sequence of machine integers, as a mathematical integer.
pub open spec fn sum(s: Seq<usize>) -> int {
    fold::<usize>(s)
}

/// A sum of naturals is not negative.
pub proof fn lemma_sum_nonnegative(s: Seq<usize>)
    ensures
        0 <= sum(s),
    decreases s.len(),
{
    if s.len() > 0 {
        lemma_sum_nonnegative(s.drop_last());
    }
}

/// A sum of naturals bounds the sum of each of its runs: where the whole
/// fits the machine integer, every run does.
pub proof fn lemma_sum_runs_fit(s: Seq<usize>)
    requires
        sum(s) <= usize::MAX,
    ensures
        all_runs_fit(s),
{
    assert forall|i: int, j: int| 0 <= i <= j <= s.len() implies <usize as Monoid>::representable(
        #[trigger] fold(s.subrange(i, j)),
    ) by {
        let a = s.subrange(0, i);
        let b = s.subrange(i, j);
        let c = s.subrange(j, s.len() as int);
        assert(s =~= (a + b) + c);
        lemma_fold_concat(a + b, c);
        lemma_fold_concat(a, b);
        lemma_sum_nonnegative(a);
        lemma_sum_nonnegative(b);
        lemma_sum_nonnegative(c);
    }
}

} // verus!
