use vstd::multiset::Multiset;
use vstd::prelude::*;
use vstd::seq_lib::{to_multiset_build, to_multiset_contains, to_multiset_insert, to_multiset_remove};

verus! {

/// The criterion can say yes to `e`.
pub open spec fn may_accept<F: Fn(usize) -> bool>(criterion: &F, e: usize) -> bool {
    criterion.ensures((e,), true)
}

/// The criterion can say no to `e`.
pub open spec fn may_reject<F: Fn(usize) -> bool>(criterion: &F, e: usize) -> bool {
    criterion.ensures((e,), false)
}

/// An element that a split may leave out: one that neither side takes, or
/// one that both sides claim.
pub open spec fn left_out<F: Fn(usize) -> bool, G: Fn(usize) -> bool>(
    left: &F,
    right: &G,
    e: usize,
) -> bool {
    ||| may_reject(left, e) && may_reject(right, e)
    ||| may_accept(left, e) && may_accept(right, e)
}

/// `after` is a split of `before` with `l` elements on the left and `r` on
/// the right: the first `l` elements are ones that the left criterion
/// accepts, the last `r` are ones that the right criterion accepts, and
/// together with elements that may be left out they are the elements of
/// `before`, each as often as it stands there.
pub open spec fn is_split<F: Fn(usize) -> bool, G: Fn(usize) -> bool>(
    left: &F,
    right: &G,
    before: Seq<usize>,
    after: Seq<usize>,
    l: int,
    r: int,
) -> bool {
    &&& after.len() == before.len()
    &&& 0 <= l
    &&& 0 <= r
    &&& l + r <= before.len()
    &&& forall|i: int| 0 <= i < l ==> may_accept(left, #[trigger] after[i])
    &&& forall|i: int| after.len() - r <= i < after.len() ==> may_accept(right, #[trigger] after[i])
    &&& exists|rest: Multiset<usize>|
        {
            &&& #[trigger] all_left_out(left, right, rest)
            &&& before.to_multiset() == after.subrange(0, l).to_multiset().add(
                after.subrange(after.len() - r, after.len() as int).to_multiset(),
            ).add(rest)
        }
}

/// Every element of `rest` may be left out by a split.
pub open spec fn all_left_out<F: Fn(usize) -> bool, G: Fn(usize) -> bool>(
    left: &F,
    right: &G,
    rest: Multiset<usize>,
) -> bool {
    forall|e: usize| rest.count(e) > 0 ==> left_out(left, right, e)
}

/// The elements of the three parts of the slice that a split works on, and
/// of what it has left out so far.
pub open spec fn parts(
    cur: Seq<usize>,
    ll: int,
    lm: int,
    hi: int,
    rc: int,
    rest: Multiset<usize>,
) -> Multiset<usize> {
    cur.subrange(0, ll).to_multiset().add(cur.subrange(lm, hi).to_multiset()).add(
        cur.subrange(cur.len() - rc, cur.len() as int).to_multiset(),
    ).add(rest)
}

/// Moving the first element that is still to be looked at to the end of the
/// left part keeps the elements.
proof fn lemma_take_left(cur: Seq<usize>, ll: int, lm: int, hi: int, rc: int, rest: Multiset<usize>)
    requires
        0 <= ll <= lm < hi <= cur.len() - rc,
        0 <= rc,
    ensures
        parts(cur.update(ll, cur[lm]), ll + 1, lm + 1, hi, rc, rest) == parts(
            cur,
            ll,
            lm,
            hi,
            rc,
            rest,
        ),
{
    broadcast use vstd::multiset::group_multiset_axioms;

    let x = cur[lm];
    let next = cur.update(ll, x);
    let n = cur.len() as int;
    assert(next.subrange(0, ll + 1) =~= cur.subrange(0, ll).push(x));
    to_multiset_build(cur.subrange(0, ll), x);
    assert(next.subrange(lm + 1, hi) =~= cur.subrange(lm, hi).remove(0));
    to_multiset_remove(cur.subrange(lm, hi), 0);
    assert(cur.subrange(lm, hi)[0] == cur[lm]);
    to_multiset_contains(cur.subrange(lm, hi), cur[lm]);
    assert(next.subrange(n - rc, n) =~= cur.subrange(n - rc, n));
    assert(parts(next, ll + 1, lm + 1, hi, rc, rest) =~= parts(cur, ll, lm, hi, rc, rest));
}

/// Leaving out the first element that is still to be looked at keeps the
/// elements.
proof fn lemma_drop_first(cur: Seq<usize>, ll: int, lm: int, hi: int, rc: int, rest: Multiset<usize>)
    requires
        0 <= ll <= lm < hi <= cur.len() - rc,
        0 <= rc,
    ensures
        parts(cur, ll, lm + 1, hi, rc, rest.insert(cur[lm])) == parts(cur, ll, lm, hi, rc, rest),
{
    broadcast use vstd::multiset::group_multiset_axioms;

    assert(cur.subrange(lm + 1, hi) =~= cur.subrange(lm, hi).remove(0));
    to_multiset_remove(cur.subrange(lm, hi), 0);
    assert(cur.subrange(lm, hi)[0] == cur[lm]);
    to_multiset_contains(cur.subrange(lm, hi), cur[lm]);
    assert(parts(cur, ll, lm + 1, hi, rc, rest.insert(cur[lm])) =~= parts(
        cur,
        ll,
        lm,
        hi,
        rc,
        rest,
    ));
}

/// Moving the last element that is still to be looked at to the front of
/// the right part keeps the elements.
proof fn lemma_take_right(cur: Seq<usize>, ll: int, lm: int, hi: int, rc: int, rest: Multiset<usize>)
    requires
        0 <= ll <= lm < hi <= cur.len() - rc,
        0 <= rc,
    ensures
        parts(cur.update(cur.len() - 1 - rc, cur[hi - 1]), ll, lm, hi - 1, rc + 1, rest) == parts(
            cur,
            ll,
            lm,
            hi,
            rc,
            rest,
        ),
{
    broadcast use vstd::multiset::group_multiset_axioms;

    let y = cur[hi - 1];
    let n = cur.len() as int;
    let next = cur.update(n - 1 - rc, y);
    assert(next.subrange(n - rc - 1, n) =~= cur.subrange(n - rc, n).insert(0, y));
    to_multiset_insert(cur.subrange(n - rc, n), 0, y);
    assert(next.subrange(lm, hi - 1) =~= cur.subrange(lm, hi).remove(hi - 1 - lm));
    to_multiset_remove(cur.subrange(lm, hi), hi - 1 - lm);
    assert(cur.subrange(lm, hi)[hi - 1 - lm] == cur[hi - 1]);
    to_multiset_contains(cur.subrange(lm, hi), cur[hi - 1]);
    assert(next.subrange(0, ll) =~= cur.subrange(0, ll));
    assert(parts(next, ll, lm, hi - 1, rc + 1, rest) =~= parts(cur, ll, lm, hi, rc, rest));
}

/// Leaving out the last element that is still to be looked at keeps the
/// elements.
proof fn lemma_drop_last(cur: Seq<usize>, ll: int, lm: int, hi: int, rc: int, rest: Multiset<usize>)
    requires
        0 <= ll <= lm < hi <= cur.len() - rc,
        0 <= rc,
    ensures
        parts(cur, ll, lm, hi - 1, rc, rest.insert(cur[hi - 1])) == parts(cur, ll, lm, hi, rc, rest),
{
    broadcast use vstd::multiset::group_multiset_axioms;

    assert(cur.subrange(lm, hi - 1) =~= cur.subrange(lm, hi).remove(hi - 1 - lm));
    to_multiset_remove(cur.subrange(lm, hi), hi - 1 - lm);
    assert(cur.subrange(lm, hi)[hi - 1 - lm] == cur[hi - 1]);
    to_multiset_contains(cur.subrange(lm, hi), cur[hi - 1]);
    assert(parts(cur, ll, lm, hi - 1, rc, rest.insert(cur[hi - 1])) =~= parts(
        cur,
        ll,
        lm,
        hi,
        rc,
        rest,
    ));
}

/// A sequence without elements holds nothing.
proof fn lemma_nothing_in_empty()
    ensures
        Seq::<usize>::empty().to_multiset() == Multiset::<usize>::empty(),
{
    broadcast use vstd::multiset::group_multiset_axioms;

    let none = Seq::<usize>::empty();
    assert forall|e: usize| none.to_multiset().count(e) == 0 by {
        to_multiset_contains(none, e);
    }
    assert(none.to_multiset() =~= Multiset::<usize>::empty());
}

/// Moving the last element that is still to be looked at to the left part
/// and the first one to the right part keeps the elements.
proof fn lemma_swap(cur: Seq<usize>, ll: int, lm: int, hi: int, rc: int, rest: Multiset<usize>)
    requires
        0 <= ll <= lm,
        lm + 1 < hi <= cur.len() - rc,
        0 <= rc,
    ensures
        parts(
            cur.update(ll, cur[hi - 1]).update(cur.len() - 1 - rc, cur[lm]),
            ll + 1,
            lm + 1,
            hi - 1,
            rc + 1,
            rest,
        ) == parts(cur, ll, lm, hi, rc, rest),
{
    broadcast use vstd::multiset::group_multiset_axioms;

    let x = cur[lm];
    let y = cur[hi - 1];
    let n = cur.len() as int;
    let next = cur.update(ll, y).update(n - 1 - rc, x);
    let u = cur.subrange(lm, hi);
    let u1 = u.remove(0);
    assert(next.subrange(0, ll + 1) =~= cur.subrange(0, ll).push(y));
    to_multiset_build(cur.subrange(0, ll), y);
    assert(next.subrange(n - rc - 1, n) =~= cur.subrange(n - rc, n).insert(0, x));
    to_multiset_insert(cur.subrange(n - rc, n), 0, x);
    assert(next.subrange(lm + 1, hi - 1) =~= u1.remove(u1.len() - 1));
    to_multiset_remove(u, 0);
    assert(u[0] == x);
    to_multiset_contains(u, x);
    to_multiset_remove(u1, u1.len() - 1);
    assert(u1[u1.len() - 1] == y);
    to_multiset_contains(u1, y);
    assert(parts(next, ll + 1, lm + 1, hi - 1, rc + 1, rest) =~= parts(cur, ll, lm, hi, rc, rest));
}

/// Splits the elements of `indices` in place: those that the left criterion
/// accepts are gathered at the front, those that the right criterion accepts
/// at the back.  Returns how many there are of each.
///
/// What lies between the two parts afterwards is of no account.  An element
/// that neither criterion accepts is left out, and one that both accept goes
/// to either part or is left out.
pub fn split<F, G>(indices: &mut [usize], left_criterion: F, right_criterion: G) -> (r: (
    usize,
    usize,
)) where F: Fn(usize) -> bool, G: Fn(usize) -> bool
    requires
        old(indices)@.len() > 0,
        forall|i: int|
            0 <= i < old(indices)@.len() ==> left_criterion.requires((#[trigger] old(indices)@[i],))
                && right_criterion.requires((old(indices)@[i],)),
    ensures
        is_split(
            &left_criterion,
            &right_criterion,
            old(indices)@,
            final(indices)@,
            r.0 as int,
            r.1 as int,
        ),
{
    let len: usize = indices.len();
    let ghost before = indices@;
    let ghost mut rest: Multiset<usize> = Multiset::empty();
    let mut ll: usize = 0;
    let mut lm: usize = 0;
    let mut rc: usize = 0;
    let mut hi: usize = len;
    let mut done: bool = false;
    proof {
        broadcast use vstd::multiset::group_multiset_axioms;

        assert(before.subrange(0, 0) =~= Seq::<usize>::empty());
        assert(before.subrange(len as int, len as int) =~= Seq::<usize>::empty());
        assert(before.subrange(0, len as int) =~= before);
        lemma_nothing_in_empty();
        assert(parts(before, 0, 0, len as int, 0, rest) =~= before.to_multiset());
    }
    while !done
        invariant
            len == indices@.len() == before.len(),
            ll <= lm <= hi,
            hi + rc <= len,
            forall|i: int| lm <= i < hi ==> #[trigger] indices@[i] == before[i],
            forall|i: int|
                0 <= i < before.len() ==> left_criterion.requires((#[trigger] before[i],))
                    && right_criterion.requires((before[i],)),
            forall|i: int| 0 <= i < ll ==> may_accept(&left_criterion, #[trigger] indices@[i]),
            forall|i: int|
                len - rc <= i < len ==> may_accept(&right_criterion, #[trigger] indices@[i]),
            all_left_out(&left_criterion, &right_criterion, rest),
            parts(indices@, ll as int, lm as int, hi as int, rc as int, rest)
                == before.to_multiset(),
            done ==> lm == hi,
        decreases hi - lm + if done { 0int } else { 1int },
    {
        let ghost lm0 = lm;
        let ghost hi0 = hi;
        let mut stop: bool = false;
        while lm < hi && !stop
            invariant
                len == indices@.len() == before.len(),
                lm0 <= lm,
                hi == hi0,
                ll <= lm <= hi,
                hi + rc <= len,
                forall|i: int| lm <= i < hi ==> #[trigger] indices@[i] == before[i],
                forall|i: int|
                    0 <= i < before.len() ==> left_criterion.requires((#[trigger] before[i],))
                        && right_criterion.requires((before[i],)),
                forall|i: int| 0 <= i < ll ==> may_accept(&left_criterion, #[trigger] indices@[i]),
                forall|i: int|
                    len - rc <= i < len ==> may_accept(&right_criterion, #[trigger] indices@[i]),
                all_left_out(&left_criterion, &right_criterion, rest),
                parts(indices@, ll as int, lm as int, hi as int, rc as int, rest)
                    == before.to_multiset(),
                stop ==> lm < hi && may_accept(&right_criterion, indices@[lm as int]),
            decreases hi - lm + if stop { 0int } else { 1int },
        {
            let x: usize = indices[lm];
            assert(x == before[lm as int]);
            if right_criterion(x) {
                stop = true;
            } else {
                if left_criterion(x) {
                    proof {
                        lemma_take_left(indices@, ll as int, lm as int, hi as int, rc as int, rest);
                    }
                    indices[ll] = x;
                    ll = ll + 1;
                } else {
                    proof {
                        lemma_drop_first(indices@, ll as int, lm as int, hi as int, rc as int, rest);
                        rest = rest.insert(x);
                    }
                }
                lm = lm + 1;
            }
        }
        let mut halt: bool = false;
        while lm < hi && !halt
            invariant
                len == indices@.len() == before.len(),
                lm0 <= lm,
                hi <= hi0,
                ll <= lm <= hi,
                hi + rc <= len,
                forall|i: int| lm <= i < hi ==> #[trigger] indices@[i] == before[i],
                forall|i: int|
                    0 <= i < before.len() ==> left_criterion.requires((#[trigger] before[i],))
                        && right_criterion.requires((before[i],)),
                forall|i: int| 0 <= i < ll ==> may_accept(&left_criterion, #[trigger] indices@[i]),
                forall|i: int|
                    len - rc <= i < len ==> may_accept(&right_criterion, #[trigger] indices@[i]),
                all_left_out(&left_criterion, &right_criterion, rest),
                parts(indices@, ll as int, lm as int, hi as int, rc as int, rest)
                    == before.to_multiset(),
                lm < hi ==> may_accept(&right_criterion, indices@[lm as int]),
                halt ==> lm < hi && may_accept(&left_criterion, indices@[hi - 1]),
            decreases hi - lm + if halt { 0int } else { 1int },
        {
            let y: usize = indices[hi - 1];
            assert(y == before[hi - 1]);
            if left_criterion(y) {
                halt = true;
            } else {
                if right_criterion(y) {
                    proof {
                        lemma_take_right(
                            indices@,
                            ll as int,
                            lm as int,
                            hi as int,
                            rc as int,
                            rest,
                        );
                    }
                    indices[len - 1 - rc] = y;
                    rc = rc + 1;
                } else {
                    proof {
                        lemma_drop_last(indices@, ll as int, lm as int, hi as int, rc as int, rest);
                        rest = rest.insert(y);
                    }
                }
                hi = hi - 1;
            }
        }
        if hi - lm <= 1 {
            if lm < hi {
                // One element is left, and both criteria accept it.
                proof {
                    lemma_drop_first(indices@, ll as int, lm as int, hi as int, rc as int, rest);
                    rest = rest.insert(indices@[lm as int]);
                }
                lm = lm + 1;
            }
            done = true;
        } else {
            let temp: usize = indices[lm];
            let other: usize = indices[hi - 1];
            proof {
                lemma_swap(indices@, ll as int, lm as int, hi as int, rc as int, rest);
            }
            indices[ll] = other;
            indices[len - 1 - rc] = temp;
            lm = lm + 1;
            ll = ll + 1;
            rc = rc + 1;
            hi = hi - 1;
        }
    }
    proof {
        assert(indices@.subrange(lm as int, hi as int) =~= Seq::<usize>::empty());
        lemma_nothing_in_empty();
        broadcast use vstd::multiset::group_multiset_axioms;

        assert(before.to_multiset() =~= indices@.subrange(0, ll as int).to_multiset().add(
            indices@.subrange(len - rc, len as int).to_multiset(),
        ).add(rest));
    }
    (ll, rc)
}

} // verus!
