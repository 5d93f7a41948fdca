use vstd::prelude::*;

verus! {

/// The indices at which `flags` is `true`, in increasing order.
pub open spec fn true_positions(flags: Seq<bool>) -> Seq<int>
    decreases flags.len(),
{
    if flags.len() == 0 {
        Seq::empty()
    } else if flags.last() {
        true_positions(flags.drop_last()).push(flags.len() - 1)
    } else {
        true_positions(flags.drop_last())
    }
}

/// Number of `true` entries in a flag sequence.
pub open spec fn count_true(flags: Seq<bool>) -> nat {
    true_positions(flags).len()
}

/// Every listed position lies in the sequence and carries a `true` flag.
pub proof fn lemma_true_positions_sound(flags: Seq<bool>, k: int)
    requires
        0 <= k < count_true(flags),
    ensures
        0 <= true_positions(flags)[k] < flags.len(),
        flags[true_positions(flags)[k]],
        k <= true_positions(flags)[k],
    decreases flags.len(),
{
    if flags.len() > 0 {
        let rest = flags.drop_last();
        if k < count_true(rest) {
            lemma_true_positions_sound(rest, k);
        } else {
            lemma_count_true_bound(rest);
        }
    }
}

/// The listed positions strictly increase.
pub proof fn lemma_true_positions_increasing(flags: Seq<bool>, k: int, l: int)
    requires
        0 <= k < l < count_true(flags),
    ensures
        true_positions(flags)[k] < true_positions(flags)[l],
    decreases flags.len(),
{
    if flags.len() > 0 {
        let rest = flags.drop_last();
        if l < count_true(rest) {
            lemma_true_positions_increasing(rest, k, l);
        } else {
            lemma_true_positions_sound(rest, k);
        }
    }
}

/// Every index with a `true` flag is listed.
pub proof fn lemma_true_positions_complete(flags: Seq<bool>, i: int)
    requires
        0 <= i < flags.len(),
        flags[i],
    ensures
        exists|k: int| 0 <= k < count_true(flags) && true_positions(flags)[k] == i,
    decreases flags.len(),
{
    let rest = flags.drop_last();
    if i == flags.len() - 1 {
        assert(true_positions(flags)[count_true(rest) as int] == i);
    } else {
        lemma_true_positions_complete(rest, i);
        let k = choose|k: int| 0 <= k < count_true(rest) && true_positions(rest)[k] == i;
        assert(true_positions(flags)[k] == i);
    }
}

/// There are no more set flags than flags.
pub proof fn lemma_count_true_bound(flags: Seq<bool>)
    ensures
        count_true(flags) <= flags.len(),
    decreases flags.len(),
{
    if flags.len() > 0 {
        lemma_count_true_bound(flags.drop_last());
    }
}

/// The positions of a concatenation are those of the first part followed by
/// those of the second, shifted by the first part's length.
pub proof fn lemma_true_positions_concat(a: Seq<bool>, b: Seq<bool>)
    ensures
        true_positions(a + b) == true_positions(a) + true_positions(b).map_values(
            |j: int| j + a.len(),
        ),
        count_true(a + b) == count_true(a) + count_true(b),
    decreases b.len(),
{
    let shift = |j: int| j + a.len();
    if b.len() == 0 {
        assert(a + b =~= a);
        assert(true_positions(a) + true_positions(b).map_values(shift) =~= true_positions(a));
    } else {
        assert((a + b).drop_last() =~= a + b.drop_last());
        lemma_true_positions_concat(a, b.drop_last());
        if b.last() {
            assert(true_positions(b).map_values(shift) =~= true_positions(
                b.drop_last(),
            ).map_values(shift).push(a.len() + b.len() - 1));
            assert(true_positions(a + b) =~= true_positions(a) + true_positions(b).map_values(
                shift,
            ));
        }
    }
}

/// The `k`-th listed position has exactly `k` set flags before it.
pub proof fn lemma_true_positions_rank(flags: Seq<bool>, k: int)
    requires
        0 <= k < count_true(flags),
    ensures
        0 <= true_positions(flags)[k] < flags.len(),
        count_true(flags.take(true_positions(flags)[k])) == k,
    decreases flags.len(),
{
    let rest = flags.drop_last();
    let p = true_positions(flags)[k];
    lemma_true_positions_sound(flags, k);
    if k < count_true(rest) {
        lemma_true_positions_rank(rest, k);
        assert(flags.take(p) =~= rest.take(p));
    } else {
        assert(flags.take(p) =~= rest);
    }
}

/// Counting never decreases along a sequence, and the positions listed for
/// a prefix are the first ones listed for the whole.
pub proof fn lemma_count_true_prefix(flags: Seq<bool>, i: int)
    requires
        0 <= i <= flags.len(),
    ensures
        count_true(flags.take(i)) <= count_true(flags),
        count_true(flags.take(i)) <= i,
        forall|k: int|
            0 <= k < count_true(flags.take(i)) ==> #[trigger] true_positions(flags.take(i))[k]
                == true_positions(flags)[k],
{
    let a = flags.take(i);
    let b = flags.skip(i);
    assert(flags =~= a + b);
    lemma_true_positions_concat(a, b);
    lemma_count_true_bound(a);
}

/// With every flag set, each index is its own position.
pub proof fn lemma_true_positions_all(flags: Seq<bool>)
    requires
        forall|i: int| 0 <= i < flags.len() ==> flags[i],
    ensures
        count_true(flags) == flags.len(),
        forall|k: int| 0 <= k < flags.len() ==> #[trigger] true_positions(flags)[k] == k,
    decreases flags.len(),
{
    if flags.len() > 0 {
        lemma_true_positions_all(flags.drop_last());
    }
}

/// With no flag set, no position is listed.
pub proof fn lemma_true_positions_none(flags: Seq<bool>)
    requires
        forall|i: int| 0 <= i < flags.len() ==> !flags[i],
    ensures
        count_true(flags) == 0,
    decreases flags.len(),
{
    if flags.len() > 0 {
        lemma_true_positions_none(flags.drop_last());
    }
}

/// Counts the `true` entries of `flags` in one pass.
pub fn sum_bool_serial(flags: &[bool]) -> (m: usize)
    ensures
        m == count_true(flags@),
{
    let n: usize = flags.len();
    let mut m: usize = 0;
    let mut i: usize = 0;
    while i < n
        invariant
            n == flags@.len(),
            i <= n,
            m == count_true(flags@.take(i as int)),
            m <= i,
        decreases n - i,
    {
        proof {
            assert(flags@.take(i + 1).drop_last() =~= flags@.take(i as int));
        }
        if flags[i] {
            m = m + 1;
        }
        i = i + 1;
    }
    proof {
        assert(flags@.take(n as int) =~= flags@);
    }
    m
}

} // verus!
