use vstd::prelude::*;

verus! {

/// `less` is a strict order: nothing comes before itself or before what
/// comes before it, and what comes before a thing comes before all that the
/// thing comes before.
pub open spec fn is_strict_order<T>(less: spec_fn(T, T) -> bool) -> bool {
    &&& forall|x: T, y: T| #[trigger] less(x, y) ==> x != y && !less(y, x)
    &&& forall|x: T, y: T, z: T| #[trigger] less(x, y) && #[trigger] less(y, z) ==> less(x, z)
}

/// The elements of `s` strictly increase.
pub open spec fn strictly_sorted<T>(s: Seq<T>, less: spec_fn(T, T) -> bool) -> bool {
    forall|i: int, j: int| 0 <= i < j < s.len() ==> less(#[trigger] s[i], #[trigger] s[j])
}

/// `a` and `b` hold the same elements.
pub open spec fn same_elements<T>(a: Seq<T>, b: Seq<T>) -> bool {
    forall|x: T| #[trigger] a.contains(x) <==> b.contains(x)
}

/// Two sequences that strictly increase and hold the same elements are
/// equal.
pub proof fn lemma_strictly_sorted_unique<T>(a: Seq<T>, b: Seq<T>, less: spec_fn(T, T) -> bool)
    requires
        is_strict_order(less),
        strictly_sorted(a, less),
        strictly_sorted(b, less),
        same_elements(a, b),
    ensures
        a == b,
    decreases a.len(),
{
    if a.len() == 0 {
        if b.len() > 0 {
            assert(b.contains(b[0]));
            assert(a.contains(b[0]));
        }
        assert(a =~= b);
    } else {
        let x = a.last();
        assert(a.contains(x));
        assert(b.contains(x));
        let j = choose|j: int| 0 <= j < b.len() && b[j] == x;
        if j < b.len() - 1 {
            let y = b.last();
            assert(less(b[j], b[b.len() - 1]));
            assert(b.contains(y));
            assert(a.contains(y));
            let i = choose|i: int| 0 <= i < a.len() && a[i] == y;
            if i < a.len() - 1 {
                assert(less(a[i], a[a.len() - 1]));
            }
        }
        assert(b.last() == x);
        let a0 = a.drop_last();
        let b0 = b.drop_last();
        assert forall|v: T| #[trigger] a0.contains(v) <==> b0.contains(v) by {
            if a0.contains(v) {
                let i = choose|i: int| 0 <= i < a0.len() && a0[i] == v;
                assert(less(a[i], a[a.len() - 1]));
                assert(a.contains(v));
                assert(b.contains(v));
                let k = choose|k: int| 0 <= k < b.len() && b[k] == v;
                assert(b0[k] == v);
            }
            if b0.contains(v) {
                let i = choose|i: int| 0 <= i < b0.len() && b0[i] == v;
                assert(less(b[i], b[b.len() - 1]));
                assert(b.contains(v));
                assert(a.contains(v));
                let k = choose|k: int| 0 <= k < a.len() && a[k] == v;
                assert(a0[k] == v);
            }
        }
        lemma_strictly_sorted_unique(a0, b0, less);
        assert(a =~= a0.push(x));
        assert(b =~= b0.push(x));
    }
}

} // verus!
