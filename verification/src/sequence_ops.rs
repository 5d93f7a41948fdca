use crate::blocks::{
    block_bounds, block_start, block_starts, lemma_block_of_position, lemma_block_start,
    lemma_block_start_monotone, num_blocks, num_blocks_spec,
};
use crate::monoid::{all_runs_fit, fold, lemma_fold_concat, Monoid};
use crate::par::par_map_range;
use crate::ragged::{cut, cuts_ordered, fan_out, region_of, RegionWriter};
use vstd::prelude::*;

verus! {

/// `out` is the exclusive scan of `input`: its entry `i` combines the
/// entries of `input` before `i`.
pub open spec fn is_exclusive_scan<M: Monoid>(input: Seq<M>, out: Seq<M>) -> bool {
    &&& out.len() == input.len()
    &&& forall|i: int| 0 <= i < input.len() ==> (#[trigger] out[i]).model() == fold(input.take(i))
}

/// The input decides its exclusive scan: two scans of one input stand for
/// the same values, by whichever path and with whichever block size each was
/// made.
pub proof fn lemma_exclusive_scan_unique<M: Monoid>(input: Seq<M>, a: Seq<M>, b: Seq<M>)
    requires
        is_exclusive_scan(input, a),
        is_exclusive_scan(input, b),
    ensures
        a.len() == b.len(),
        forall|i: int| 0 <= i < a.len() ==> (#[trigger] a[i]).model() == b[i].model(),
{
}

/// `sums` holds one aggregate for each block of `bls` elements of `arr`.
pub open spec fn is_block_sums<M: Monoid>(arr: Seq<M>, bls: int, sums: Seq<M>) -> bool {
    &&& sums.len() == num_blocks_spec(arr.len() as int, bls)
    &&& forall|i: int|
        0 <= i < sums.len() ==> (#[trigger] sums[i]).model() == fold(
            arr.subrange(
                block_start(i, bls, arr.len() as int),
                block_start(i + 1, bls, arr.len() as int),
            ),
        )
}

/// Combining the aggregates of the blocks `i..j` gives what the elements of
/// those blocks combine to: this is where associativity is needed.
pub proof fn lemma_fold_block_sums<M: Monoid>(arr: Seq<M>, bls: int, sums: Seq<M>, i: int, j: int)
    requires
        0 < bls,
        is_block_sums(arr, bls, sums),
        0 <= i <= j <= sums.len(),
    ensures
        0 <= block_start(i, bls, arr.len() as int) <= block_start(j, bls, arr.len() as int)
            <= arr.len(),
        fold(sums.subrange(i, j)) == fold(
            arr.subrange(
                block_start(i, bls, arr.len() as int),
                block_start(j, bls, arr.len() as int),
            ),
        ),
    decreases j - i,
{
    let n = arr.len() as int;
    lemma_block_start_monotone(i, j, bls, n);
    if i == j {
        assert(sums.subrange(i, j) =~= Seq::<M>::empty());
        assert(arr.subrange(block_start(i, bls, n), block_start(j, bls, n)) =~= Seq::<M>::empty());
    } else {
        lemma_fold_block_sums(arr, bls, sums, i, j - 1);
        lemma_block_start(j - 1, bls, n);
        let a = block_start(i, bls, n);
        let b = block_start(j - 1, bls, n);
        let c = block_start(j, bls, n);
        assert(sums.subrange(i, j).drop_last() =~= sums.subrange(i, j - 1));
        assert(sums.subrange(i, j).last() == sums[j - 1]);
        assert(arr.subrange(a, c) =~= arr.subrange(a, b) + arr.subrange(b, c));
        lemma_fold_concat(arr.subrange(a, b), arr.subrange(b, c));
    }
}

/// Where every run of `arr` fits, every run of its block aggregates does.
pub proof fn lemma_block_sums_fit<M: Monoid>(arr: Seq<M>, bls: int, sums: Seq<M>)
    requires
        0 < bls,
        is_block_sums(arr, bls, sums),
        all_runs_fit(arr),
    ensures
        all_runs_fit(sums),
{
    assert forall|i: int, j: int| 0 <= i <= j <= sums.len() implies M::representable(
        #[trigger] fold(sums.subrange(i, j)),
    ) by {
        lemma_fold_block_sums(arr, bls, sums, i, j);
    }
}

/// Combines the elements `lo..hi` of `arr`, left to right.
pub fn reduce_serial<M: Monoid>(arr: &[M], lo: usize, hi: usize) -> (r: M)
    requires
        lo <= hi <= arr@.len(),
        all_runs_fit(arr@),
    ensures
        r.model() == fold(arr@.subrange(lo as int, hi as int)),
{
    let mut acc: M = M::identity();
    let mut j: usize = lo;
    while j < hi
        invariant
            lo <= j <= hi <= arr@.len(),
            all_runs_fit(arr@),
            acc.model() == fold(arr@.subrange(lo as int, j as int)),
        decreases hi - j,
    {
        proof {
            assert(arr@.subrange(lo as int, j + 1).drop_last() =~= arr@.subrange(lo as int, j as int));
            assert(M::representable(fold(arr@.subrange(lo as int, j + 1))));
        }
        acc = acc.combine(&arr[j]);
        j = j + 1;
    }
    acc
}

/// Serial exclusive scan in place: each entry is replaced by the
/// combination of the entries before it, and the combination of all entries
/// is returned.
pub fn scan_serial_inplace<M: Monoid>(v: &mut Vec<M>) -> (total: M)
    requires
        all_runs_fit(old(v)@),
    ensures
        is_exclusive_scan(old(v)@, final(v)@),
        total.model() == fold(old(v)@),
{
    let n: usize = v.len();
    let ghost input = v@;
    let mut acc: M = M::identity();
    let mut j: usize = 0;
    while j < n
        invariant
            j <= n == input.len(),
            v@.len() == n,
            all_runs_fit(input),
            acc.model() == fold(input.take(j as int)),
            forall|i: int| 0 <= i < j ==> (#[trigger] v@[i]).model() == fold(input.take(i)),
            forall|i: int| j <= i < n ==> v@[i] == input[i],
        decreases n - j,
    {
        proof {
            assert(input.take(j + 1).drop_last() =~= input.take(j as int));
            assert(input.take(j + 1) =~= input.subrange(0, j + 1));
            assert(M::representable(fold(input.subrange(0, j + 1))));
        }
        let x: M = v[j];
        v[j] = acc;
        acc = acc.combine(&x);
        j = j + 1;
    }
    proof {
        assert(input.take(n as int) =~= input);
    }
    acc
}

/// `offsets` holds, for each block of `bls` elements of `arr`, what the
/// elements before the block combine to: the exclusive scan of the block
/// aggregates.
pub open spec fn is_block_offsets<M: Monoid>(arr: Seq<M>, bls: int, offsets: Seq<M>) -> bool {
    &&& offsets.len() == num_blocks_spec(arr.len() as int, bls)
    &&& forall|i: int|
        0 <= i < offsets.len() ==> (#[trigger] offsets[i]).model() == fold(
            arr.take(block_start(i, bls, arr.len() as int)),
        )
}

/// The exclusive scan of the block aggregates gives the block offsets, and
/// the aggregates combine to what all elements combine to.
pub proof fn lemma_scan_of_block_sums<M: Monoid>(
    arr: Seq<M>,
    bls: int,
    sums: Seq<M>,
    offsets: Seq<M>,
)
    requires
        0 < bls,
        is_block_sums(arr, bls, sums),
        is_exclusive_scan(sums, offsets),
    ensures
        is_block_offsets(arr, bls, offsets),
        fold(sums) == fold(arr),
{
    let n = arr.len() as int;
    lemma_block_start(0, bls, n);
    assert forall|i: int| 0 <= i < offsets.len() implies (#[trigger] offsets[i]).model() == fold(
        arr.take(block_start(i, bls, n)),
    ) by {
        lemma_fold_block_sums(arr, bls, sums, 0, i);
        assert(sums.take(i) =~= sums.subrange(0, i));
        assert(arr.take(block_start(i, bls, n)) =~= arr.subrange(0, block_start(i, bls, n)));
    }
    lemma_fold_block_sums(arr, bls, sums, 0, sums.len() as int);
    lemma_block_start(sums.len() as int, bls, n);
    assert(sums.subrange(0, sums.len() as int) =~= sums);
    assert(arr.subrange(0, n) =~= arr);
}

/// The last phase of a blocked scan: block `i` writes the prefixes of its
/// own elements, starting from the offset that the aggregates of the blocks
/// before it combine to.
pub struct ScanWriter<'a, M> {
    pub arr: &'a [M],
    pub bls: usize,
    pub offsets: &'a [M],
}

impl<'a, M: Monoid> ScanWriter<'a, M> {
    /// The offsets are the exclusive scan of the block aggregates.
    pub open spec fn wf(&self) -> bool {
        &&& self.bls > 0
        &&& all_runs_fit(self.arr@)
        &&& is_block_offsets(self.arr@, self.bls as int, self.offsets@)
    }
}

impl<'a, M: Monoid> RegionWriter<M> for ScanWriter<'a, M> {
    open spec fn ready(&self, block: int, region: Seq<M>) -> bool {
        let n = self.arr@.len() as int;
        &&& self.wf()
        &&& 0 <= block < self.offsets@.len()
        &&& region.len() == block_start(block + 1, self.bls as int, n) - block_start(
            block,
            self.bls as int,
            n,
        )
    }

    open spec fn written(&self, block: int, before: Seq<M>, after: Seq<M>) -> bool {
        forall|j: int|
            0 <= j < after.len() ==> (#[trigger] after[j]).model() == fold(
                self.arr@.take(block_start(block, self.bls as int, self.arr@.len() as int) + j),
            )
    }

    fn write_region(&self, block: usize, region: &mut [M]) {
        let n: usize = self.arr.len();
        let (lo, hi) = block_bounds(block, self.bls, n);
        let mut acc: M = self.offsets[block];
        let mut j: usize = 0;
        let len: usize = hi - lo;
        while j < len
            invariant
                lo + len == hi <= n == self.arr@.len(),
                j <= len == region@.len(),
                all_runs_fit(self.arr@),
                acc.model() == fold(self.arr@.take(lo + j)),
                forall|k: int|
                    0 <= k < j ==> (#[trigger] region@[k]).model() == fold(self.arr@.take(lo + k)),
            decreases len - j,
        {
            proof {
                let a = self.arr@;
                assert(a.take(lo + j + 1).drop_last() =~= a.take(lo + j));
                assert(a.take(lo + j + 1) =~= a.subrange(0, lo + j + 1));
                assert(M::representable(fold(a.subrange(0, lo + j + 1))));
            }
            region[j] = acc;
            acc = acc.combine(&self.arr[lo + j]);
            j = j + 1;
        }
    }
}

/// `starts` holds the starts of the blocks of `bls` elements that cover `n`
/// elements.
pub open spec fn is_block_starts(starts: Seq<usize>, bls: int, n: int) -> bool {
    &&& starts.len() == num_blocks_spec(n, bls)
    &&& forall|i: int| 0 <= i < starts.len() ==> #[trigger] starts[i] == block_start(i, bls, n)
}

/// The block starts are ordered cut points of a buffer of `n` elements.
pub proof fn lemma_block_cuts(starts: Seq<usize>, bls: int, n: int)
    requires
        0 < bls,
        0 <= n,
        is_block_starts(starts, bls, n),
    ensures
        cuts_ordered(starts, n),
        forall|i: int|
            0 <= i <= starts.len() ==> #[trigger] cut(starts, n, i) == block_start(i, bls, n),
{
    assert forall|i: int| 0 <= i <= starts.len() implies #[trigger] cut(starts, n, i)
        == block_start(i, bls, n) by {
        lemma_block_start(i, bls, n);
    }
    assert forall|i: int, j: int| 0 <= i <= j <= starts.len() implies 0 <= #[trigger] cut(
        starts,
        n,
        i,
    ) <= #[trigger] cut(starts, n, j) by {
        lemma_block_start_monotone(i, j, bls, n);
    }
}

proof fn lemma_scan_writer_ready<'a, M: Monoid>(
    writer: ScanWriter<'a, M>,
    starts: Seq<usize>,
    out: Seq<M>,
)
    requires
        writer.wf(),
        is_block_starts(starts, writer.bls as int, writer.arr@.len() as int),
        out.len() == writer.arr@.len(),
    ensures
        crate::ragged::fan_out_pre(
            &writer,
            starts,
            writer.arr@.len() as int,
            0,
            starts.len() as int,
            out,
        ),
{
    let arr = writer.arr@;
    let n = arr.len() as int;
    let bls = writer.bls as int;
    let nb = starts.len() as int;
    lemma_block_cuts(starts, bls, n);
    lemma_block_start(0, bls, n);
    lemma_block_start(nb, bls, n);
    assert forall|i: int| 0 <= i < nb implies writer.ready(
        i,
        #[trigger] region_of(out, starts, n, 0, i),
    ) by {
        lemma_block_start(i, bls, n);
        assert(cut(starts, n, i) == block_start(i, bls, n));
        assert(cut(starts, n, i + 1) == block_start(i + 1, bls, n));
    }
}

proof fn lemma_scan_writer_done<'a, M: Monoid>(
    writer: ScanWriter<'a, M>,
    starts: Seq<usize>,
    before: Seq<M>,
    out: Seq<M>,
)
    requires
        writer.bls > 0,
        is_block_starts(starts, writer.bls as int, writer.arr@.len() as int),
        before.len() == writer.arr@.len(),
        crate::ragged::fan_out_post(
            &writer,
            starts,
            writer.arr@.len() as int,
            0,
            starts.len() as int,
            before,
            out,
        ),
    ensures
        is_exclusive_scan(writer.arr@, out),
{
    let arr = writer.arr@;
    let n = arr.len() as int;
    let bls = writer.bls as int;
    lemma_block_cuts(starts, bls, n);
    lemma_block_start(0, bls, n);
    assert forall|p: int| 0 <= p < n implies (#[trigger] out[p]).model() == fold(arr.take(p)) by {
        let i = p / bls;
        lemma_block_of_position(p, bls, n);
        lemma_block_start(i, bls, n);
        assert(cut(starts, n, i) == block_start(i, bls, n));
        assert(cut(starts, n, i + 1) == block_start(i + 1, bls, n));
        let region = region_of(out, starts, n, 0, i);
        assert(writer.written(i, region_of(before, starts, n, 0, i), region));
        let j = p - block_start(i, bls, n);
        assert(region[j] == out[p]);
    }
}

/// The scan engine: the aggregate of each block of `bls` elements is
/// computed in parallel, and the aggregates are scanned, by the blocked scheme
/// again where there are many of them.  Returns the offset of each block, which
/// is what the elements before it combine to, and what all elements combine
/// to.  A single block is combined in one serial pass.
///
/// The result does not depend on how the work is split.
pub fn scan_blocks<M: Monoid + Send + Sync>(arr: &[M], bls: usize) -> (res: (Vec<M>, M))
    requires
        bls > 0,
        all_runs_fit(arr@),
    ensures
        is_block_offsets(arr@, bls as int, res.0@),
        res.1.model() == fold(arr@),
    decreases arr@.len(), 0nat,
{
    let n: usize = arr.len();
    let nb: usize = num_blocks(n, bls);
    if nb <= 1 {
        let mut offsets: Vec<M> = Vec::with_capacity(nb);
        let total: M = reduce_serial(arr, 0, n);
        proof {
            assert(arr@.subrange(0, n as int) =~= arr@);
            assert(arr@.take(0) =~= Seq::<M>::empty());
            lemma_block_start(0, bls as int, n as int);
        }
        if nb == 1 {
            offsets.push(M::identity());
        }
        return (offsets, total);
    }
    let aggregate = |i: usize| -> (r: M)
        requires
            i < nb,
        ensures
            r.model() == fold(
                arr@.subrange(
                    block_start(i as int, bls as int, n as int),
                    block_start(i + 1, bls as int, n as int),
                ),
            ),
        {
            let (lo, hi) = block_bounds(i, bls, n);
            reduce_serial(arr, lo, hi)
        };
    let mut sums: Vec<M> = par_map_range(nb, &aggregate);
    let ghost sums0 = sums@;
    proof {
        assert(is_block_sums(arr@, bls as int, sums@));
        lemma_block_sums_fit(arr@, bls as int, sums@);
    }
    let total: M = if nb > bls && bls >= 2 {
        proof {
            crate::blocks::lemma_num_blocks_is_ceiling(n as int, bls as int);
            assert(nb < n) by (nonlinear_arith)
                requires
                    nb == (n - 1) / (bls as int) + 1,
                    nb > 1,
                    bls >= 2,
                    n > 0,
            ;
        }
        let (offsets, total) = block_delayed_scan(sums.as_slice(), bls);
        sums = offsets;
        total
    } else {
        scan_serial_inplace(&mut sums)
    };
    proof {
        lemma_scan_of_block_sums(arr@, bls as int, sums0, sums@);
    }
    (sums, total)
}

/// Block-decomposed exclusive scan.  The scan engine gives the offset of
/// each block of `bls` elements; then each block writes the prefixes of its
/// elements, from its offset on, into its own region of the result.  One
/// block, or blocks of one element, are scanned in one serial pass.
///
/// The result does not depend on `bls`.
pub fn block_delayed_scan<M: Monoid + Send + Sync>(arr: &[M], bls: usize) -> (res: (Vec<M>, M))
    requires
        bls > 0,
        all_runs_fit(arr@),
    ensures
        is_exclusive_scan(arr@, res.0@),
        res.1.model() == fold(arr@),
    decreases arr@.len(), 1nat,
{
    let n: usize = arr.len();
    let nb: usize = num_blocks(n, bls);
    if nb <= 1 || bls < 2 {
        let mut out: Vec<M> = vstd::slice::slice_to_vec(arr);
        let total: M = scan_serial_inplace(&mut out);
        return (out, total);
    }
    let (offsets, total) = scan_blocks(arr, bls);
    let starts: Vec<usize> = block_starts(bls, n);
    let mut out: Vec<M> = vstd::slice::slice_to_vec(arr);
    let writer = ScanWriter { arr, bls, offsets: offsets.as_slice() };
    proof {
        lemma_scan_writer_ready(writer, starts@, out@);
    }
    let ghost before = out@;
    fan_out(&writer, starts.as_slice(), n, 0, nb, out.as_mut_slice());
    proof {
        lemma_scan_writer_done(writer, starts@, before, out@);
    }
    (out, total)
}

} // verus!
