use crate::blocks::{
    block_bounds, block_start, lemma_block_start, lemma_block_start_monotone, num_blocks,
    num_blocks_spec, BLOCK_SIZE,
};
use crate::flags::{
    count_true, lemma_count_true_bound, lemma_count_true_prefix, lemma_true_positions_all,
    lemma_true_positions_concat, lemma_true_positions_none, lemma_true_positions_sound,
    sum_bool_serial, true_positions,
};
use crate::index_value::IndexValue;
use crate::monoid::{lemma_sum_runs_fit, sum};
use crate::par::par_map_range;
use crate::ragged::{cut, cuts_ordered, fan_out, region_of, RegionWriter};
use crate::sequence_ops::block_delayed_scan;
use vstd::prelude::*;

verus! {

/// The elements of `src` at the positions where `flags` is `true`, in their
/// order in the source.
pub open spec fn pack_spec<T>(src: Seq<T>, flags: Seq<bool>) -> Seq<T> {
    true_positions(flags).map_values(|j: int| src[j])
}

/// `out` holds, for each `true` flag in turn, a value that `arr_f` gives for
/// the flag's position.
pub open spec fn packed_by<T, F: Fn(usize) -> T>(arr_f: &F, flags: Seq<bool>, out: Seq<T>) -> bool {
    &&& out.len() == count_true(flags)
    &&& forall|k: int|
        0 <= k < out.len() ==> arr_f.ensures((true_positions(flags)[k] as usize,), #[trigger] out[k])
}

/// `arr_f` may be called at every position whose flag is set.
pub open spec fn callable_where_set<T, F: Fn(usize) -> T>(arr_f: &F, flags: Seq<bool>) -> bool {
    forall|i: usize| i < flags.len() && flags[i as int] ==> #[trigger] arr_f.requires((i,))
}

/// `arr_f` may be called at every position whose flag is set and, where
/// there are flags at all, at position 0, whose value fills the fresh
/// destination before the kept values are written.
pub open spec fn callable_on<T, F: Fn(usize) -> T>(arr_f: &F, flags: Seq<bool>) -> bool {
    &&& callable_where_set(arr_f, flags)
    &&& flags.len() > 0 ==> arr_f.requires((0usize,))
}

/// Sequential compaction into a slice: writes `arr_f(i)` for every `i` whose
/// flag is set, in order, from the start of `dest`, and returns how many
/// values were written.  The rest of `dest` is left as it was.
pub fn pack_serial_at<T, F>(arr_f: &F, flags: &[bool], dest: &mut [T]) -> (k: usize) where
    F: Fn(usize) -> T,

    requires
        count_true(flags@) <= old(dest)@.len(),
        callable_where_set(arr_f, flags@),
    ensures
        k == count_true(flags@),
        final(dest)@.len() == old(dest)@.len(),
        packed_by(arr_f, flags@, final(dest)@.take(k as int)),
        forall|j: int| k <= j < old(dest)@.len() ==> final(dest)@[j] == old(dest)@[j],
{
    let n: usize = flags.len();
    let mut k: usize = 0;
    let mut i: usize = 0;
    while i < n
        invariant
            n == flags@.len(),
            i <= n,
            k == count_true(flags@.take(i as int)),
            count_true(flags@) <= dest@.len() == old(dest)@.len(),
            callable_where_set(arr_f, flags@),
            forall|j: int|
                0 <= j < k ==> arr_f.ensures(
                    (true_positions(flags@)[j] as usize,),
                    #[trigger] dest@[j],
                ),
            forall|j: int| k <= j < dest@.len() ==> dest@[j] == old(dest)@[j],
        decreases n - i,
    {
        proof {
            assert(flags@.take(i + 1).drop_last() =~= flags@.take(i as int));
            lemma_count_true_prefix(flags@, i + 1);
        }
        if flags[i] {
            let v: T = arr_f(i);
            dest[k] = v;
            proof {
                assert(true_positions(flags@.take(i + 1))[k as int] == i);
            }
            k = k + 1;
        }
        i = i + 1;
    }
    proof {
        assert(flags@.take(n as int) =~= flags@);
    }
    k
}

/// Sequential compaction into a fresh vector: `dest` becomes the values of
/// `arr_f` at the positions whose flag is set, in order.
pub fn pack_serial<T, F>(arr_f: F, flags: &[bool], dest: &mut Vec<T>) where
    T: Copy + Clone,
    F: Fn(usize) -> T,

    requires
        callable_on(&arr_f, flags@),
    ensures
        packed_by(&arr_f, flags@, final(dest)@),
{
    let m: usize = sum_bool_serial(flags);
    if m == 0 {
        *dest = Vec::new();
    } else {
        proof {
            lemma_count_true_bound(flags@);
        }
        let fill: T = arr_f(0);
        *dest = vec![fill; m];
        let k: usize = pack_serial_at(&arr_f, flags, dest.as_mut_slice());
        proof {
            assert(dest@.take(k as int) =~= dest@);
        }
    }
}

/// The flags of block `i`.
pub open spec fn block_flags(flags: Seq<bool>, bls: int, i: int) -> Seq<bool> {
    flags.subrange(
        block_start(i, bls, flags.len() as int),
        block_start(i + 1, bls, flags.len() as int),
    )
}

/// `counts` holds the number of set flags of each block.
pub open spec fn is_block_counts(flags: Seq<bool>, bls: int, counts: Seq<usize>) -> bool {
    &&& counts.len() == num_blocks_spec(flags.len() as int, bls)
    &&& forall|i: int|
        0 <= i < counts.len() ==> #[trigger] counts[i] == count_true(block_flags(flags, bls, i))
}

/// The flags before block `j` are those before block `j - 1` followed by
/// that block.
pub proof fn lemma_take_block(flags: Seq<bool>, bls: int, j: int)
    requires
        0 < bls,
        0 < j <= num_blocks_spec(flags.len() as int, bls),
    ensures
        flags.take(block_start(j, bls, flags.len() as int)) == flags.take(
            block_start(j - 1, bls, flags.len() as int),
        ) + block_flags(flags, bls, j - 1),
{
    let n = flags.len() as int;
    lemma_block_start(j - 1, bls, n);
    lemma_block_start(j, bls, n);
    assert(flags.take(block_start(j, bls, n)) =~= flags.take(block_start(j - 1, bls, n))
        + block_flags(flags, bls, j - 1));
}

/// The counts of the blocks before block `j` add up to the number of set
/// flags before it.
pub proof fn lemma_block_counts_prefix(flags: Seq<bool>, bls: int, counts: Seq<usize>, j: int)
    requires
        0 < bls,
        is_block_counts(flags, bls, counts),
        0 <= j <= counts.len(),
    ensures
        sum(counts.take(j)) == count_true(flags.take(block_start(j, bls, flags.len() as int))),
    decreases j,
{
    let n = flags.len() as int;
    if j == 0 {
        lemma_block_start(0, bls, n);
        assert(flags.take(0) =~= Seq::<bool>::empty());
        assert(counts.take(0) =~= Seq::<usize>::empty());
    } else {
        lemma_block_counts_prefix(flags, bls, counts, j - 1);
        lemma_take_block(flags, bls, j);
        lemma_true_positions_concat(
            flags.take(block_start(j - 1, bls, n)),
            block_flags(flags, bls, j - 1),
        );
        assert(counts.take(j).drop_last() =~= counts.take(j - 1));
    }
}

/// `offsets` holds, for each block, the number of set flags before it, and
/// `total` is the number of all set flags: the cut points of the packed
/// result.
pub open spec fn is_pack_offsets(flags: Seq<bool>, bls: int, offsets: Seq<usize>, total: int) -> bool {
    &&& offsets.len() == num_blocks_spec(flags.len() as int, bls)
    &&& total == count_true(flags)
    &&& forall|i: int|
        0 <= i < offsets.len() ==> #[trigger] offsets[i] == count_true(
            flags.take(block_start(i, bls, flags.len() as int)),
        )
}

/// The pack offsets are ordered cut points, and block `i` is given as many
/// places as it has set flags.
pub proof fn lemma_pack_cuts(flags: Seq<bool>, bls: int, offsets: Seq<usize>, total: int)
    requires
        0 < bls,
        is_pack_offsets(flags, bls, offsets, total),
    ensures
        cuts_ordered(offsets, total),
        forall|i: int|
            0 <= i <= offsets.len() ==> #[trigger] cut(offsets, total, i) == count_true(
                flags.take(block_start(i, bls, flags.len() as int)),
            ),
{
    let n = flags.len() as int;
    let nb = offsets.len() as int;
    assert forall|i: int| 0 <= i <= nb implies #[trigger] cut(offsets, total, i) == count_true(
        flags.take(block_start(i, bls, n)),
    ) by {
        lemma_block_start(i, bls, n);
        if i == nb {
            assert(flags.take(n) =~= flags);
        }
    }
    assert forall|i: int, j: int| 0 <= i <= j <= nb implies 0 <= #[trigger] cut(offsets, total, i)
        <= #[trigger] cut(offsets, total, j) by {
        lemma_block_start_monotone(i, j, bls, n);
        let a = block_start(i, bls, n);
        let b = block_start(j, bls, n);
        lemma_count_true_prefix(flags.take(b), a);
        assert(flags.take(b).take(a) =~= flags.take(a));
    }
}

/// Block `i` is given as many places as it has set flags.
pub proof fn lemma_pack_region_len(
    flags: Seq<bool>,
    bls: int,
    offsets: Seq<usize>,
    total: int,
    i: int,
)
    requires
        0 < bls,
        is_pack_offsets(flags, bls, offsets, total),
        0 <= i < offsets.len(),
    ensures
        0 <= cut(offsets, total, i) <= cut(offsets, total, i + 1) <= total,
        cut(offsets, total, i + 1) - cut(offsets, total, i) == count_true(
            block_flags(flags, bls, i),
        ),
        cut(offsets, total, 0) == 0,
{
    let n = flags.len() as int;
    lemma_pack_cuts(flags, bls, offsets, total);
    assert(cut(offsets, total, i + 1) <= cut(offsets, total, offsets.len() as int));
    lemma_take_block(flags, bls, i + 1);
    lemma_true_positions_concat(flags.take(block_start(i, bls, n)), block_flags(flags, bls, i));
    lemma_block_start(0, bls, n);
    assert(flags.take(0) =~= Seq::<bool>::empty());
}

/// Every place of block `i`'s region holds a value that is right for the
/// position of the flag it stands for.
pub open spec fn block_packed<T>(
    flags: Seq<bool>,
    bls: int,
    i: int,
    region: Seq<T>,
    right: spec_fn(int, T) -> bool,
) -> bool {
    forall|k: int|
        0 <= k < region.len() ==> right(
            block_start(i, bls, flags.len() as int) + true_positions(block_flags(flags, bls, i))[k],
            #[trigger] region[k],
        )
}

/// Blocks that were packed one by one, each into its own region, make a
/// buffer that is packed as a whole, up to the end of block `j - 1`.
pub proof fn lemma_blocks_assemble<T>(
    flags: Seq<bool>,
    bls: int,
    offsets: Seq<usize>,
    out: Seq<T>,
    right: spec_fn(int, T) -> bool,
    j: int,
)
    requires
        0 < bls,
        is_pack_offsets(flags, bls, offsets, out.len() as int),
        0 <= j <= offsets.len(),
        forall|i: int|
            0 <= i < offsets.len() ==> block_packed(
                flags,
                bls,
                i,
                #[trigger] region_of(out, offsets, out.len() as int, 0, i),
                right,
            ),
    ensures
        count_true(flags.take(block_start(j, bls, flags.len() as int))) <= out.len(),
        forall|k: int|
            0 <= k < count_true(flags.take(block_start(j, bls, flags.len() as int))) ==> right(
                true_positions(flags.take(block_start(j, bls, flags.len() as int)))[k],
                #[trigger] out[k],
            ),
    decreases j,
{
    let n = flags.len() as int;
    let m = out.len() as int;
    lemma_pack_cuts(flags, bls, offsets, m);
    assert(cut(offsets, m, j) <= cut(offsets, m, offsets.len() as int));
    if j == 0 {
        lemma_block_start(0, bls, n);
        assert(flags.take(0) =~= Seq::<bool>::empty());
    } else {
        lemma_blocks_assemble(flags, bls, offsets, out, right, j - 1);
        let a = flags.take(block_start(j - 1, bls, n));
        let b = block_flags(flags, bls, j - 1);
        lemma_take_block(flags, bls, j);
        lemma_true_positions_concat(a, b);
        lemma_pack_region_len(flags, bls, offsets, m, j - 1);
        let region = region_of(out, offsets, m, 0, j - 1);
        assert(block_packed(flags, bls, j - 1, region, right));
        assert(cut(offsets, m, j - 1) == count_true(a));
        assert forall|k: int| 0 <= k < count_true(a + b) implies right(
            true_positions(a + b)[k],
            #[trigger] out[k],
        ) by {
            if k >= count_true(a) {
                let k2 = k - count_true(a);
                assert(region[k2] == out[k]);
                lemma_block_start(j - 1, bls, n);
                assert(a.len() == block_start(j - 1, bls, n));
            }
        }
    }
}

/// The write phase of a blocked pack: block `i` compacts its own flags into
/// its own region of the destination.
pub struct PackWriter<'a, F> {
    pub arr_f: &'a F,
    pub flags: &'a [bool],
    pub bls: usize,
}

impl<'a, T, F: Fn(usize) -> T> RegionWriter<T> for PackWriter<'a, F> {
    open spec fn ready(&self, block: int, region: Seq<T>) -> bool {
        &&& self.bls > 0
        &&& callable_where_set(self.arr_f, self.flags@)
        &&& 0 <= block < num_blocks_spec(self.flags@.len() as int, self.bls as int)
        &&& region.len() == count_true(block_flags(self.flags@, self.bls as int, block))
    }

    open spec fn written(&self, block: int, before: Seq<T>, after: Seq<T>) -> bool {
        block_packed(
            self.flags@,
            self.bls as int,
            block,
            after,
            |p: int, v: T| self.arr_f.ensures((p as usize,), v),
        )
    }

    fn write_region(&self, block: usize, region: &mut [T]) {
        let n: usize = self.flags.len();
        let (lo, hi) = block_bounds(block, self.bls, n);
        let chunk: &[bool] = vstd::slice::slice_subrange(self.flags, lo, hi);
        let arr_f: &F = self.arr_f;
        let from_block = |j: usize| -> (r: T)
            requires
                j < hi - lo,
                chunk@[j as int],
            ensures
                arr_f.ensures(((lo + j) as usize,), r),
            { arr_f(lo + j) };
        let k: usize = pack_serial_at(&from_block, chunk, region);
        proof {
            assert(region@.take(k as int) =~= region@);
            assert forall|q: int| 0 <= q < region@.len() implies arr_f.ensures(
                ((lo + true_positions(chunk@)[q]) as usize,),
                #[trigger] region@[q],
            ) by {
                lemma_true_positions_sound(chunk@, q);
                assert(from_block.ensures((true_positions(chunk@)[q] as usize,), region@[q]));
            }
        }
    }
}

/// The first two phases of a blocked pack: the set flags of each block of
/// `bls` flags are counted in parallel, and the counts are scanned into the
/// offsets of the blocks in the packed result.  Returns the offsets and the
/// number of all set flags.
pub fn pack_offsets(flags: &[bool], bls: usize) -> (r: (Vec<usize>, usize))
    requires
        bls > 0,
    ensures
        is_pack_offsets(flags@, bls as int, r.0@, r.1 as int),
{
    let n: usize = flags.len();
    let block_no: usize = num_blocks(n, bls);
    let count_block = |i: usize| -> (c: usize)
        requires
            i < block_no,
        ensures
            c == count_true(block_flags(flags@, bls as int, i as int)),
        {
            let (lo, hi) = block_bounds(i, bls, n);
            sum_bool_serial(vstd::slice::slice_subrange(flags, lo, hi))
        };
    let block_counts: Vec<usize> = par_map_range(block_no, &count_block);
    let ghost counts = block_counts@;
    proof {
        assert(is_block_counts(flags@, bls as int, counts));
        lemma_block_counts_prefix(flags@, bls as int, counts, block_no as int);
        lemma_block_start(block_no as int, bls as int, n as int);
        assert(flags@.take(n as int) =~= flags@);
        assert(counts.take(block_no as int) =~= counts);
        lemma_count_true_bound(flags@);
        lemma_sum_runs_fit(counts);
    }
    let (sums, m) = block_delayed_scan(block_counts.as_slice(), bls);
    proof {
        assert forall|i: int| 0 <= i < sums@.len() implies #[trigger] sums@[i] == count_true(
            flags@.take(block_start(i, bls as int, n as int)),
        ) by {
            lemma_block_counts_prefix(flags@, bls as int, counts, i);
        }
    }
    (sums, m)
}

/// The last phase of a blocked pack: each block compacts its flags into its
/// own region of `dest`, which starts at the block's offset.  The regions do
/// not overlap, so the blocks write independently of each other, and every
/// place of `dest` is written once.
pub fn pack_blocks<T, F>(arr_f: &F, flags: &[bool], bls: usize, offsets: &[usize], dest: &mut [T]) where
    T: Send,
    F: Fn(usize) -> T + Sync,

    requires
        bls > 0,
        is_pack_offsets(flags@, bls as int, offsets@, old(dest)@.len() as int),
        callable_where_set(arr_f, flags@),
    ensures
        packed_by(arr_f, flags@, final(dest)@),
{
    let m: usize = dest.len();
    let block_no: usize = offsets.len();
    let writer = PackWriter { arr_f, flags, bls };
    let ghost before = dest@;
    proof {
        lemma_pack_cuts(flags@, bls as int, offsets@, m as int);
        assert forall|i: int| 0 <= i < block_no implies writer.ready(
            i,
            #[trigger] region_of(before, offsets@, m as int, 0, i),
        ) by {
            lemma_pack_region_len(flags@, bls as int, offsets@, m as int, i);
        }
        if block_no > 0 {
            lemma_pack_region_len(flags@, bls as int, offsets@, m as int, 0);
        } else {
            assert(cut(offsets@, m as int, 0) == m);
            assert(flags@.len() == 0) by {
                crate::blocks::lemma_num_blocks_is_ceiling(flags@.len() as int, bls as int);
            }
        }
    }
    fan_out(&writer, offsets, m, 0, block_no, dest);
    proof {
        let right = |p: int, v: T| arr_f.ensures((p as usize,), v);
        assert forall|i: int| 0 <= i < offsets@.len() implies block_packed(
            flags@,
            bls as int,
            i,
            #[trigger] region_of(dest@, offsets@, dest@.len() as int, 0, i),
            right,
        ) by {
            assert(writer.written(
                i,
                region_of(before, offsets@, m as int, 0, i),
                region_of(dest@, offsets@, m as int, 0, i),
            ));
        }
        lemma_blocks_assemble(flags@, bls as int, offsets@, dest@, right, block_no as int);
        lemma_block_start(block_no as int, bls as int, flags@.len() as int);
        assert(flags@.take(flags@.len() as int) =~= flags@);
    }
}

/// Blocked compaction.  The set flags of each block of `bls` flags are
/// counted in parallel, the counts are scanned into the blocks' offsets in
/// the result, the result is allocated at its final size, and each block
/// then compacts its flags into its own region.  A single block is compacted
/// sequentially.
///
/// The result does not depend on `bls`.
pub fn pack_helper<T, F>(arr_f: F, flags: &[bool], bls: usize, dest: &mut Vec<T>) where
    T: Copy + Clone + Send + Sync,
    F: Fn(usize) -> T + Send + Sync,

    requires
        bls > 0,
        callable_on(&arr_f, flags@),
    ensures
        packed_by(&arr_f, flags@, final(dest)@),
{
    let n: usize = flags.len();
    let block_no: usize = num_blocks(n, bls);
    if block_no <= 1 {
        pack_serial(arr_f, flags, dest);
        return ;
    }
    let (offsets, m) = pack_offsets(flags, bls);
    let fill: T = arr_f(0);
    *dest = vec![fill; m];
    pack_blocks(&arr_f, flags, bls, offsets.as_slice(), dest.as_mut_slice());
}

/// Where `arr_f` can only give the element of `arr` at the position asked
/// for, what was packed by `arr_f` is the pack of `arr`.
pub proof fn lemma_packed_is_pack<T, F: Fn(usize) -> T>(
    arr: Seq<T>,
    flags: Seq<bool>,
    out: Seq<T>,
    arr_f: &F,
)
    requires
        arr.len() == flags.len() <= usize::MAX,
        packed_by(arr_f, flags, out),
        forall|i: usize, v: T| i < arr.len() && #[trigger] arr_f.ensures((i,), v) ==> v == arr[i as int],
    ensures
        out == pack_spec(arr, flags),
{
    assert forall|k: int| 0 <= k < out.len() implies out[k] == pack_spec(arr, flags)[k] by {
        lemma_true_positions_sound(flags, k);
        assert(arr_f.ensures((true_positions(flags)[k] as usize,), out[k]));
    }
    assert(out =~= pack_spec(arr, flags));
}

/// Compaction by flags: `dest` becomes the elements of `arr` whose flag is
/// set, in the order of the source.
pub fn pack<T>(arr: &[T], flags: &[bool], dest: &mut Vec<T>) where T: Copy + Send + Sync + Clone
    requires
        arr@.len() == flags@.len(),
    ensures
        final(dest)@ == pack_spec(arr@, flags@),
{
    if arr.len() > 0 {
        let arr_f = |i: usize| -> (v: T)
            requires
                i < arr@.len(),
            ensures
                v == arr@[i as int],
            { arr[i] };
        pack_helper(arr_f, flags, BLOCK_SIZE * 10, dest);
        proof {
            lemma_packed_is_pack(arr@, flags@, dest@, &arr_f);
        }
    } else {
        *dest = Vec::new();
        proof {
            assert(dest@ =~= pack_spec(arr@, flags@));
        }
    }
}

/// Why an index pack was refused.
#[derive(Debug, Clone, Copy, PartialEq, Eq)]
pub enum PackError {
    /// There were no flags.
    InvalidArgument,
    /// The element type cannot hold `index`, the first position to keep
    /// that it cannot hold.
    ConversionError { index: usize },
}

/// The sequence `0, 1, ..., n - 1`.
pub open spec fn identity_seq(n: nat) -> Seq<int> {
    Seq::new(n, |i: int| i)
}

/// `T` can hold every position from `lo` up to `hi` whose flag is set.
pub open spec fn held_between<T: IndexValue>(flags: Seq<bool>, lo: int, hi: int) -> bool {
    forall|j: int| lo <= j < hi && #[trigger] flags[j] ==> T::holds(j)
}

/// `T` can hold every position whose flag is set.
pub open spec fn all_held<T: IndexValue>(flags: Seq<bool>) -> bool {
    held_between::<T>(flags, 0, flags.len() as int)
}

/// `index` is the first position with a set flag that `T` cannot hold.
pub open spec fn first_unheld<T: IndexValue>(flags: Seq<bool>, index: int) -> bool {
    &&& 0 <= index < flags.len()
    &&& flags[index]
    &&& !T::holds(index)
    &&& held_between::<T>(flags, 0, index)
}

/// `r` is what a look through the flags `lo..hi` finds: the first set one
/// whose position `T` cannot hold, if there is one.
pub open spec fn unheld_in<T: IndexValue>(flags: Seq<bool>, lo: int, hi: int, r: Option<usize>) -> bool {
    match r {
        None => held_between::<T>(flags, lo, hi),
        Some(x) => lo <= x < hi && flags[x as int] && !T::holds(x as int) && held_between::<T>(
            flags,
            lo,
            x as int,
        ),
    }
}

/// Looks through the flags `lo..hi` for the first set one whose position `T`
/// cannot hold.
fn first_unheld_in<T: IndexValue>(flags: &[bool], lo: usize, hi: usize) -> (r: Option<usize>)
    requires
        lo <= hi <= flags@.len(),
    ensures
        unheld_in::<T>(flags@, lo as int, hi as int, r),
{
    let mut i: usize = lo;
    while i < hi
        invariant
            lo <= i <= hi <= flags@.len(),
            held_between::<T>(flags@, lo as int, i as int),
        decreases hi - i,
    {
        if flags[i] && T::from_index(i).is_none() {
            return Some(i);
        }
        i = i + 1;
    }
    None
}

/// Looks through all flags, block by block in parallel, for the first set
/// one whose position `T` cannot hold.
fn find_unheld<T: IndexValue>(flags: &[bool], bls: usize) -> (r: Option<usize>)
    requires
        bls > 0,
    ensures
        r is None <==> all_held::<T>(flags@),
        r is Some ==> first_unheld::<T>(flags@, r.unwrap() as int),
{
    let n: usize = flags.len();
    let block_no: usize = num_blocks(n, bls);
    let check_block = |i: usize| -> (r: Option<usize>)
        requires
            i < block_no,
        ensures
            unheld_in::<T>(
                flags@,
                block_start(i as int, bls as int, n as int),
                block_start(i + 1, bls as int, n as int),
                r,
            ),
        {
            let (lo, hi) = block_bounds(i, bls, n);
            first_unheld_in::<T>(flags, lo, hi)
        };
    let found: Vec<Option<usize>> = par_map_range(block_no, &check_block);
    let mut b: usize = 0;
    proof {
        lemma_block_start(0, bls as int, n as int);
    }
    while b < block_no
        invariant
            bls > 0,
            n == flags@.len(),
            block_no == num_blocks_spec(n as int, bls as int),
            b <= block_no == found@.len(),
            forall|i: int|
                0 <= i < block_no ==> unheld_in::<T>(
                    flags@,
                    block_start(i, bls as int, n as int),
                    block_start(i + 1, bls as int, n as int),
                    #[trigger] found@[i],
                ),
            held_between::<T>(flags@, 0, block_start(b as int, bls as int, n as int)),
        decreases block_no - b,
    {
        proof {
            lemma_block_start(b as int, bls as int, n as int);
        }
        let here: Option<usize> = found[b];
        if let Some(index) = here {
            return Some(index);
        }
        b = b + 1;
    }
    proof {
        lemma_block_start(block_no as int, bls as int, n as int);
    }
    None
}

/// Index pack: `dest` becomes the positions whose flag is set, in
/// increasing order, each as a value of `T`.  This is the pack of the
/// sequence `0, 1, ..., n - 1`.
///
/// It is refused, and `dest` is left as it was, where there are no flags
/// (`InvalidArgument`) and where `T` cannot hold a position to keep
/// (`ConversionError`, with the first such position).
pub fn pack_index<T>(flags: &[bool], dest: &mut Vec<T>) -> (res: Result<(), PackError>) where
    T: IndexValue + Send + Sync + Clone,

    ensures
        res == Err::<(), PackError>(PackError::InvalidArgument) <==> flags@.len() == 0,
        res is Ok <==> flags@.len() > 0 && all_held::<T>(flags@),
        forall|index: usize|
            res == Err::<(), PackError>(PackError::ConversionError { index }) ==> first_unheld::<T>(
                flags@,
                index as int,
            ),
        res is Ok ==> final(dest)@.map_values(|v: T| v.index_of()) == pack_spec(
            identity_seq(flags@.len()),
            flags@,
        ),
        res is Err ==> final(dest)@ == old(dest)@,
{
    let n: usize = flags.len();
    if n == 0 {
        return Err(PackError::InvalidArgument);
    }
    match find_unheld::<T>(flags, BLOCK_SIZE * 10) {
        Some(index) => {
            return Err(PackError::ConversionError { index });
        },
        None => {},
    }
    proof {
        T::lemma_holds_zero();
    }
    let arr_f = |i: usize| -> (v: T)
        requires
            T::holds(i as int),
        ensures
            v.index_of() == i,
        { T::from_index(i).unwrap() };
    pack_helper(arr_f, flags, BLOCK_SIZE * 10, dest);
    proof {
        let got = dest@.map_values(|v: T| v.index_of());
        let want = pack_spec(identity_seq(flags@.len()), flags@);
        assert forall|k: int| 0 <= k < got.len() implies got[k] == want[k] by {
            lemma_true_positions_sound(flags@, k);
            assert(arr_f.ensures((true_positions(flags@)[k] as usize,), dest@[k]));
        }
        assert(got =~= want);
    }
    Ok(())
}

/// `slots` holds, for each `true` flag in turn, a value that `arr_f` gives
/// for the flag's position, and no place is left unwritten.
pub open spec fn placed_by<T, F: Fn(usize) -> T>(
    arr_f: &F,
    flags: Seq<bool>,
    slots: Seq<Option<T>>,
) -> bool {
    &&& slots.len() == count_true(flags)
    &&& forall|k: int|
        0 <= k < slots.len() ==> (#[trigger] slots[k]) is Some && arr_f.ensures(
            (true_positions(flags)[k] as usize,),
            slots[k].unwrap(),
        )
}

/// No place of `slots` has been written.
pub open spec fn all_unwritten<T>(slots: Seq<Option<T>>) -> bool {
    forall|k: int| 0 <= k < slots.len() ==> (#[trigger] slots[k]) is None
}

/// A destination of `m` places, none of them written: no value of `T` is
/// made to fill it.
pub fn unwritten<T>(m: usize) -> (slots: Vec<Option<T>>)
    ensures
        slots@.len() == m,
        all_unwritten(slots@),
{
    let mut slots: Vec<Option<T>> = Vec::with_capacity(m);
    let mut k: usize = 0;
    while k < m
        invariant
            k <= m,
            slots@.len() == k,
            all_unwritten(slots@),
        decreases m - k,
    {
        slots.push(None);
        k = k + 1;
    }
    slots
}

/// Hands over the values of a destination whose places were all written.
pub fn take_written<T>(slots: Vec<Option<T>>) -> (dest: Vec<T>)
    requires
        forall|k: int| 0 <= k < slots@.len() ==> (#[trigger] slots@[k]) is Some,
    ensures
        dest@.len() == slots@.len(),
        forall|k: int| 0 <= k < dest@.len() ==> #[trigger] dest@[k] == slots@[k].unwrap(),
{
    let mut dest: Vec<T> = Vec::with_capacity(slots.len());
    let ghost all = slots@;
    for slot in it: slots.into_iter()
        invariant
            it.seq() == all,
            forall|k: int| 0 <= k < all.len() ==> (#[trigger] all[k]) is Some,
            dest@.len() == it.index(),
            forall|k: int| 0 <= k < dest@.len() ==> #[trigger] dest@[k] == all[k].unwrap(),
    {
        proof {
            assert(slot == all[it.index() as int]);
        }
        dest.push(slot.unwrap());
    }
    dest
}

/// Sequential compaction by placement: writes `arr_f(i)` for every `i`
/// whose flag is set, in order, into the places of `dest` from its start.
/// Each place is unwritten when its value arrives, and is written once.
pub fn nc_pack_serial_at<T, F>(arr_f: &F, flags: &[bool], dest: &mut [Option<T>]) where
    F: Fn(usize) -> T,

    requires
        count_true(flags@) <= old(dest)@.len(),
        callable_where_set(arr_f, flags@),
        all_unwritten(old(dest)@),
    ensures
        final(dest)@.len() == old(dest)@.len(),
        placed_by(arr_f, flags@, final(dest)@.take(count_true(flags@) as int)),
        all_unwritten(final(dest)@.skip(count_true(flags@) as int)),
{
    let n: usize = flags.len();
    let mut k: usize = 0;
    let mut i: usize = 0;
    while i < n
        invariant
            n == flags@.len(),
            i <= n,
            k == count_true(flags@.take(i as int)),
            count_true(flags@) <= dest@.len() == old(dest)@.len(),
            callable_where_set(arr_f, flags@),
            forall|j: int|
                0 <= j < k ==> (#[trigger] dest@[j]) is Some && arr_f.ensures(
                    (true_positions(flags@)[j] as usize,),
                    dest@[j].unwrap(),
                ),
            forall|j: int| k <= j < dest@.len() ==> (#[trigger] dest@[j]) is None,
        decreases n - i,
    {
        proof {
            assert(flags@.take(i + 1).drop_last() =~= flags@.take(i as int));
            lemma_count_true_prefix(flags@, i + 1);
        }
        if flags[i] {
            let v: T = arr_f(i);
            assert(dest@[k as int] is None);
            dest[k] = Some(v);
            proof {
                assert(true_positions(flags@.take(i + 1))[k as int] == i);
            }
            k = k + 1;
        }
        i = i + 1;
    }
    proof {
        assert(flags@.take(n as int) =~= flags@);
    }
}

/// Sequential compaction by placement into a fresh vector: `dest` becomes
/// the values of `arr_f` at the positions whose flag is set, in order.  No
/// value is made but those that are kept.
pub fn nc_pack_serial<T, F>(arr_f: F, flags: &[bool], dest: &mut Vec<T>) where F: Fn(usize) -> T
    requires
        callable_where_set(&arr_f, flags@),
    ensures
        packed_by(&arr_f, flags@, final(dest)@),
{
    let m: usize = sum_bool_serial(flags);
    let mut slots: Vec<Option<T>> = unwritten(m);
    nc_pack_serial_at(&arr_f, flags, slots.as_mut_slice());
    proof {
        assert(slots@.take(m as int) =~= slots@);
    }
    *dest = take_written(slots);
}

/// The write phase of a blocked pack by placement: block `i` places the
/// values for its own flags into its own region of the destination, which
/// nobody has written before.
pub struct PlaceWriter<'a, F> {
    pub arr_f: &'a F,
    pub flags: &'a [bool],
    pub bls: usize,
}

impl<'a, T, F: Fn(usize) -> T> RegionWriter<Option<T>> for PlaceWriter<'a, F> {
    open spec fn ready(&self, block: int, region: Seq<Option<T>>) -> bool {
        &&& self.bls > 0
        &&& callable_where_set(self.arr_f, self.flags@)
        &&& 0 <= block < num_blocks_spec(self.flags@.len() as int, self.bls as int)
        &&& region.len() == count_true(block_flags(self.flags@, self.bls as int, block))
        &&& all_unwritten(region)
    }

    open spec fn written(&self, block: int, before: Seq<Option<T>>, after: Seq<Option<T>>) -> bool {
        block_packed(
            self.flags@,
            self.bls as int,
            block,
            after,
            |p: int, v: Option<T>| v is Some && self.arr_f.ensures((p as usize,), v.unwrap()),
        )
    }

    fn write_region(&self, block: usize, region: &mut [Option<T>]) {
        let n: usize = self.flags.len();
        let (lo, hi) = block_bounds(block, self.bls, n);
        let chunk: &[bool] = vstd::slice::slice_subrange(self.flags, lo, hi);
        let arr_f: &F = self.arr_f;
        let from_block = |j: usize| -> (r: T)
            requires
                j < hi - lo,
                chunk@[j as int],
            ensures
                arr_f.ensures(((lo + j) as usize,), r),
            { arr_f(lo + j) };
        nc_pack_serial_at(&from_block, chunk, region);
        proof {
            let k = count_true(chunk@) as int;
            assert(region@.take(k) =~= region@);
            assert forall|q: int| 0 <= q < region@.len() implies (#[trigger] region@[q]) is Some
                && arr_f.ensures(
                ((lo + true_positions(chunk@)[q]) as usize,),
                region@[q].unwrap(),
            ) by {
                lemma_true_positions_sound(chunk@, q);
                assert(region@.take(k)[q] == region@[q]);
                assert(from_block.ensures(
                    (true_positions(chunk@)[q] as usize,),
                    region@[q].unwrap(),
                ));
            }
        }
    }
}

/// The last phase of a blocked pack by placement: each block places its
/// values into its own region of `slots`, which starts at the block's
/// offset.  The regions do not overlap, so every place is written once, by
/// one block, and none is read before.
pub fn place_blocks<T, F>(
    arr_f: &F,
    flags: &[bool],
    bls: usize,
    offsets: &[usize],
    slots: &mut [Option<T>],
) where T: Send, F: Fn(usize) -> T + Sync
    requires
        bls > 0,
        is_pack_offsets(flags@, bls as int, offsets@, old(slots)@.len() as int),
        callable_where_set(arr_f, flags@),
        all_unwritten(old(slots)@),
    ensures
        placed_by(arr_f, flags@, final(slots)@),
{
    let m: usize = slots.len();
    let block_no: usize = offsets.len();
    let writer = PlaceWriter { arr_f, flags, bls };
    let ghost before = slots@;
    proof {
        lemma_pack_cuts(flags@, bls as int, offsets@, m as int);
        assert forall|i: int| 0 <= i < block_no implies writer.ready(
            i,
            #[trigger] region_of(before, offsets@, m as int, 0, i),
        ) by {
            lemma_pack_region_len(flags@, bls as int, offsets@, m as int, i);
        }
        if block_no > 0 {
            lemma_pack_region_len(flags@, bls as int, offsets@, m as int, 0);
        } else {
            assert(cut(offsets@, m as int, 0) == m);
            assert(flags@.len() == 0) by {
                crate::blocks::lemma_num_blocks_is_ceiling(flags@.len() as int, bls as int);
            }
        }
    }
    fan_out(&writer, offsets, m, 0, block_no, slots);
    proof {
        let right = |p: int, v: Option<T>| v is Some && arr_f.ensures((p as usize,), v.unwrap());
        assert forall|i: int| 0 <= i < offsets@.len() implies block_packed(
            flags@,
            bls as int,
            i,
            #[trigger] region_of(slots@, offsets@, slots@.len() as int, 0, i),
            right,
        ) by {
            assert(writer.written(
                i,
                region_of(before, offsets@, m as int, 0, i),
                region_of(slots@, offsets@, m as int, 0, i),
            ));
        }
        lemma_blocks_assemble(flags@, bls as int, offsets@, slots@, right, block_no as int);
        lemma_block_start(block_no as int, bls as int, flags@.len() as int);
        assert(flags@.take(flags@.len() as int) =~= flags@);
    }
}

/// Blocked compaction by placement: as `pack_helper`, but the destination
/// starts out unwritten and each kept value is placed into it once, so that
/// `T` needs no value to fill it with and none is copied.
///
/// The result does not depend on `bls`.
pub fn nc_pack_helper<T, F>(arr_f: F, flags: &[bool], bls: usize, dest: &mut Vec<T>) where
    T: Send + Sync,
    F: Fn(usize) -> T + Send + Sync,

    requires
        bls > 0,
        callable_where_set(&arr_f, flags@),
    ensures
        packed_by(&arr_f, flags@, final(dest)@),
{
    let n: usize = flags.len();
    let block_no: usize = num_blocks(n, bls);
    if block_no <= 1 {
        nc_pack_serial(arr_f, flags, dest);
        return ;
    }
    let (offsets, m) = pack_offsets(flags, bls);
    let mut slots: Vec<Option<T>> = unwritten(m);
    place_blocks(&arr_f, flags, bls, offsets.as_slice(), slots.as_mut_slice());
    *dest = take_written(slots);
}

/// Compaction by flags without copying: `dest` becomes clones of the
/// elements of `arr` whose flag is set, in the order of the source, each made
/// where it is kept.
pub fn nc_pack<T>(arr: &[T], flags: &[bool], dest: &mut Vec<T>) where T: Clone + Send + Sync
    requires
        arr@.len() == flags@.len(),
    ensures
        final(dest)@.len() == count_true(flags@),
        forall|k: int|
            0 <= k < count_true(flags@) ==> cloned(
                arr@[true_positions(flags@)[k]],
                #[trigger] final(dest)@[k],
            ),
{
    if arr.len() == 0 {
        *dest = Vec::new();
    } else {
        let arr_f = |i: usize| -> (v: T)
            requires
                i < arr@.len(),
            ensures
                cloned(arr@[i as int], v),
            { arr[i].clone() };
        nc_pack_helper(arr_f, flags, BLOCK_SIZE * 10, dest);
        proof {
            assert forall|k: int| 0 <= k < count_true(flags@) implies cloned(
                arr@[true_positions(flags@)[k]],
                #[trigger] dest@[k],
            ) by {
                lemma_true_positions_sound(flags@, k);
                assert(arr_f.ensures((true_positions(flags@)[k] as usize,), dest@[k]));
            }
        }
    }
}

/// The pack of a sequence has one element for each set flag: its `i`-th
/// element is the element of the source at the `i`-th position whose flag
/// is set, and these positions increase.
pub proof fn lemma_pack_elements<T>(src: Seq<T>, flags: Seq<bool>)
    requires
        src.len() == flags.len(),
    ensures
        pack_spec(src, flags).len() == count_true(flags),
        forall|i: int|
            0 <= i < count_true(flags) ==> 0 <= #[trigger] true_positions(flags)[i] < flags.len()
                && flags[true_positions(flags)[i]],
        forall|i: int|
            0 <= i < count_true(flags) ==> #[trigger] pack_spec(src, flags)[i]
                == src[true_positions(flags)[i]],
        forall|i: int, j: int|
            0 <= i < j < count_true(flags) ==> #[trigger] true_positions(flags)[i]
                < #[trigger] true_positions(flags)[j],
        forall|p: int|
            0 <= p < flags.len() && #[trigger] flags[p] ==> exists|i: int|
                0 <= i < count_true(flags) && true_positions(flags)[i] == p,
{
    assert forall|i: int| 0 <= i < count_true(flags) implies 0 <= #[trigger] true_positions(
        flags,
    )[i] < flags.len() && flags[true_positions(flags)[i]] by {
        lemma_true_positions_sound(flags, i);
    }
    assert forall|i: int, j: int| 0 <= i < j < count_true(flags) implies #[trigger] true_positions(
        flags,
    )[i] < #[trigger] true_positions(flags)[j] by {
        crate::flags::lemma_true_positions_increasing(flags, i, j);
    }
    assert forall|p: int| 0 <= p < flags.len() && #[trigger] flags[p] implies exists|i: int|
        0 <= i < count_true(flags) && true_positions(flags)[i] == p by {
        crate::flags::lemma_true_positions_complete(flags, p);
    }
}

/// Packing with every flag set gives the source back.
pub proof fn lemma_pack_all_true<T>(src: Seq<T>, flags: Seq<bool>)
    requires
        src.len() == flags.len(),
        forall|i: int| 0 <= i < flags.len() ==> flags[i],
    ensures
        pack_spec(src, flags) == src,
{
    lemma_true_positions_all(flags);
    assert(pack_spec(src, flags) =~= src);
}

/// Packing with no flag set gives nothing.
pub proof fn lemma_pack_all_false<T>(src: Seq<T>, flags: Seq<bool>)
    requires
        src.len() == flags.len(),
        forall|i: int| 0 <= i < flags.len() ==> !flags[i],
    ensures
        pack_spec(src, flags) == Seq::<T>::empty(),
{
    lemma_true_positions_none(flags);
    assert(pack_spec(src, flags) =~= Seq::<T>::empty());
}

/// The index pack is the pack of the sequence `0, 1, ..., n - 1`: both are
/// the positions whose flag is set.
pub proof fn lemma_pack_of_identity(flags: Seq<bool>)
    ensures
        pack_spec(identity_seq(flags.len()), flags) == true_positions(flags),
{
    assert forall|k: int| 0 <= k < count_true(flags) implies pack_spec(
        identity_seq(flags.len()),
        flags,
    )[k] == true_positions(flags)[k] by {
        lemma_true_positions_sound(flags, k);
    }
    assert(pack_spec(identity_seq(flags.len()), flags) =~= true_positions(flags));
}

/// The index pack is the pack of the identity: a result of `pack_index` for
/// flags that are not empty stands, element by element, for the elements of
/// a result of `pack` on the sequence `0, 1, ..., n - 1` with the same flags.
pub proof fn lemma_pack_index_is_pack<T: IndexValue>(
    flags: Seq<bool>,
    identity: Seq<usize>,
    by_pack: Seq<usize>,
    by_index: Seq<T>,
)
    requires
        flags.len() > 0,
        identity.len() == flags.len(),
        forall|i: int| 0 <= i < identity.len() ==> identity[i] == i,
        by_pack == pack_spec(identity, flags),
        by_index.map_values(|v: T| v.index_of()) == pack_spec(identity_seq(flags.len()), flags),
    ensures
        by_index.len() == by_pack.len(),
        forall|k: int| 0 <= k < by_index.len() ==> (#[trigger] by_index[k]).index_of() == by_pack[k],
{
    let models = by_index.map_values(|v: T| v.index_of());
    assert(models.len() == by_index.len());
    assert forall|k: int| 0 <= k < by_index.len() implies (#[trigger] by_index[k]).index_of()
        == by_pack[k] by {
        lemma_true_positions_sound(flags, k);
        assert(models[k] == by_index[k].index_of());
    }
}

/// Where `arr_f` gives one value for each position, the flags decide what
/// is packed: two results are equal, by whichever path and with whichever
/// block size each was made.
pub proof fn lemma_packed_by_unique<T, F: Fn(usize) -> T>(
    arr_f: &F,
    flags: Seq<bool>,
    a: Seq<T>,
    b: Seq<T>,
)
    requires
        packed_by(arr_f, flags, a),
        packed_by(arr_f, flags, b),
        forall|i: usize, v: T, w: T|
            #[trigger] arr_f.ensures((i,), v) && #[trigger] arr_f.ensures((i,), w) ==> v == w,
    ensures
        a == b,
{
    assert forall|k: int| 0 <= k < a.len() implies a[k] == b[k] by {
        let i = true_positions(flags)[k] as usize;
        assert(arr_f.ensures((i,), a[k]));
        assert(arr_f.ensures((i,), b[k]));
    }
    assert(a =~= b);
}

} // verus!
