use crate::blocks::{
    block_bounds, block_start, block_starts, lemma_block_of_position, lemma_block_start,
    num_blocks, num_blocks_spec, BLOCK_SIZE,
};
use crate::monoid::{lemma_sum_runs_fit, sum};
use crate::par::par_map_range;
use crate::ragged::{cut, cuts_ordered, fan_out, region_of, RegionWriter};
use crate::sequence_ops::{block_delayed_scan, lemma_block_cuts};
use vstd::prelude::*;

verus! {

/// The sources, one after the other, as one sequence.
pub open spec fn concat_all<T>(sources: Seq<Seq<T>>) -> Seq<T>
    decreases sources.len(),
{
    if sources.len() == 0 {
        Seq::empty()
    } else {
        concat_all(sources.drop_last()) + sources.last()
    }
}

/// The contents of the sources that a slice of vectors refers to.
pub open spec fn contents_of<T>(arr: Seq<&Vec<T>>) -> Seq<Seq<T>> {
    arr.map_values(|v: &Vec<T>| v@)
}

/// `dest` holds a clone of each element of `src`, in order.
pub open spec fn cloned_from<T: Clone>(src: Seq<T>, dest: Seq<T>) -> bool {
    &&& dest.len() == src.len()
    &&& forall|k: int| 0 <= k < src.len() ==> cloned(src[k], #[trigger] dest[k])
}

/// Concatenating two collections of sources concatenates what they hold.
pub proof fn lemma_concat_all_append<T>(a: Seq<Seq<T>>, b: Seq<Seq<T>>)
    ensures
        concat_all(a + b) == concat_all(a) + concat_all(b),
    decreases b.len(),
{
    if b.len() == 0 {
        assert(a + b =~= a);
        assert(concat_all(a) + concat_all(b) =~= concat_all(a));
    } else {
        assert((a + b).drop_last() =~= a + b.drop_last());
        lemma_concat_all_append(a, b.drop_last());
        assert(concat_all(a + b) =~= concat_all(a) + concat_all(b));
    }
}

/// Taking one more source adds its length.
pub proof fn lemma_concat_all_index_len<T>(sources: Seq<Seq<T>>, i: int)
    requires
        0 <= i < sources.len(),
    ensures
        concat_all(sources.take(i + 1)).len() == concat_all(sources.take(i)).len()
            + sources[i].len(),
{
    assert(sources.take(i + 1).drop_last() =~= sources.take(i));
}

/// The lengths of the sources before source `i` add up to the length of
/// what those sources hold together.
pub proof fn lemma_lengths_prefix<T>(sources: Seq<Seq<T>>, lengths: Seq<usize>, i: int)
    requires
        lengths.len() == sources.len(),
        forall|q: int| 0 <= q < sources.len() ==> #[trigger] lengths[q] == sources[q].len(),
        0 <= i <= sources.len(),
    ensures
        sum(lengths.take(i)) == concat_all(sources.take(i)).len(),
    decreases i,
{
    if i == 0 {
        assert(lengths.take(0) =~= Seq::<usize>::empty());
        assert(sources.take(0) =~= Seq::<Seq<T>>::empty());
    } else {
        lemma_lengths_prefix(sources, lengths, i - 1);
        assert(lengths.take(i).drop_last() =~= lengths.take(i - 1));
        assert(sources.take(i).drop_last() =~= sources.take(i - 1));
    }
}

/// What the first sources hold is never longer than what more of them hold.
pub proof fn lemma_concat_all_prefix_len<T>(sources: Seq<Seq<T>>, i: int, j: int)
    requires
        0 <= i <= j <= sources.len(),
    ensures
        concat_all(sources.take(i)).len() <= concat_all(sources.take(j)).len(),
{
    assert(sources.take(j) =~= sources.take(i) + sources.subrange(i, j));
    lemma_concat_all_append(sources.take(i), sources.subrange(i, j));
}

/// Clones the elements of `src` from `lo` on into `dest`, one after the
/// other.
pub fn clone_serial<T: Clone>(src: &[T], lo: usize, dest: &mut [T])
    requires
        lo + old(dest)@.len() <= src@.len(),
    ensures
        cloned_from(src@.subrange(lo as int, lo + old(dest)@.len()), final(dest)@),
{
    let len: usize = dest.len();
    let n: usize = src.len();
    let mut j: usize = 0;
    while j < len
        invariant
            j <= len == dest@.len(),
            lo + len <= n == src@.len(),
            forall|k: int| 0 <= k < j ==> cloned(src@[lo + k], #[trigger] dest@[k]),
        decreases len - j,
    {
        let v: T = src[lo + j].clone();
        dest[j] = v;
        j = j + 1;
    }
}

/// The copy of one source, block by block: block `i` clones its elements of
/// `src` into its region.
pub struct CopyWriter<'a, T> {
    pub src: &'a [T],
    pub bls: usize,
}

impl<'a, T: Clone> RegionWriter<T> for CopyWriter<'a, T> {
    open spec fn ready(&self, block: int, region: Seq<T>) -> bool {
        let n = self.src@.len() as int;
        &&& self.bls > 0
        &&& 0 <= block < num_blocks_spec(n, self.bls as int)
        &&& region.len() == block_start(block + 1, self.bls as int, n) - block_start(
            block,
            self.bls as int,
            n,
        )
    }

    open spec fn written(&self, block: int, before: Seq<T>, after: Seq<T>) -> bool {
        forall|j: int|
            0 <= j < after.len() ==> cloned(
                self.src@[block_start(block, self.bls as int, self.src@.len() as int) + j],
                #[trigger] after[j],
            )
    }

    fn write_region(&self, block: usize, region: &mut [T]) {
        let (lo, hi) = block_bounds(block, self.bls, self.src.len());
        clone_serial(self.src, lo, region);
    }
}

/// Clones `src` into `dest`: in one pass where `src` is a single block of
/// `bls` elements, and block by block in parallel where it is longer.
///
/// The result does not depend on `bls`.
pub fn clone_into<T: Clone + Send + Sync>(src: &[T], bls: usize, dest: &mut [T])
    requires
        bls > 0,
        old(dest)@.len() == src@.len(),
    ensures
        cloned_from(src@, final(dest)@),
{
    let n: usize = src.len();
    let block_no: usize = num_blocks(n, bls);
    if block_no <= 1 {
        clone_serial(src, 0, dest);
        proof {
            assert(src@.subrange(0, n as int) =~= src@);
        }
        return ;
    }
    let starts: Vec<usize> = block_starts(bls, n);
    let writer = CopyWriter { src, bls };
    let ghost before = dest@;
    proof {
        lemma_block_cuts(starts@, bls as int, n as int);
        lemma_block_start(0, bls as int, n as int);
        lemma_block_start(block_no as int, bls as int, n as int);
        assert forall|i: int| 0 <= i < block_no implies writer.ready(
            i,
            #[trigger] region_of(before, starts@, n as int, 0, i),
        ) by {
            lemma_block_start(i, bls as int, n as int);
            assert(cut(starts@, n as int, i) == block_start(i, bls as int, n as int));
            assert(cut(starts@, n as int, i + 1) == block_start(i + 1, bls as int, n as int));
        }
    }
    fan_out(&writer, starts.as_slice(), n, 0, block_no, dest);
    proof {
        assert forall|p: int| 0 <= p < n implies cloned(src@[p], #[trigger] dest@[p]) by {
            let i = p / (bls as int);
            lemma_block_of_position(p, bls as int, n as int);
            lemma_block_start(i, bls as int, n as int);
            assert(cut(starts@, n as int, i) == block_start(i, bls as int, n as int));
            assert(cut(starts@, n as int, i + 1) == block_start(i + 1, bls as int, n as int));
            let region = region_of(dest@, starts@, n as int, 0, i);
            assert(writer.written(i, region_of(before, starts@, n as int, 0, i), region));
            let j = p - block_start(i, bls as int, n as int);
            assert(region[j] == dest@[p]);
        }
    }
}

/// The write phase of a flatten: block `i` clones source `i` into its
/// region of the destination.
pub struct FlattenWriter<'a, T> {
    pub arr: &'a [&'a Vec<T>],
    pub grain: usize,
}

impl<'a, T: Clone + Send + Sync> RegionWriter<T> for FlattenWriter<'a, T> {
    open spec fn ready(&self, block: int, region: Seq<T>) -> bool {
        &&& self.grain > 0
        &&& 0 <= block < self.arr@.len()
        &&& region.len() == self.arr@[block]@.len()
    }

    open spec fn written(&self, block: int, before: Seq<T>, after: Seq<T>) -> bool {
        cloned_from(self.arr@[block]@, after)
    }

    fn write_region(&self, block: usize, region: &mut [T]) {
        clone_into(self.arr[block].as_slice(), self.grain, region);
    }
}

/// `offsets` holds, for each source, the length of what the sources before
/// it hold together, and `total` is the length of what all hold.
pub open spec fn is_flatten_offsets<T>(sources: Seq<Seq<T>>, offsets: Seq<usize>, total: int) -> bool {
    &&& offsets.len() == sources.len()
    &&& total == concat_all(sources).len()
    &&& forall|i: int|
        0 <= i < offsets.len() ==> #[trigger] offsets[i] == concat_all(sources.take(i)).len()
}

/// The flatten offsets are ordered cut points.
pub proof fn lemma_flatten_cuts<T>(sources: Seq<Seq<T>>, offsets: Seq<usize>, total: int)
    requires
        is_flatten_offsets(sources, offsets, total),
    ensures
        cuts_ordered(offsets, total),
        forall|i: int|
            0 <= i <= offsets.len() ==> #[trigger] cut(offsets, total, i) == concat_all(
                sources.take(i),
            ).len(),
{
    assert(sources.take(sources.len() as int) =~= sources);
    assert forall|i: int, j: int| 0 <= i <= j <= offsets.len() implies 0 <= #[trigger] cut(
        offsets,
        total,
        i,
    ) <= #[trigger] cut(offsets, total, j) by {
        lemma_concat_all_prefix_len(sources, i, j);
    }
}

/// Sources that were cloned one by one, each into its own region, make a
/// destination that holds clones of the concatenation, up to the end of
/// source `i - 1`.
pub proof fn lemma_sources_assemble<T: Clone>(
    sources: Seq<Seq<T>>,
    offsets: Seq<usize>,
    out: Seq<T>,
    i: int,
)
    requires
        is_flatten_offsets(sources, offsets, out.len() as int),
        0 <= i <= sources.len(),
        forall|q: int|
            0 <= q < sources.len() ==> cloned_from(
                sources[q],
                #[trigger] region_of(out, offsets, out.len() as int, 0, q),
            ),
    ensures
        concat_all(sources.take(i)).len() <= out.len(),
        forall|k: int|
            0 <= k < concat_all(sources.take(i)).len() ==> cloned(
                concat_all(sources.take(i))[k],
                #[trigger] out[k],
            ),
    decreases i,
{
    let m = out.len() as int;
    lemma_flatten_cuts(sources, offsets, m);
    assert(cut(offsets, m, i) <= cut(offsets, m, offsets.len() as int));
    if i > 0 {
        lemma_sources_assemble(sources, offsets, out, i - 1);
        let a = concat_all(sources.take(i - 1));
        assert(sources.take(i).drop_last() =~= sources.take(i - 1));
        assert(sources.take(0) =~= Seq::<Seq<T>>::empty());
        assert(cut(offsets, m, 0) == 0);
        assert(cut(offsets, m, i - 1) == a.len());
        assert(cut(offsets, m, i - 1 + 1) == concat_all(sources.take(i)).len());
        let region = region_of(out, offsets, m, 0, i - 1);
        assert(cloned_from(sources[i - 1], region));
        assert forall|k: int| 0 <= k < concat_all(sources.take(i)).len() implies cloned(
            concat_all(sources.take(i))[k],
            #[trigger] out[k],
        ) by {
            if k >= a.len() {
                assert(region[k - a.len()] == out[k]);
            }
        }
    }
}

/// Flatten: `dest` becomes clones of the elements of the sources, source
/// after source in the order of `arr`.
///
/// The length of each source is taken in parallel, the lengths are scanned
/// into the offsets of the sources in the result, the result is allocated at
/// its final size, and each source is then cloned into its own region.
pub fn flatten<T>(arr: &[&Vec<T>], dest: &mut Vec<T>) where T: Clone + Send + Sync + Default
    requires
        concat_all(contents_of(arr@)).len() <= usize::MAX,
    ensures
        cloned_from(concat_all(contents_of(arr@)), final(dest)@),
{
    let n: usize = arr.len();
    let ghost sources = contents_of(arr@);
    let source_len = |i: usize| -> (len: usize)
        requires
            i < n,
        ensures
            len == arr@[i as int]@.len(),
        { arr[i].len() };
    let source_lengths: Vec<usize> = par_map_range(n, &source_len);
    let ghost lengths = source_lengths@;
    proof {
        lemma_lengths_prefix(sources, lengths, n as int);
        assert(lengths.take(n as int) =~= lengths);
        assert(sources.take(n as int) =~= sources);
        lemma_sum_runs_fit(lengths);
    }
    let (offsets, len) = block_delayed_scan(source_lengths.as_slice(), BLOCK_SIZE);
    proof {
        assert forall|i: int| 0 <= i < offsets@.len() implies #[trigger] offsets@[i] == concat_all(
            sources.take(i),
        ).len() by {
            lemma_lengths_prefix(sources, lengths, i);
        }
        lemma_flatten_cuts(sources, offsets@, len as int);
    }
    *dest = vec![T::default(); len];
    let writer = FlattenWriter { arr, grain: BLOCK_SIZE };
    let ghost before = dest@;
    proof {
        assert(sources.take(0) =~= Seq::<Seq<T>>::empty());
        assert forall|i: int| 0 <= i < n implies writer.ready(
            i,
            #[trigger] region_of(before, offsets@, len as int, 0, i),
        ) by {
            assert(cut(offsets@, len as int, 0) <= cut(offsets@, len as int, i));
            assert(cut(offsets@, len as int, i + 1) <= cut(offsets@, len as int, n as int));
            assert(cut(offsets@, len as int, i) <= cut(offsets@, len as int, i + 1));
            lemma_concat_all_index_len(sources, i);
        }
    }
    fan_out(&writer, offsets.as_slice(), len, 0, n, dest.as_mut_slice());
    proof {
        assert forall|q: int| 0 <= q < sources.len() implies cloned_from(
            sources[q],
            #[trigger] region_of(dest@, offsets@, dest@.len() as int, 0, q),
        ) by {
            assert(writer.written(
                q,
                region_of(before, offsets@, len as int, 0, q),
                region_of(dest@, offsets@, len as int, 0, q),
            ));
        }
        lemma_sources_assemble(sources, offsets@, dest@, n as int);
    }
}

/// Flatten of owned sources: as `flatten`, on the sources themselves
/// instead of references to them.
pub fn flatten_by_val<T>(arr: &[Vec<T>], dest: &mut Vec<T>) where T: Clone + Send + Sync + Default
    requires
        concat_all(arr@.map_values(|v: Vec<T>| v@)).len() <= usize::MAX,
    ensures
        cloned_from(concat_all(arr@.map_values(|v: Vec<T>| v@)), final(dest)@),
{
    let n: usize = arr.len();
    let mut ref_arr: Vec<&Vec<T>> = Vec::with_capacity(n);
    let mut i: usize = 0;
    while i < n
        invariant
            i <= n == arr@.len(),
            ref_arr@.len() == i,
            forall|q: int| 0 <= q < i ==> *(#[trigger] ref_arr@[q]) == arr@[q],
        decreases n - i,
    {
        ref_arr.push(&arr[i]);
        i = i + 1;
    }
    proof {
        assert(contents_of(ref_arr@) =~= arr@.map_values(|v: Vec<T>| v@));
    }
    flatten(ref_arr.as_slice(), dest);
}

/// Flattening is associative with concatenation: three sources flatten to
/// the same sequence as the flattening of the first two, followed by the
/// third.
pub proof fn lemma_concat_all_nested<T>(a: Seq<T>, b: Seq<T>, c: Seq<T>)
    ensures
        concat_all(seq![a, b, c]) == concat_all(seq![concat_all(seq![a, b]), c]),
        concat_all(seq![a, b, c]) == a + b + c,
{
    lemma_concat_all_of_two(a, b);
    lemma_concat_all_of_two(concat_all(seq![a, b]), c);
    let abc = seq![a, b, c];
    assert(abc.drop_last() =~= seq![a, b]);
    assert(abc.last() == c);
}

/// Two sources flatten to the first followed by the second.
pub proof fn lemma_concat_all_of_two<T>(a: Seq<T>, b: Seq<T>)
    ensures
        concat_all(seq![a, b]) == a + b,
{
    let ab = seq![a, b];
    let only_a = seq![a];
    assert(ab.drop_last() =~= only_a);
    assert(only_a.drop_last() =~= Seq::<Seq<T>>::empty());
    assert(concat_all(only_a.drop_last()) =~= Seq::<T>::empty());
    assert(concat_all(only_a) =~= a);
    assert(ab.last() == b);
}

/// Sources that are all empty flatten to nothing; so does no source at all.
pub proof fn lemma_concat_all_of_empties<T>(sources: Seq<Seq<T>>)
    requires
        forall|i: int| 0 <= i < sources.len() ==> (#[trigger] sources[i]).len() == 0,
    ensures
        concat_all(sources) == Seq::<T>::empty(),
    decreases sources.len(),
{
    if sources.len() > 0 {
        lemma_concat_all_of_empties(sources.drop_last());
        assert(concat_all(sources) =~= Seq::<T>::empty());
    }
}

/// Where cloning gives equal values, what holds clones of a sequence is
/// that sequence.
pub proof fn lemma_cloned_from_equal<T: Clone>(src: Seq<T>, dest: Seq<T>)
    requires
        cloned_from(src, dest),
        forall|a: T, b: T| #[trigger] cloned(a, b) ==> a == b,
    ensures
        dest == src,
{
    assert(dest =~= src);
}

/// Flatten is associative with concatenation: where cloning gives equal
/// values, flattening three sources gives what flattening the flattened
/// first two and the third gives.
pub proof fn lemma_flatten_associative<T: Clone>(
    a: Seq<T>,
    b: Seq<T>,
    c: Seq<T>,
    first_two: Seq<T>,
    nested: Seq<T>,
    all: Seq<T>,
)
    requires
        forall|x: T, y: T| #[trigger] cloned(x, y) ==> x == y,
        cloned_from(concat_all(seq![a, b]), first_two),
        cloned_from(concat_all(seq![first_two, c]), nested),
        cloned_from(concat_all(seq![a, b, c]), all),
    ensures
        all == nested,
{
    lemma_cloned_from_equal(concat_all(seq![a, b]), first_two);
    lemma_cloned_from_equal(concat_all(seq![first_two, c]), nested);
    lemma_cloned_from_equal(concat_all(seq![a, b, c]), all);
    lemma_concat_all_nested(a, b, c);
}

} // verus!
