use vstd::prelude::*;

verus! {

/// Work that fills one region of a shared buffer for each block index.
///
/// `ready` says what a block expects of its region before it runs, `written`
/// what it leaves there.  A region is handed out to one block only, so an
/// implementation never sees memory that another block writes.
pub trait RegionWriter<T> {
    spec fn ready(&self, block: int, region: Seq<T>) -> bool;

    spec fn written(&self, block: int, before: Seq<T>, after: Seq<T>) -> bool;

    fn write_region(&self, block: usize, region: &mut [T])
        requires
            self.ready(block as int, old(region)@),
        ensures
            final(region)@.len() == old(region)@.len(),
            self.written(block as int, old(region)@, final(region)@),
    ;
}

/// The `i`-th cut point of a buffer of `total` elements whose blocks start at
/// `starts`: the start of block `i`, or `total` behind the last block.
pub open spec fn cut(starts: Seq<usize>, total: int, i: int) -> int {
    if 0 <= i < starts.len() {
        starts[i] as int
    } else {
        total
    }
}

/// The cut points never decrease.
pub open spec fn cuts_ordered(starts: Seq<usize>, total: int) -> bool {
    forall|i: int, j: int|
        0 <= i <= j <= starts.len() ==> 0 <= #[trigger] cut(starts, total, i) <= #[trigger] cut(
            starts,
            total,
            j,
        )
}

/// The part of `buf` that belongs to block `i`, where `buf` holds the regions
/// of the blocks from `lo` on.
pub open spec fn region_of<T>(buf: Seq<T>, starts: Seq<usize>, total: int, lo: int, i: int) -> Seq<T> {
    buf.subrange(cut(starts, total, i) - cut(starts, total, lo), cut(starts, total, i + 1) - cut(starts, total, lo))
}

/// What `fan_out` asks of the buffer for the blocks `lo..hi`.
pub open spec fn fan_out_pre<T, W: RegionWriter<T>>(
    w: &W,
    starts: Seq<usize>,
    total: int,
    lo: int,
    hi: int,
    buf: Seq<T>,
) -> bool {
    &&& cuts_ordered(starts, total)
    &&& 0 <= lo <= hi <= starts.len()
    &&& buf.len() == cut(starts, total, hi) - cut(starts, total, lo)
    &&& forall|i: int| lo <= i < hi ==> w.ready(i, #[trigger] region_of(buf, starts, total, lo, i))
}

/// What `fan_out` leaves in the buffer for the blocks `lo..hi`.
pub open spec fn fan_out_post<T, W: RegionWriter<T>>(
    w: &W,
    starts: Seq<usize>,
    total: int,
    lo: int,
    hi: int,
    before: Seq<T>,
    after: Seq<T>,
) -> bool {
    &&& after.len() == before.len()
    &&& forall|i: int|
        lo <= i < hi ==> w.written(
            i,
            region_of(before, starts, total, lo, i),
            #[trigger] region_of(after, starts, total, lo, i),
        )
}

/// The region of block `i` is the same whether it is taken from the buffer
/// of the blocks `lo..`, or from the part of it that holds the blocks
/// `lo2..hi2`.
pub proof fn lemma_region_of_part<T>(
    buf: Seq<T>,
    starts: Seq<usize>,
    total: int,
    lo: int,
    lo2: int,
    hi2: int,
    i: int,
)
    requires
        cuts_ordered(starts, total),
        0 <= lo <= lo2 <= i < hi2 <= starts.len(),
        buf.len() >= cut(starts, total, hi2) - cut(starts, total, lo),
    ensures
        cut(starts, total, lo) <= cut(starts, total, lo2) <= cut(starts, total, hi2),
        region_of(
            buf.subrange(
                cut(starts, total, lo2) - cut(starts, total, lo),
                cut(starts, total, hi2) - cut(starts, total, lo),
            ),
            starts,
            total,
            lo2,
            i,
        ) == region_of(buf, starts, total, lo, i),
{
    let part = buf.subrange(
        cut(starts, total, lo2) - cut(starts, total, lo),
        cut(starts, total, hi2) - cut(starts, total, lo),
    );
    assert(region_of(part, starts, total, lo2, i) =~= region_of(buf, starts, total, lo, i));
}

/// Splitting the buffer at the cut point of `mid` leaves each half ready for
/// its blocks.
pub proof fn lemma_fan_out_split<T, W: RegionWriter<T>>(
    w: &W,
    starts: Seq<usize>,
    total: int,
    lo: int,
    mid: int,
    hi: int,
    buf: Seq<T>,
)
    requires
        fan_out_pre(w, starts, total, lo, hi, buf),
        lo <= mid <= hi,
    ensures
        0 <= cut(starts, total, mid) - cut(starts, total, lo) <= buf.len(),
        fan_out_pre(
            w,
            starts,
            total,
            lo,
            mid,
            buf.subrange(0, cut(starts, total, mid) - cut(starts, total, lo)),
        ),
        fan_out_pre(
            w,
            starts,
            total,
            mid,
            hi,
            buf.subrange(cut(starts, total, mid) - cut(starts, total, lo), buf.len() as int),
        ),
{
    let at = cut(starts, total, mid) - cut(starts, total, lo);
    let left = buf.subrange(0, at);
    let right = buf.subrange(at, buf.len() as int);
    assert forall|i: int| lo <= i < mid implies w.ready(
        i,
        #[trigger] region_of(left, starts, total, lo, i),
    ) by {
        lemma_region_of_part(buf, starts, total, lo, lo, mid, i);
        assert(w.ready(i, region_of(buf, starts, total, lo, i)));
    }
    assert forall|i: int| mid <= i < hi implies w.ready(
        i,
        #[trigger] region_of(right, starts, total, mid, i),
    ) by {
        lemma_region_of_part(buf, starts, total, lo, mid, hi, i);
        assert(w.ready(i, region_of(buf, starts, total, lo, i)));
    }
}

/// Two halves that were written make a whole that was written.
pub proof fn lemma_fan_out_merge<T, W: RegionWriter<T>>(
    w: &W,
    starts: Seq<usize>,
    total: int,
    lo: int,
    mid: int,
    hi: int,
    before: Seq<T>,
    after: Seq<T>,
)
    requires
        cuts_ordered(starts, total),
        0 <= lo <= mid <= hi <= starts.len(),
        before.len() == cut(starts, total, hi) - cut(starts, total, lo),
        after.len() == before.len(),
        fan_out_post(
            w,
            starts,
            total,
            lo,
            mid,
            before.subrange(0, cut(starts, total, mid) - cut(starts, total, lo)),
            after.subrange(0, cut(starts, total, mid) - cut(starts, total, lo)),
        ),
        fan_out_post(
            w,
            starts,
            total,
            mid,
            hi,
            before.subrange(cut(starts, total, mid) - cut(starts, total, lo), before.len() as int),
            after.subrange(cut(starts, total, mid) - cut(starts, total, lo), after.len() as int),
        ),
    ensures
        fan_out_post(w, starts, total, lo, hi, before, after),
{
    let at = cut(starts, total, mid) - cut(starts, total, lo);
    assert forall|i: int| lo <= i < hi implies w.written(
        i,
        region_of(before, starts, total, lo, i),
        #[trigger] region_of(after, starts, total, lo, i),
    ) by {
        if i < mid {
            lemma_region_of_part(before, starts, total, lo, lo, mid, i);
            lemma_region_of_part(after, starts, total, lo, lo, mid, i);
            assert(w.written(
                i,
                region_of(before.subrange(0, at), starts, total, lo, i),
                region_of(after.subrange(0, at), starts, total, lo, i),
            ));
        } else {
            lemma_region_of_part(before, starts, total, lo, mid, hi, i);
            lemma_region_of_part(after, starts, total, lo, mid, hi, i);
            assert(w.written(
                i,
                region_of(before.subrange(at, before.len() as int), starts, total, mid, i),
                region_of(after.subrange(at, after.len() as int), starts, total, mid, i),
            ));
        }
    }
}

/// Runs the two halves of a fan-out through `rayon::join`, which executes
/// both closures, possibly in parallel, and returns when both are done.  Each
/// closure is one call of `fan_out` on its own half of the buffer, so the
/// contract is that of the two calls taken together.  Each half holds fewer
/// blocks than the whole, so the calls come to an end.
#[verifier::external_body]
fn join_fan_out<T: Send, W: RegionWriter<T> + Sync>(
    w: &W,
    starts: &[usize],
    total: usize,
    lo: usize,
    mid: usize,
    hi: usize,
    left: &mut [T],
    right: &mut [T],
)
    requires
        lo < mid < hi,
        fan_out_pre(w, starts@, total as int, lo as int, mid as int, old(left)@),
        fan_out_pre(w, starts@, total as int, mid as int, hi as int, old(right)@),
    ensures
        fan_out_post(w, starts@, total as int, lo as int, mid as int, old(left)@, final(left)@),
        fan_out_post(w, starts@, total as int, mid as int, hi as int, old(right)@, final(right)@),
{
    rayon::join(
        || fan_out(w, starts, total, lo, mid, left),
        || fan_out(w, starts, total, mid, hi, right),
    );
}

/// Ragged chunk iteration: hands each block in `lo..hi` its own region of
/// `buf` and lets `w` fill it.  The regions are cut at `starts` and do not
/// overlap, so the blocks run independently of each other.
pub fn fan_out<T: Send, W: RegionWriter<T> + Sync>(
    w: &W,
    starts: &[usize],
    total: usize,
    lo: usize,
    hi: usize,
    buf: &mut [T],
)
    requires
        fan_out_pre(w, starts@, total as int, lo as int, hi as int, old(buf)@),
    ensures
        fan_out_post(w, starts@, total as int, lo as int, hi as int, old(buf)@, final(buf)@),
{
    let ghost before = buf@;
    if hi - lo == 0 {
    } else if hi - lo == 1 {
        proof {
            assert(region_of(before, starts@, total as int, lo as int, lo as int) =~= before);
        }
        w.write_region(lo, buf);
        proof {
            assert(region_of(buf@, starts@, total as int, lo as int, lo as int) =~= buf@);
        }
    } else {
        let mid: usize = lo + (hi - lo) / 2;
        proof {
            lemma_fan_out_split(w, starts@, total as int, lo as int, mid as int, hi as int, before);
        }
        let at: usize = starts[mid] - starts[lo];
        let (left, right) = buf.split_at_mut(at);
        join_fan_out(w, starts, total, lo, mid, hi, left, right);
        proof {
            let after = buf@;
            assert(after =~= left@ + right@);
            assert(after.subrange(0, at as int) =~= left@);
            assert(after.subrange(at as int, after.len() as int) =~= right@);
            lemma_fan_out_merge(
                w,
                starts@,
                total as int,
                lo as int,
                mid as int,
                hi as int,
                before,
                after,
            );
        }
    }
}

} // verus!
