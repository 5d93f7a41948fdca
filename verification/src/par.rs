use crate::flags::true_positions;
use rayon::iter::{IntoParallelIterator, ParallelIterator};
use vstd::prelude::*;

verus! {

/// Parallel map over an index range: rayon's `into_par_iter` on `0..n`,
/// `map` and `collect` into a `Vec`.  rayon applies the closure once to each
/// index and collects the results in the order of the indices.
#[verifier::external_body]
pub(crate) fn par_map_range<R: Send, F: Fn(usize) -> R + Sync + Send>(n: usize, f: &F) -> (res:
    Vec<R>)
    requires
        forall|i: usize| i < n ==> #[trigger] f.requires((i,)),
    ensures
        res@.len() == n,
        forall|i: int| 0 <= i < n ==> f.ensures((i as usize,), #[trigger] res@[i]),
{
    (0..n).into_par_iter().map(|i| f(i)).collect()
}

/// `kept` lists, in increasing order, the indices below `n` for which the
/// predicate answered `true`, where `pred` was asked once for each index.
pub open spec fn kept_by<P: Fn(usize) -> bool>(pred: &P, n: int, kept: Seq<usize>) -> bool {
    exists|answers: Seq<bool>|
        {
            &&& answers.len() == n
            &&& forall|i: int| 0 <= i < n ==> pred.ensures((i as usize,), #[trigger] answers[i])
            &&& kept.map_values(|x: usize| x as int) == true_positions(answers)
        }
}

/// Parallel filter over an index range: rayon's `into_par_iter` on `0..n`,
/// `filter` and `collect` into a `Vec`.  rayon asks the predicate once for
/// each index and keeps, in increasing order, the indices for which the
/// answer was `true`.
#[verifier::external_body]
pub(crate) fn par_filter_range<P: Fn(usize) -> bool + Sync + Send>(n: usize, pred: &P) -> (res:
    Vec<usize>)
    requires
        forall|i: usize| i < n ==> #[trigger] pred.requires((i,)),
    ensures
        kept_by(pred, n as int, res@),
{
    (0..n).into_par_iter().filter(|i| pred(*i)).collect()
}

} // verus!
