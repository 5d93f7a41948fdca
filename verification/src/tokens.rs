use crate::blocks::BLOCK_SIZE;
use crate::flags::{
    count_true, lemma_count_true_bound, lemma_count_true_prefix, lemma_true_positions_rank,
    lemma_true_positions_sound, true_positions,
};
use crate::monoid::{all_runs_fit, fold, Monoid};
use crate::par::{par_filter_range, par_map_range};
use crate::sequence_ops::block_delayed_scan;
use vstd::prelude::*;

verus! {

/// The value that the token scan carries: how many tokens have started so
/// far, and where the last of them started.  Without a start so far the
/// place is 0.
#[derive(Copy, Clone, Debug, PartialEq, Eq)]
pub struct TokenPair {
    pub count: usize,
    pub start: usize,
}

/// Combines two scan values: the counts add up, and the later start wins
/// where the right side has seen one.  This operator is associative and not
/// commutative.
pub open spec fn carry(a: (nat, nat), b: (nat, nat)) -> (nat, nat) {
    if b.0 == 0 {
        a
    } else {
        (a.0 + b.0, b.1)
    }
}

impl Monoid for TokenPair {
    type Model = (nat, nat);

    open spec fn model(&self) -> (nat, nat) {
        if self.count == 0 {
            (0, 0)
        } else {
            (self.count as nat, self.start as nat)
        }
    }

    open spec fn valid(m: (nat, nat)) -> bool {
        m.0 == 0 ==> m.1 == 0
    }

    open spec fn m_unit() -> (nat, nat) {
        (0, 0)
    }

    open spec fn m_op(a: (nat, nat), b: (nat, nat)) -> (nat, nat) {
        carry(a, b)
    }

    open spec fn representable(m: (nat, nat)) -> bool {
        m.0 <= usize::MAX && m.1 <= usize::MAX
    }

    proof fn lemma_model_valid(&self) {
    }

    proof fn lemma_unit_valid() {
    }

    proof fn lemma_closed(a: (nat, nat), b: (nat, nat)) {
    }

    proof fn lemma_associative(a: (nat, nat), b: (nat, nat), c: (nat, nat)) {
    }

    proof fn lemma_unit(a: (nat, nat)) {
    }

    fn identity() -> (r: TokenPair) {
        TokenPair { count: 0, start: 0 }
    }

    fn combine(&self, other: &TokenPair) -> (r: TokenPair) {
        if other.count == 0 {
            *self
        } else {
            TokenPair { count: self.count + other.count, start: other.start }
        }
    }
}

/// The carry operator is associative on all pairs.
pub proof fn lemma_carry_associative(a: (nat, nat), b: (nat, nat), c: (nat, nat))
    ensures
        carry(carry(a, b), c) == carry(a, carry(b, c)),
{
}

/// A token starts at position `i` of a sequence with the separator flags
/// `sep`: the element at `i` is no separator, and it is the first element or
/// the one before it is a separator.
pub open spec fn is_start(sep: Seq<bool>, i: int) -> bool {
    &&& 0 <= i < sep.len()
    &&& !sep[i]
    &&& (i == 0 || sep[i - 1])
}

/// A token ends before position `i`: the element before `i` is no
/// separator, and `i` is the end of the sequence or holds a separator.
pub open spec fn is_end(sep: Seq<bool>, i: int) -> bool {
    &&& 0 < i <= sep.len()
    &&& !sep[i - 1]
    &&& (i == sep.len() || sep[i])
}

/// For each position from 0 to the length of the sequence, whether a token
/// starts there.
pub open spec fn start_flags(sep: Seq<bool>) -> Seq<bool> {
    Seq::new((sep.len() + 1) as nat, |i: int| is_start(sep, i))
}

/// For each position from 0 to the length of the sequence, whether a token
/// ends before it.
pub open spec fn end_flags(sep: Seq<bool>) -> Seq<bool> {
    Seq::new((sep.len() + 1) as nat, |i: int| is_end(sep, i))
}

/// The number of tokens.
pub open spec fn num_tokens(sep: Seq<bool>) -> nat {
    count_true(start_flags(sep))
}

/// Where token `k` starts.
pub open spec fn token_start(sep: Seq<bool>, k: int) -> int {
    true_positions(start_flags(sep))[k]
}

/// Where token `k` ends: the position behind its last element.
pub open spec fn token_end(sep: Seq<bool>, k: int) -> int {
    true_positions(end_flags(sep))[k]
}

/// Token `k` of `r`.
pub open spec fn token<T>(r: Seq<T>, sep: Seq<bool>, k: int) -> Seq<T> {
    r.subrange(token_start(sep, k), token_end(sep, k))
}

/// Among the positions before `i`, one more token has started than ended
/// where the element before `i` is no separator, and as many otherwise.
pub proof fn lemma_starts_and_ends(sep: Seq<bool>, i: int)
    requires
        0 <= i <= sep.len() + 1,
    ensures
        count_true(start_flags(sep).take(i)) == count_true(end_flags(sep).take(i)) + if 0 < i
            <= sep.len() && !sep[i - 1] {
            1nat
        } else {
            0nat
        },
    decreases i,
{
    let s = start_flags(sep);
    let e = end_flags(sep);
    if i == 0 {
        assert(s.take(0) =~= Seq::<bool>::empty());
        assert(e.take(0) =~= Seq::<bool>::empty());
    } else {
        lemma_starts_and_ends(sep, i - 1);
        assert(s.take(i).drop_last() =~= s.take(i - 1));
        assert(e.take(i).drop_last() =~= e.take(i - 1));
        assert(s.take(i).last() == is_start(sep, i - 1));
        assert(e.take(i).last() == is_end(sep, i - 1));
    }
}

/// There are as many token ends as token starts.
pub proof fn lemma_as_many_ends(sep: Seq<bool>)
    ensures
        count_true(end_flags(sep)) == num_tokens(sep),
{
    let all = sep.len() as int + 1;
    lemma_starts_and_ends(sep, all);
    assert(start_flags(sep).take(all) =~= start_flags(sep));
    assert(end_flags(sep).take(all) =~= end_flags(sep));
}

/// There are no more tokens than elements.
pub proof fn lemma_num_tokens_bound(sep: Seq<bool>)
    ensures
        num_tokens(sep) <= sep.len(),
{
    let s = start_flags(sep);
    assert(!s.last());
    lemma_count_true_bound(s.drop_last());
}

/// A sequence without elements has no tokens.
pub proof fn lemma_no_tokens_in_empty(sep: Seq<bool>)
    requires
        sep.len() == 0,
    ensures
        num_tokens(sep) == 0,
{
    crate::flags::lemma_true_positions_none(start_flags(sep));
}

/// The value that the token scan reads at position `i`: one token that
/// starts at `i`, or nothing.
pub open spec fn start_value(sep: Seq<bool>, i: int) -> TokenPair {
    if is_start(sep, i) {
        TokenPair { count: 1, start: i as usize }
    } else {
        TokenPair { count: 0, start: 0 }
    }
}

/// `vals` holds the scan's value for each position from 0 to the length of
/// the sequence.
pub open spec fn is_start_values(sep: Seq<bool>, vals: Seq<TokenPair>) -> bool {
    &&& vals.len() == sep.len() + 1
    &&& forall|i: int| 0 <= i < vals.len() ==> #[trigger] vals[i] == start_value(sep, i)
}

/// What a run of flags that begins at position `base` amounts to: how many
/// flags are set, and the position of the last one that is.
pub open spec fn run_summary(flags: Seq<bool>, base: int) -> (nat, nat) {
    if count_true(flags) == 0 {
        (0, 0)
    } else {
        (count_true(flags), (base + true_positions(flags).last()) as nat)
    }
}

/// The scan values of the positions `i..j` combine to the number of tokens
/// that start there and the start of the last of them.
pub proof fn lemma_fold_of_starts(sep: Seq<bool>, vals: Seq<TokenPair>, i: int, j: int)
    requires
        sep.len() < usize::MAX,
        is_start_values(sep, vals),
        0 <= i <= j <= vals.len(),
    ensures
        fold(vals.subrange(i, j)) == run_summary(start_flags(sep).subrange(i, j), i),
        fold(vals.subrange(i, j)).0 <= j - i,
        fold(vals.subrange(i, j)).1 < vals.len(),
    decreases j - i,
{
    let flags = start_flags(sep).subrange(i, j);
    lemma_count_true_bound(flags);
    if i == j {
        assert(vals.subrange(i, j) =~= Seq::<TokenPair>::empty());
    } else {
        lemma_fold_of_starts(sep, vals, i, j - 1);
        assert(vals.subrange(i, j).drop_last() =~= vals.subrange(i, j - 1));
        assert(flags.drop_last() =~= start_flags(sep).subrange(i, j - 1));
        assert(vals.subrange(i, j).last() == start_value(sep, j - 1));
        assert(flags.last() == is_start(sep, j - 1));
        if count_true(flags) > 0 {
            lemma_true_positions_sound(flags, count_true(flags) - 1);
        }
    }
}

/// The scan values fit the machine type in every run.
pub proof fn lemma_starts_fit(sep: Seq<bool>, vals: Seq<TokenPair>)
    requires
        sep.len() < usize::MAX,
        is_start_values(sep, vals),
    ensures
        all_runs_fit(vals),
{
    assert forall|i: int, j: int| 0 <= i <= j <= vals.len() implies TokenPair::representable(
        #[trigger] fold(vals.subrange(i, j)),
    ) by {
        lemma_fold_of_starts(sep, vals, i, j);
    }
}

/// Read at the end of token `k`, the scan gives the start of token `k`,
/// which lies before the end.
pub proof fn lemma_scan_at_end(sep: Seq<bool>, vals: Seq<TokenPair>, k: int)
    requires
        sep.len() < usize::MAX,
        is_start_values(sep, vals),
        0 <= k < num_tokens(sep),
    ensures
        0 <= token_start(sep, k) < token_end(sep, k) <= sep.len(),
        fold(vals.take(token_end(sep, k))) == ((k + 1) as nat, token_start(sep, k) as nat),
{
    let s = start_flags(sep);
    let e = token_end(sep, k);
    lemma_as_many_ends(sep);
    lemma_true_positions_rank(end_flags(sep), k);
    lemma_true_positions_sound(end_flags(sep), k);
    assert(is_end(sep, e));
    lemma_starts_and_ends(sep, e);
    assert(count_true(s.take(e)) == k + 1);
    lemma_count_true_prefix(s, e);
    lemma_true_positions_sound(s.take(e), k);
    lemma_fold_of_starts(sep, vals, 0, e);
    assert(vals.take(e) =~= vals.subrange(0, e));
    assert(s.take(e) =~= s.subrange(0, e));
}

/// `is_space` can be asked about every element of `r`.
pub open spec fn asks_all<T, G: Fn(&T) -> bool>(is_space: &G, r: Seq<T>) -> bool {
    forall|i: int| 0 <= i < r.len() ==> #[trigger] is_space.requires((&r[i],))
}

/// `sep` holds, for each element of `r`, an answer of `is_space` to whether
/// it is a separator.
pub open spec fn answers<T, G: Fn(&T) -> bool>(is_space: &G, r: Seq<T>, sep: Seq<bool>) -> bool {
    &&& sep.len() == r.len()
    &&& forall|i: int| 0 <= i < r.len() ==> is_space.ensures((&r[i],), #[trigger] sep[i])
}

/// `tok` is one of the tokens of `r`.
pub open spec fn is_token<T>(r: Seq<T>, sep: Seq<bool>, tok: Seq<T>) -> bool {
    exists|k: int| 0 <= k < num_tokens(sep) && tok == #[trigger] token(r, sep, k)
}

/// `f` can be applied to every token of `r`.
pub open spec fn applies_to_tokens<'a, T: 'a, R, F: Fn(&'a [T]) -> R>(
    f: &F,
    r: Seq<T>,
    sep: Seq<bool>,
) -> bool {
    forall|s: &'a [T]| is_token(r, sep, s@) ==> #[trigger] f.requires((s,))
}

/// `out` is a result of `f` on the token `tok`.
pub open spec fn maps_token<'a, T: 'a, R, F: Fn(&'a [T]) -> R>(f: &F, tok: Seq<T>, out: R) -> bool {
    exists|s: &'a [T]| s@ == tok && #[trigger] f.ensures((s,), out)
}

/// `res` holds one result of `f` for each token of `r`, in the order of the
/// tokens.
pub open spec fn is_mapped_tokens<'a, T: 'a, R, F: Fn(&'a [T]) -> R>(
    f: &F,
    r: Seq<T>,
    sep: Seq<bool>,
    res: Seq<R>,
) -> bool {
    &&& res.len() == num_tokens(sep)
    &&& forall|k: int| 0 <= k < res.len() ==> maps_token(f, token(r, sep, k), #[trigger] res[k])
}

/// `res` holds the tokens of `r`, in order.
pub open spec fn is_tokens<T>(r: Seq<T>, sep: Seq<bool>, res: Seq<&[T]>) -> bool {
    &&& res.len() == num_tokens(sep)
    &&& forall|k: int| 0 <= k < res.len() ==> (#[trigger] res[k])@ == token(r, sep, k)
}

/// `f` can be applied to every token that the answers of `is_space` can
/// leave of `r`.
pub open spec fn applies_to_all_tokens<'a, T: 'a, R, F: Fn(&'a [T]) -> R, G: Fn(&T) -> bool>(
    f: &F,
    is_space: &G,
    r: Seq<T>,
) -> bool {
    forall|sep: Seq<bool>| #[trigger] answers(is_space, r, sep) ==> applies_to_tokens(f, r, sep)
}

/// Splits `r` into its tokens, the maximal runs of elements that are no
/// separators, applies `f` to each, and returns the results in the order of
/// the tokens.  `is_space` is asked once about each element.
///
/// A scan over all positions carries the start of the last token forward;
/// read at the end of a token, it gives the token's start.
pub fn map_tokens<'a, T, F, G, R>(r: &'a Vec<T>, f: F, is_space: G) -> (res: Vec<R>) where
    T: Copy + Send + Sync + Default,
    F: Fn(&'a [T]) -> R + Copy + Send + Sync + Sized,
    G: Fn(&T) -> bool + Copy + Send + Sync + Sized,
    R: Copy + Send + Sync + Default,

    requires
        r@.len() < usize::MAX,
        asks_all(&is_space, r@),
        applies_to_all_tokens(&f, &is_space, r@),
    ensures
        exists|sep: Seq<bool>|
            #[trigger] answers(&is_space, r@, sep) && is_mapped_tokens(&f, r@, sep, res@),
{
    let n: usize = r.len();
    let data: &'a [T] = r.as_slice();
    let ask = |i: usize| -> (b: bool)
        requires
            i < n,
        ensures
            is_space.ensures((&r@[i as int],), b),
        { is_space(&data[i]) };
    let sep: Vec<bool> = par_map_range(n, &ask);
    proof {
        assert(answers(&is_space, r@, sep@));
    }
    if n == 0 {
        proof {
            lemma_no_tokens_in_empty(sep@);
        }
        let none: Vec<R> = Vec::new();
        assert(is_mapped_tokens(&f, r@, sep@, none@));
        return none;
    }
    let flags: &[bool] = sep.as_slice();
    let start_at = |i: usize| -> (p: TokenPair)
        requires
            i <= n,
        ensures
            p == start_value(flags@, i as int),
        {
            if i < n && !flags[i] && (i == 0 || flags[i - 1]) {
                TokenPair { count: 1, start: i }
            } else {
                TokenPair { count: 0, start: 0 }
            }
        };
    let start_tokens: Vec<TokenPair> = par_map_range(n + 1, &start_at);
    proof {
        assert(is_start_values(flags@, start_tokens@));
        lemma_starts_fit(flags@, start_tokens@);
    }
    let (offsets, total) = block_delayed_scan(start_tokens.as_slice(), BLOCK_SIZE);
    let at_end = |i: usize| -> (b: bool)
        requires
            i <= n,
        ensures
            b == is_end(flags@, i as int),
        { i > 0 && !flags[i - 1] && (i == n || flags[i]) };
    let end_indices: Vec<usize> = par_filter_range(n + 1, &at_end);
    let ends: &[usize] = end_indices.as_slice();
    let starts: &[TokenPair] = offsets.as_slice();
    proof {
        let found = choose|found: Seq<bool>|
            {
                &&& found.len() == n + 1
                &&& forall|i: int|
                    0 <= i < n + 1 ==> at_end.ensures((i as usize,), #[trigger] found[i])
                &&& ends@.map_values(|x: usize| x as int) == true_positions(found)
            };
        assert(found =~= end_flags(flags@));
        lemma_as_many_ends(flags@);
        assert(ends@.len() == ends@.map_values(|x: usize| x as int).len());
        assert forall|k: int| 0 <= k < ends@.len() implies {
            &&& (#[trigger] ends@[k]) == token_end(flags@, k)
            &&& 0 <= token_start(flags@, k) < token_end(flags@, k) <= n
            &&& starts@[ends@[k] as int].start == token_start(flags@, k)
        } by {
            assert(ends@.map_values(|x: usize| x as int)[k] == ends@[k]);
            lemma_scan_at_end(flags@, start_tokens@, k);
        }
        lemma_fold_of_starts(flags@, start_tokens@, 0, n + 1);
        assert(start_tokens@.subrange(0, n + 1) =~= start_tokens@);
        assert(start_flags(flags@).subrange(0, n + 1) =~= start_flags(flags@));
        assert(total.count == num_tokens(flags@));
    }
    let apply = |k: usize| -> (out: R)
        requires
            k < ends@.len(),
        ensures
            maps_token(&f, token(r@, flags@, k as int), out),
        {
            let e: usize = ends[k];
            let s: usize = starts[e].start;
            let word: &'a [T] = vstd::slice::slice_subrange(data, s, e);
            proof {
                assert(word@ == token(r@, flags@, k as int));
                assert(is_token(r@, flags@, word@));
            }
            f(word)
        };
    let results: Vec<R> = par_map_range(end_indices.len(), &apply);
    assert(results@.len() == total.count);
    assert(is_mapped_tokens(&f, r@, sep@, results@));
    results
}

/// Splits `r` into its tokens: the maximal runs of elements that are no
/// separators, as slices of `r` in their order.  `is_space` is asked once
/// about each element.
pub fn tokens<'a, T, G>(r: &'a Vec<T>, is_space: G) -> (res: Vec<&'a [T]>) where
    T: Copy + Send + Sync + Default,
    G: Fn(&T) -> bool + Copy + Send + Sync + Sized,

    requires
        r@.len() < usize::MAX,
        asks_all(&is_space, r@),
    ensures
        exists|sep: Seq<bool>| #[trigger] answers(&is_space, r@, sep) && is_tokens(r@, sep, res@),
{
    let to_tokens = |word: &'a [T]| -> (w: &'a [T])
        ensures
            w == word,
        { word };
    let res = map_tokens(r, to_tokens, is_space);
    proof {
        let sep = choose|sep: Seq<bool>|
            #[trigger] answers(&is_space, r@, sep) && is_mapped_tokens(&to_tokens, r@, sep, res@);
        assert forall|k: int| 0 <= k < res@.len() implies (#[trigger] res@[k])@ == token(
            r@,
            sep,
            k,
        ) by {
            assert(maps_token(&to_tokens, token(r@, sep, k), res@[k]));
        }
        assert(is_tokens(r@, sep, res@));
    }
    res
}

/// Mapping the identity over the tokens gives the tokens: where `f` hands
/// back the slice it was given, a result of `map_tokens` is equal, token by
/// token, to a result of `tokens`.
pub proof fn lemma_identity_map_is_tokens<'a, T: 'a, F: Fn(&'a [T]) -> &'a [T]>(
    f: &F,
    r: Seq<T>,
    sep: Seq<bool>,
    mapped: Seq<&'a [T]>,
    split: Seq<&'a [T]>,
)
    requires
        forall|s: &'a [T], w: &'a [T]| #[trigger] f.ensures((s,), w) ==> w@ == s@,
        is_mapped_tokens(f, r, sep, mapped),
        is_tokens(r, sep, split),
    ensures
        mapped.len() == split.len(),
        forall|k: int| 0 <= k < mapped.len() ==> (#[trigger] mapped[k])@ == split[k]@,
{
    assert forall|k: int| 0 <= k < mapped.len() implies (#[trigger] mapped[k])@ == split[k]@ by {
        assert(maps_token(f, token(r, sep, k), mapped[k]));
    }
}

/// Every token is a maximal run of elements that are no separators: it is
/// not empty, holds no separator, and is bounded on each side by a separator
/// or by an end of the sequence.  The tokens follow each other in order
/// without overlap.
pub proof fn lemma_tokens_are_maximal_runs(sep: Seq<bool>, k: int)
    requires
        0 <= k < num_tokens(sep),
    ensures
        0 <= token_start(sep, k) < token_end(sep, k) <= sep.len(),
        forall|i: int| token_start(sep, k) <= i < token_end(sep, k) ==> !sep[i],
        token_start(sep, k) == 0 || sep[token_start(sep, k) - 1],
        token_end(sep, k) == sep.len() || sep[token_end(sep, k)],
        k + 1 < num_tokens(sep) ==> token_end(sep, k) < token_start(sep, k + 1),
{
    let s = start_flags(sep);
    let e = end_flags(sep);
    let a = token_start(sep, k);
    let b = token_end(sep, k);
    lemma_as_many_ends(sep);
    lemma_true_positions_sound(s, k);
    lemma_true_positions_sound(e, k);
    lemma_true_positions_rank(s, k);
    lemma_true_positions_rank(e, k);
    assert(is_start(sep, a));
    assert(is_end(sep, b));
    lemma_starts_and_ends(sep, a);
    lemma_starts_and_ends(sep, b);
    // Before `b`, k ends and k + 1 starts: `a` is one of these starts.
    if b <= a {
        lemma_count_true_prefix(s.take(a), b);
        assert(s.take(a).take(b) =~= s.take(b));
    }
    assert(a < b);
    // No separator between the start and the end.
    assert forall|i: int| a <= i < b implies !sep[i] by {
        lemma_no_separator_inside(sep, k, i);
    }
    if k + 1 < num_tokens(sep) {
        let a2 = token_start(sep, k + 1);
        lemma_true_positions_sound(s, k + 1);
        lemma_true_positions_rank(s, k + 1);
        assert(is_start(sep, a2));
        lemma_starts_and_ends(sep, a2);
        // Before `a2`, k + 1 starts and so k + 1 ends: `b` is one of them.
        if a2 <= b {
            lemma_count_true_prefix(e.take(b), a2);
            assert(e.take(b).take(a2) =~= e.take(a2));
            if a2 == b {
                assert(is_end(sep, b) && is_start(sep, b));
            }
        }
    }
}

/// Between the start and the end of a token there is no separator.
proof fn lemma_no_separator_inside(sep: Seq<bool>, k: int, i: int)
    requires
        0 <= k < num_tokens(sep),
        token_start(sep, k) <= i < token_end(sep, k),
        token_end(sep, k) <= sep.len(),
    ensures
        !sep[i],
    decreases i - token_start(sep, k),
{
    let s = start_flags(sep);
    let e = end_flags(sep);
    let a = token_start(sep, k);
    let b = token_end(sep, k);
    lemma_as_many_ends(sep);
    lemma_true_positions_sound(s, k);
    lemma_true_positions_rank(s, k);
    lemma_true_positions_rank(e, k);
    if i > a {
        lemma_no_separator_inside(sep, k, i - 1);
        // Position `i` is no end, as the `k`-th end lies behind it.
        if sep[i] {
            assert(is_end(sep, i));
            assert(e[i]);
            crate::flags::lemma_true_positions_complete(e, i);
            let q = choose|q: int| 0 <= q < count_true(e) && true_positions(e)[q] == i;
            lemma_true_positions_rank(e, q);
            // The ends before `i` number as many as those before `b`, or more.
            lemma_starts_and_ends(sep, i);
            lemma_starts_and_ends(sep, a);
            lemma_count_true_prefix(s.take(i), a);
            assert(s.take(i).take(a) =~= s.take(a));
            lemma_count_true_prefix(e.take(i), a);
            assert(e.take(i).take(a) =~= e.take(a));
            lemma_count_true_prefix(e.take(b), i);
            assert(e.take(b).take(i) =~= e.take(i));
            lemma_starts_between(sep, a, i);
        }
    }
}

/// From a token's start on, as long as no separator comes, no other token
/// starts.
proof fn lemma_starts_between(sep: Seq<bool>, a: int, i: int)
    requires
        0 <= a < i <= sep.len(),
        is_start(sep, a),
        forall|j: int| a <= j < i ==> !sep[j],
    ensures
        count_true(start_flags(sep).take(i)) == count_true(start_flags(sep).take(a)) + 1,
    decreases i - a,
{
    let s = start_flags(sep);
    assert(s.take(i).drop_last() =~= s.take(i - 1));
    if i - 1 == a {
        assert(s.take(i).last());
    } else {
        lemma_starts_between(sep, a, i - 1);
        assert(!s.take(i).last());
    }
}

} // verus!
