use vstd::prelude::*;

verus! {

/// Default number of elements that one block of parallel work covers.
pub const BLOCK_SIZE: usize = 1024;

/// The number of blocks of `bls` elements that cover `n` elements: `n / bls`,
/// rounded up.
pub open spec fn num_blocks_spec(n: int, bls: int) -> int {
    if n <= 0 {
        0
    } else {
        (n - 1) / bls + 1
    }
}

/// Where block `i` starts: `i * bls`, capped at `n`.  Block `i` is the
/// half-open range from `block_start(i)` to `block_start(i + 1)`.
pub open spec fn block_start(i: int, bls: int, n: int) -> int {
    if i * bls < n {
        i * bls
    } else {
        n
    }
}

/// `num_blocks_spec` is the least count of blocks that covers `n` elements.
pub proof fn lemma_num_blocks_is_ceiling(n: int, bls: int)
    requires
        0 <= n,
        0 < bls,
    ensures
        0 <= num_blocks_spec(n, bls) <= n,
        num_blocks_spec(n, bls) * bls >= n,
        n > 0 ==> (num_blocks_spec(n, bls) - 1) * bls < n,
{
    if n > 0 {
        let q = (n - 1) / bls;
        assert(q * bls <= n - 1 < (q + 1) * bls && 0 <= q <= n - 1) by (nonlinear_arith)
            requires
                q == (n - 1) / bls,
                0 < bls,
                0 <= n - 1,
        ;
    }
}

/// Every block but the one behind the last starts inside the sequence, is
/// not empty, and holds at most `bls` elements.
pub proof fn lemma_block_start(i: int, bls: int, n: int)
    requires
        0 <= n,
        0 < bls,
        0 <= i <= num_blocks_spec(n, bls),
    ensures
        0 <= block_start(i, bls, n) <= n,
        i < num_blocks_spec(n, bls) ==> block_start(i, bls, n) == i * bls && i * bls < n
            && block_start(i, bls, n) < block_start(i + 1, bls, n) <= block_start(i, bls, n) + bls,
        i == num_blocks_spec(n, bls) ==> block_start(i, bls, n) == n,
{
    lemma_num_blocks_is_ceiling(n, bls);
    let nb = num_blocks_spec(n, bls);
    assert(0 <= i * bls) by (nonlinear_arith)
        requires
            0 <= i,
            0 < bls,
    ;
    if i < nb {
        assert(i * bls <= (nb - 1) * bls && (i + 1) * bls == i * bls + bls) by (nonlinear_arith)
            requires
                0 <= i <= nb - 1,
                0 < bls,
        ;
    } else {
        assert(i * bls >= n);
    }
}

/// The block starts never decrease.
pub proof fn lemma_block_start_monotone(i: int, j: int, bls: int, n: int)
    requires
        0 <= n,
        0 < bls,
        0 <= i <= j,
    ensures
        0 <= block_start(i, bls, n) <= block_start(j, bls, n) <= n,
{
    assert(0 <= i * bls <= j * bls) by (nonlinear_arith)
        requires
            0 <= i <= j,
            0 < bls,
    ;
}

/// Position `p` lies in block `p / bls`.
pub proof fn lemma_block_of_position(p: int, bls: int, n: int)
    requires
        0 <= p < n,
        0 < bls,
    ensures
        0 <= p / bls < num_blocks_spec(n, bls),
        block_start(p / bls, bls, n) <= p < block_start(p / bls + 1, bls, n),
        block_start(p / bls, bls, n) == (p / bls) * bls,
{
    let i = p / bls;
    let q = (n - 1) / bls;
    assert(i * bls <= p < (i + 1) * bls && 0 <= i) by (nonlinear_arith)
        requires
            i == p / bls,
            0 < bls,
            0 <= p,
    ;
    assert(i <= q) by (nonlinear_arith)
        requires
            i == p / bls,
            q == (n - 1) / bls,
            0 <= p <= n - 1,
            0 < bls,
    ;
}

/// The number of blocks of `block_size` elements that cover `n` elements.
pub fn num_blocks(n: usize, block_size: usize) -> (b: usize)
    requires
        block_size > 0,
    ensures
        b == num_blocks_spec(n as int, block_size as int),
{
    if n == 0 {
        0
    } else {
        proof {
            lemma_num_blocks_is_ceiling(n as int, block_size as int);
        }
        1 + (n - 1) / block_size
    }
}

/// The bounds of block `i` among the blocks of `bls` elements that cover `n`
/// elements.
pub fn block_bounds(i: usize, bls: usize, n: usize) -> (r: (usize, usize))
    requires
        bls > 0,
        i < num_blocks_spec(n as int, bls as int),
    ensures
        r.0 == block_start(i as int, bls as int, n as int),
        r.1 == block_start(i + 1, bls as int, n as int),
        r.0 < r.1 <= n,
        r.1 - r.0 <= bls,
{
    proof {
        lemma_block_start(i as int, bls as int, n as int);
        assert((i + 1) * bls == i * bls + bls) by (nonlinear_arith);
    }
    let lo: usize = i * bls;
    let hi: usize = if n - lo > bls {
        lo + bls
    } else {
        n
    };
    (lo, hi)
}

/// The starts of all blocks, in order.
pub fn block_starts(bls: usize, n: usize) -> (starts: Vec<usize>)
    requires
        bls > 0,
    ensures
        starts@.len() == num_blocks_spec(n as int, bls as int),
        forall|i: int|
            0 <= i < starts@.len() ==> #[trigger] starts@[i] == block_start(i, bls as int, n as int),
{
    let nb: usize = num_blocks(n, bls);
    let mut starts: Vec<usize> = Vec::with_capacity(nb);
    let mut i: usize = 0;
    while i < nb
        invariant
            bls > 0,
            nb == num_blocks_spec(n as int, bls as int),
            i <= nb,
            starts@.len() == i,
            forall|j: int|
                0 <= j < i ==> #[trigger] starts@[j] == block_start(j, bls as int, n as int),
        decreases nb - i,
    {
        let (lo, _) = block_bounds(i, bls, n);
        starts.push(lo);
        i = i + 1;
    }
    starts
}

} // verus!
