use crate::documents::{doc_hi, doc_lo, headers_from, occurs_at};
use crate::flags::{
    count_true, lemma_count_true_prefix, lemma_true_positions_increasing,
    lemma_true_positions_sound, true_positions,
};
use crate::index_parallel::{all_headers, header_flags, headers_apart};
use vstd::prelude::*;

verus! {

/// Bytes as characters: each byte as the character with its code.
pub open spec fn as_chars(bytes: Seq<u8>) -> Seq<char> {
    bytes.map_values(|b: u8| b as char)
}

/// A header occurs in a text of bytes where it occurs in the text read as
/// characters.
pub proof fn lemma_occurs_as_chars(s: Seq<u8>, h: Seq<u8>, k: int)
    ensures
        occurs_at(as_chars(s), as_chars(h), k) <==> occurs_at(s, h, k),
{
    let sc = as_chars(s);
    let hc = as_chars(h);
    if 0 <= k && k + h.len() <= s.len() {
        let part = s.subrange(k, k + h.len());
        let part_c = sc.subrange(k, k + hc.len());
        if part == h {
            assert(part_c =~= hc) by {
                assert forall|i: int| 0 <= i < hc.len() implies part_c[i] == hc[i] by {
                    assert(part[i] == h[i]);
                }
            }
        }
        if part_c == hc {
            assert(part =~= h) by {
                assert forall|i: int| 0 <= i < h.len() implies part[i] == h[i] by {
                    assert(part_c[i] == hc[i]);
                    assert(part_c[i] == s[k + i] as char);
                    assert(hc[i] == h[i] as char);
                }
            }
        }
    }
}

/// Where no header begins inside another, the search that goes on behind
/// each header it has found finds every header: from a position `p` that
/// lies in no header, it finds the headers from `p` on.
pub proof fn lemma_headers_from_are_all(s: Seq<u8>, h: Seq<u8>, p: int)
    requires
        h.len() > 0,
        headers_apart(s, h),
        0 <= p <= s.len(),
        forall|k: int| 0 <= k < p && occurs_at(s, h, k) ==> k + h.len() <= p,
    ensures
        headers_from(as_chars(s), as_chars(h), p) == all_headers(s, h).skip(
            count_true(header_flags(s, h).take(p)) as int,
        ),
    decreases s.len() - p,
{
    let sc = as_chars(s);
    let hc = as_chars(h);
    let flags = header_flags(s, h);
    let heads = all_headers(s, h);
    let rank = count_true(flags.take(p)) as int;
    lemma_count_true_prefix(flags, p);
    if p >= s.len() {
        assert(flags.take(p) =~= flags);
        assert(heads.skip(rank) =~= Seq::<int>::empty());
    } else {
        lemma_occurs_as_chars(s, h, p);
        lemma_count_true_prefix(flags, p + 1);
        assert(flags.take(p + 1).drop_last() =~= flags.take(p));
        if occurs_at(s, h, p) {
            // `p` is the header of this rank, and the next one lies behind it.
            assert(flags[p]);
            assert(count_true(flags.take(p + 1)) == rank + 1);
            assert(true_positions(flags.take(p + 1))[rank] == p);
            assert(heads[rank] == p);
            let q = p + h.len();
            assert forall|k: int| 0 <= k < q && occurs_at(s, h, k) implies k + h.len() <= q by {
                if k > p {
                    lemma_header_rank(s, h, k);
                    let j = count_true(flags.take(k)) as int;
                    lemma_count_true_prefix(flags.take(k), p + 1);
                    assert(flags.take(k).take(p + 1) =~= flags.take(p + 1));
                    lemma_gap(s, h, rank, j);
                }
            }
            lemma_headers_from_are_all(s, h, q);
            lemma_count_between(s, h, p, rank);
            assert(heads.skip(rank) =~= seq![p] + heads.skip(rank + 1));
        } else {
            assert(!flags[p]);
            assert forall|k: int| 0 <= k < p + 1 && occurs_at(s, h, k) implies k + h.len() <= p
                + 1 by {}
            lemma_headers_from_are_all(s, h, p + 1);
        }
    }
}

/// A position at which the header occurs is the header of the rank that
/// the number of headers before it gives.
proof fn lemma_header_rank(s: Seq<u8>, h: Seq<u8>, k: int)
    requires
        occurs_at(s, h, k),
        h.len() > 0,
    ensures
        0 <= count_true(header_flags(s, h).take(k)) < all_headers(s, h).len(),
        all_headers(s, h)[count_true(header_flags(s, h).take(k)) as int] == k,
{
    let flags = header_flags(s, h);
    assert(flags[k]);
    lemma_count_true_prefix(flags, k + 1);
    assert(flags.take(k + 1).drop_last() =~= flags.take(k));
    let j = count_true(flags.take(k)) as int;
    assert(true_positions(flags.take(k + 1))[j] == k);
}

/// Headers of different ranks lie a header's length apart.
proof fn lemma_gap(s: Seq<u8>, h: Seq<u8>, i: int, j: int)
    requires
        headers_apart(s, h),
        0 <= i < j < all_headers(s, h).len(),
    ensures
        all_headers(s, h)[i] + h.len() <= all_headers(s, h)[j],
    decreases j - i,
{
    if i + 1 < j {
        lemma_gap(s, h, i, j - 1);
        lemma_true_positions_increasing(header_flags(s, h), j - 1, j);
    } else {
        assert(all_headers(s, h)[i] + h.len() <= all_headers(s, h)[i + 1]);
    }
}

/// Behind the header of rank `rank` at `p`, up to the end of that header,
/// there is no other header.
proof fn lemma_count_between(s: Seq<u8>, h: Seq<u8>, p: int, rank: int)
    requires
        h.len() > 0,
        headers_apart(s, h),
        occurs_at(s, h, p),
        rank == count_true(header_flags(s, h).take(p)),
    ensures
        count_true(header_flags(s, h).take(p + h.len())) == rank + 1,
{
    let flags = header_flags(s, h);
    let heads = all_headers(s, h);
    let q = p + h.len();
    lemma_header_rank(s, h, p);
    lemma_count_true_prefix(flags, q);
    let c = count_true(flags.take(q)) as int;
    lemma_count_true_prefix(flags.take(q), p + 1);
    assert(flags.take(q).take(p + 1) =~= flags.take(p + 1));
    lemma_count_true_prefix(flags, p + 1);
    assert(flags.take(p + 1).drop_last() =~= flags.take(p));
    assert(c >= rank + 1);
    if c > rank + 1 {
        // The header of the next rank would lie before `q`.
        lemma_true_positions_sound(flags.take(q), rank + 1);
        assert(heads[rank + 1] == true_positions(flags.take(q))[rank + 1]);
        lemma_gap(s, h, rank, rank + 1);
    }
}

/// The two ways of finding the documents of a text agree: where no header
/// begins inside another, the search that goes on behind each header and the
/// search for all headers find the same headers, and so the same words in
/// the same documents.
pub proof fn lemma_builders_agree(s: Seq<u8>, h: Seq<u8>)
    requires
        h.len() > 0,
        headers_apart(s, h),
    ensures
        headers_from(as_chars(s), as_chars(h), 0) == all_headers(s, h),
        crate::index_serial::docs_words(as_chars(s), as_chars(h))
            == crate::index_parallel::docs_words(s, h),
{
    let sc = as_chars(s);
    let hc = as_chars(h);
    let flags = header_flags(s, h);
    let heads = all_headers(s, h);
    lemma_headers_from_are_all(s, h, 0);
    assert(flags.take(0) =~= Seq::<bool>::empty());
    assert(heads.skip(0) =~= heads);
    let m = h.len() as int;
    let a = crate::index_serial::docs_words(sc, hc);
    let b = crate::index_parallel::docs_words(s, h);
    assert forall|d: int| 0 <= d < heads.len() implies a[d] == b[d] by {
        lemma_true_positions_sound(flags, d);
        if d + 1 < heads.len() {
            lemma_true_positions_sound(flags, d + 1);
            lemma_gap(s, h, d, d + 1);
        }
        let lo = doc_lo(heads, m, d);
        let hi = doc_hi(heads, s.len() as int, d);
        assert(crate::index_serial::doc_letters(sc, heads, m, d)
            =~= crate::index_parallel::doc_letters(s, heads, m, d));
    }
    assert(a =~= b);
}

} // verus!
