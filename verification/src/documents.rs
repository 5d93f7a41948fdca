use crate::tokens::{num_tokens, token};
use vstd::prelude::*;

verus! {

/// `delim` stands in `input` at index `k`.
pub open spec fn occurs_at<T>(input: Seq<T>, delim: Seq<T>, k: int) -> bool {
    0 <= k && k + delim.len() <= input.len() && input.subrange(k, k + delim.len()) == delim
}

/// The positions, from `p` on, at which a document begins: those at which
/// the header `h` occurs, where the search for the next one goes on behind
/// the header that was found.
pub open spec fn headers_from<T>(s: Seq<T>, h: Seq<T>, p: int) -> Seq<int>
    decreases s.len() - p,
{
    if h.len() == 0 || p < 0 || p >= s.len() {
        Seq::empty()
    } else if occurs_at(s, h, p) {
        seq![p] + headers_from(s, h, p + h.len())
    } else {
        headers_from(s, h, p + 1)
    }
}

/// Positions at which the header does not occur hold no beginning.
pub proof fn lemma_headers_skip<T>(s: Seq<T>, h: Seq<T>, p: int, e: int)
    requires
        0 <= p <= e <= s.len(),
        forall|k: int| p <= k < e ==> !occurs_at(s, h, k),
    ensures
        headers_from(s, h, p) == headers_from(s, h, e),
    decreases e - p,
{
    if p < e {
        lemma_headers_skip(s, h, p + 1, e);
        if h.len() == 0 {
            assert(headers_from(s, h, e) =~= Seq::<int>::empty());
        }
    }
}

/// The beginnings from `p` on lie at or behind `p`, the header occurs at
/// each, and each lies behind the header of the one before it.
pub proof fn lemma_headers_occur<T>(s: Seq<T>, h: Seq<T>, p: int, i: int)
    requires
        0 <= p,
        0 <= i < headers_from(s, h, p).len(),
    ensures
        p <= headers_from(s, h, p)[i],
        occurs_at(s, h, headers_from(s, h, p)[i]),
        i > 0 ==> headers_from(s, h, p)[i - 1] + h.len() <= headers_from(s, h, p)[i],
    decreases s.len() - p, i,
{
    if occurs_at(s, h, p) {
        if i > 0 {
            lemma_headers_occur(s, h, p + h.len(), i - 1);
            if i > 1 {
            }
        }
    } else {
        lemma_headers_occur(s, h, p + 1, i);
    }
}

/// Where the text of document `d` begins: behind its header.
pub open spec fn doc_lo(heads: Seq<int>, m: int, d: int) -> int {
    heads[d] + m
}

/// Where the text of document `d` ends: at the next header, or at the end
/// of the whole text.
pub open spec fn doc_hi(heads: Seq<int>, n: int, d: int) -> int {
    if d + 1 < heads.len() {
        heads[d + 1]
    } else {
        n
    }
}

/// A byte as a letter of a word: a capital letter as its small letter, a
/// small letter as itself, and anything else as 0, which separates words.
pub open spec fn lower_letter(c: int) -> u8 {
    if 65 <= c <= 90 {
        (c + 32) as u8
    } else if 97 <= c <= 122 {
        c as u8
    } else {
        0
    }
}

/// The words of a text of letters and separators: its tokens, in order.
pub open spec fn words_of(letters: Seq<u8>) -> Seq<Seq<u8>> {
    let sep = letters.map_values(|b: u8| b == 0);
    Seq::new(num_tokens(sep), |k: int| token(letters, sep, k))
}

/// The pairs of a word and the number of a document that holds it.
pub open spec fn pairs_of(docs: Seq<Seq<Seq<u8>>>) -> Set<(Seq<u8>, int)> {
    Set::new(
        |p: (Seq<u8>, int)|
            0 <= p.1 < docs.len() && exists|k: int|
                0 <= k < docs[p.1].len() && #[trigger] docs[p.1][k] == p.0,
    )
}

/// A document without words adds no pair.
pub proof fn lemma_pairs_of_empty_doc(docs: Seq<Seq<Seq<u8>>>)
    ensures
        pairs_of(docs.push(Seq::empty())) == pairs_of(docs),
{
    let more = docs.push(Seq::empty());
    assert forall|p: (Seq<u8>, int)| pairs_of(more).contains(p) <==> pairs_of(docs).contains(
        p,
    ) by {
        if pairs_of(more).contains(p) {
            assert(p.1 < docs.len());
            let k = choose|k: int| 0 <= k < more[p.1].len() && #[trigger] more[p.1][k] == p.0;
            assert(docs[p.1][k] == p.0);
        }
        if pairs_of(docs).contains(p) {
            let k = choose|k: int| 0 <= k < docs[p.1].len() && #[trigger] docs[p.1][k] == p.0;
            assert(more[p.1][k] == p.0);
        }
    }
    assert(pairs_of(more) =~= pairs_of(docs));
}

/// One more word in the last document adds its pair.
pub proof fn lemma_pairs_of_next_word(docs: Seq<Seq<Seq<u8>>>, words: Seq<Seq<u8>>, w: Seq<u8>)
    ensures
        pairs_of(docs.push(words.push(w))) == pairs_of(docs.push(words)).insert(
            (w, docs.len() as int),
        ),
{
    let d = docs.len() as int;
    let less = docs.push(words);
    let more = docs.push(words.push(w));
    assert forall|p: (Seq<u8>, int)| pairs_of(more).contains(p) <==> pairs_of(less).insert(
        (w, d),
    ).contains(p) by {
        if pairs_of(more).contains(p) {
            let k = choose|k: int| 0 <= k < more[p.1].len() && #[trigger] more[p.1][k] == p.0;
            if p.1 == d && k == words.len() {
            } else {
                assert(less[p.1][k] == p.0);
            }
        }
        if pairs_of(less).contains(p) {
            let k = choose|k: int| 0 <= k < less[p.1].len() && #[trigger] less[p.1][k] == p.0;
            assert(more[p.1][k] == p.0);
        }
        if p == (w, d) {
            assert(more[d][words.len() as int] == w);
        }
    }
    assert(pairs_of(more) =~= pairs_of(less).insert((w, d)));
}

} // verus!
