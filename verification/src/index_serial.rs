use crate::documents::{
    doc_hi, doc_lo, headers_from, lemma_headers_occur, lemma_headers_skip,
    lemma_pairs_of_empty_doc, lemma_pairs_of_next_word, lower_letter, occurs_at, pairs_of,
    words_of,
};
use crate::postings::{
    add_posting, content, index_text, index_wf, lemma_index_unique, write_index, Posting,
};
use crate::primitives::tokens;
use crate::tokens::{answers, is_tokens};
use vstd::prelude::*;

verus! {

/// Finds `delim` in `input`.
///
/// An empty `delim` is found at 0.  A `delim` longer than `input` is not
/// looked for.  Otherwise the result is the first index at which `delim`
/// occurs, or the length of `input` where it does not occur.
pub fn search(input: &[char], delim: &[char]) -> (r: Option<usize>)
    ensures
        r is None <==> delim@.len() > input@.len(),
        r is Some ==> found_at(input@, delim@, r.unwrap() as int),
{
    let m: usize = delim.len();
    let n: usize = input.len();
    if m == 0 {
        proof {
            assert(input@.subrange(0, 0) =~= delim@);
        }
        return Some(0);
    }
    if m > n {
        return None;
    }
    let mut i: usize = 0;
    while i <= n - m
        invariant
            0 < m <= n,
            m == delim@.len(),
            n == input@.len(),
            i <= n - m + 1,
            forall|k: int| 0 <= k < i ==> !occurs_at(input@, delim@, k),
        decreases n - m + 1 - i,
    {
        let mut j: usize = 0;
        while j < m && input[i + j] == delim[j]
            invariant
                i + m <= n == input@.len(),
                m == delim@.len(),
                j <= m,
                forall|q: int| 0 <= q < j ==> input@[i + q] == delim@[q],
            decreases m - j,
        {
            j = j + 1;
        }
        if j == m {
            proof {
                assert(input@.subrange(i as int, i + m) =~= delim@);
            }
            return Some(i);
        }
        proof {
            assert(input@.subrange(i as int, i + m)[j as int] == input@[i + j]);
        }
        i = i + 1;
    }
    proof {
        assert forall|k: int| !occurs_at(input@, delim@, k) by {
            if 0 <= k && k + m <= n {
                assert(k < i);
            }
        }
    }
    Some(n)
}

/// `i` is what a search for `delim` in `input` finds: the first index at
/// which `delim` occurs, or the length of `input` where it occurs nowhere.
pub open spec fn found_at<T>(input: Seq<T>, delim: Seq<T>, i: int) -> bool {
    &&& forall|k: int| 0 <= k < i ==> !occurs_at(input, delim, k)
    &&& occurs_at(input, delim, i) || (i == input.len() && forall|k: int|
        !occurs_at(input, delim, k))
}

/// The text of document `d` as letters and separators.
pub open spec fn doc_letters(s: Seq<char>, heads: Seq<int>, m: int, d: int) -> Seq<u8> {
    s.subrange(doc_lo(heads, m, d), doc_hi(heads, s.len() as int, d)).map_values(
        |c: char| lower_letter(c as int),
    )
}

/// The words of each document of the text `s` with the header `h`.
pub open spec fn docs_words(s: Seq<char>, h: Seq<char>) -> Seq<Seq<Seq<u8>>> {
    let heads = headers_from(s, h, 0);
    Seq::new(heads.len(), |d: int| words_of(doc_letters(s, heads, h.len() as int, d)))
}

/// The text can be indexed: the header is not empty and not longer than the
/// text, and behind each header that begins a document there is room for
/// another header.  A text without elements can be indexed with an empty
/// header too.
pub open spec fn can_index(s: Seq<char>, h: Seq<char>) -> bool {
    ||| s.len() == 0 && h.len() == 0
    ||| {
        &&& 0 < h.len() <= s.len()
        &&& forall|i: int|
            0 <= i < headers_from(s, h, 0).len() ==> #[trigger] headers_from(s, h, 0)[i] + 2
                * h.len() <= s.len()
    }
}

/// `text` is an index, as text, of the pairs of word and document in
/// `pairs`: one line for each word, in the order of the words, with the
/// numbers of the documents that hold the word in increasing order.
pub open spec fn is_index_text(pairs: Set<(Seq<u8>, int)>, text: Seq<char>) -> bool {
    exists|entries: Seq<Posting>|
        #[trigger] index_wf(entries, usize::MAX as int) && content(entries) == pairs && text
            == index_text(entries)
}

/// The pairs of word and document decide the text of their index.
pub proof fn lemma_index_text_unique(pairs: Set<(Seq<u8>, int)>, a: Seq<char>, b: Seq<char>)
    requires
        is_index_text(pairs, a),
        is_index_text(pairs, b),
    ensures
        a == b,
{
    let ea = choose|entries: Seq<Posting>| #[trigger]
        index_wf(entries, usize::MAX as int) && content(entries) == pairs && a == index_text(
            entries,
        );
    let eb = choose|entries: Seq<Posting>| #[trigger]
        index_wf(entries, usize::MAX as int) && content(entries) == pairs && b == index_text(
            entries,
        );
    lemma_index_unique(ea, eb, usize::MAX as int);
}

/// The characters of a string.
fn chars_of(text: &str) -> (v: Vec<char>)
    ensures
        v@ == text@,
{
    let mut v: Vec<char> = Vec::new();
    for c in it: text.chars()
        invariant
            it.seq() == text@,
            v@ == text@.take(it.index() as int),
    {
        v.push(c);
        proof {
            let i = it.index() as int;
            assert(text@.take(i + 1) =~= text@.take(i).push(text@[i]));
        }
    }
    proof {
        assert(text@.take(text@.len() as int) =~= text@);
    }
    v
}

/// The code of a character.
fn code_of(c: char) -> (code: u32)
    ensures
        code == c as int,
{
    c as u32
}

/// The text `lo..hi` of `s` as letters and separators.
fn letters_of(s: &[char], lo: usize, hi: usize) -> (v: Vec<u8>)
    requires
        lo <= hi <= s@.len(),
    ensures
        v@ == s@.subrange(lo as int, hi as int).map_values(|c: char| lower_letter(c as int)),
{
    let ghost want = s@.subrange(lo as int, hi as int).map_values(
        |c: char| lower_letter(c as int),
    );
    let mut v: Vec<u8> = Vec::with_capacity(hi - lo);
    let mut i: usize = lo;
    while i < hi
        invariant
            lo <= i <= hi <= s@.len(),
            want == s@.subrange(lo as int, hi as int).map_values(|c: char| lower_letter(c as int)),
            v@ == want.take(i - lo),
        decreases hi - i,
    {
        let code: u32 = code_of(s[i]);
        let b: u8 = if 65 <= code && code <= 90 {
            (code + 32) as u8
        } else if 97 <= code && code <= 122 {
            code as u8
        } else {
            0
        };
        v.push(b);
        proof {
            assert(want.take(i + 1 - lo) =~= want.take(i - lo).push(want[i - lo]));
        }
        i = i + 1;
    }
    proof {
        assert(want.take(hi - lo) =~= want);
    }
    v
}

/// An occurrence behind `from` is an occurrence in the rest of the text.
proof fn lemma_occurs_in_rest(s: Seq<char>, h: Seq<char>, from: int, k: int)
    requires
        0 <= from <= s.len(),
        0 <= k,
    ensures
        occurs_at(s.subrange(from, s.len() as int), h, k) <==> occurs_at(s, h, from + k),
{
    let rest = s.subrange(from, s.len() as int);
    if k + h.len() <= rest.len() {
        assert(rest.subrange(k, k + h.len()) =~= s.subrange(from + k, from + k + h.len()));
    }
}

/// Whether `build_index` can index the text `s` with the header
/// `doc_start`.
pub fn can_build_index(s: &Vec<char>, doc_start: &str) -> (ok: bool)
    ensures
        ok == can_index(s@, doc_start@),
{
    let n: usize = s.len();
    let header: Vec<char> = chars_of(doc_start);
    let m: usize = header.len();
    let ghost h = header@;
    let ghost heads = headers_from(s@, h, 0);
    if m == 0 {
        proof {
            assert(heads =~= Seq::<int>::empty());
        }
        return n == 0;
    }
    if m > n {
        return false;
    }
    let first: Option<usize> = search(s.as_slice(), header.as_slice());
    let mut doc_begin: usize = first.unwrap();
    let ghost mut d: int = 0;
    proof {
        lemma_headers_skip(s@, h, 0, doc_begin as int);
        assert(heads.skip(0) =~= heads);
    }
    while doc_begin != n
        invariant
            n == s@.len(),
            0 < m == h.len() <= n,
            h == header@,
            h == doc_start@,
            heads == headers_from(s@, h, 0),
            doc_begin <= n,
            0 <= d <= heads.len(),
            heads.skip(d) == headers_from(s@, h, doc_begin as int),
            doc_begin < n ==> occurs_at(s@, h, doc_begin as int),
            forall|i: int| 0 <= i < d ==> #[trigger] heads[i] + 2 * m <= n,
        decreases n - doc_begin,
    {
        proof {
            assert(headers_from(s@, h, doc_begin as int) =~= seq![doc_begin as int] + headers_from(
                s@,
                h,
                doc_begin + m,
            ));
            assert(heads.skip(d)[0] == doc_begin);
            assert(heads[d] == doc_begin);
        }
        if n - doc_begin - m < m {
            proof {
                assert(0 <= d < heads.len());
                assert(!(headers_from(s@, h, 0)[d] + 2 * h.len() <= s@.len()));
            }
            return false;
        }
        let rest: &[char] = vstd::slice::slice_subrange(s.as_slice(), doc_begin + m, n);
        let next: Option<usize> = search(rest, header.as_slice());
        let doc_end: usize = next.unwrap() + doc_begin + m;
        proof {
            let r = next.unwrap() as int;
            assert forall|k: int| doc_begin + m <= k < doc_end implies !occurs_at(s@, h, k) by {
                lemma_occurs_in_rest(s@, h, doc_begin + m, k - doc_begin - m);
            }
            lemma_occurs_in_rest(s@, h, doc_begin + m, r);
            lemma_headers_skip(s@, h, doc_begin + m, doc_end as int);
            assert(heads.skip(d + 1) =~= heads.skip(d).skip(1));
            d = d + 1;
        }
        doc_begin = doc_end;
    }
    proof {
        assert(headers_from(s@, h, n as int) =~= Seq::<int>::empty());
        assert(heads.skip(d).len() == 0);
    }
    true
}

/// Builds the inverted index of the documents in `s` and appends it, as
/// text, to `result`.
///
/// A document begins with the header `doc_start` and goes on to the next
/// header or to the end of `s`.  Its words are the runs of letters in it, in
/// small letters.  The index has a line for each word, in the order of the
/// words, that names the documents holding the word by their numbers, in
/// increasing order.
pub fn build_index(s: &Vec<char>, doc_start: &str, result: &mut Vec<char>)
    requires
        can_index(s@, doc_start@),
    ensures
        final(result)@.len() >= old(result)@.len(),
        final(result)@.take(old(result)@.len() as int) == old(result)@,
        is_index_text(
            pairs_of(docs_words(s@, doc_start@)),
            final(result)@.skip(old(result)@.len() as int),
        ),
{
    let n: usize = s.len();
    let header: Vec<char> = chars_of(doc_start);
    let m: usize = header.len();
    let ghost h = header@;
    let ghost heads = headers_from(s@, h, 0);
    let ghost all = docs_words(s@, h);
    let mut entries: Vec<Posting> = Vec::new();
    let first: Option<usize> = search(s.as_slice(), header.as_slice());
    let mut doc_begin: usize = first.unwrap();
    let mut doc_id: usize = 0;
    proof {
        if m > 0 {
            lemma_headers_skip(s@, h, 0, doc_begin as int);
        } else {
            assert(heads =~= Seq::<int>::empty());
        }
        assert(heads.skip(0) =~= heads);
        assert(all.take(0) =~= Seq::<Seq<Seq<u8>>>::empty());
        assert(pairs_of(all.take(0)) =~= Set::<(Seq<u8>, int)>::empty());
        assert(content(entries@) =~= Set::<(Seq<u8>, int)>::empty());
    }
    while doc_begin != n
        invariant
            n == s@.len(),
            m == h.len(),
            h == header@,
            heads == headers_from(s@, h, 0),
            all == docs_words(s@, h),
            can_index(s@, h),
            doc_begin <= n,
            doc_id <= heads.len(),
            doc_id <= doc_begin,
            heads.skip(doc_id as int) == headers_from(s@, h, doc_begin as int),
            doc_begin < n ==> occurs_at(s@, h, doc_begin as int),
            index_wf(entries@, doc_id as int),
            content(entries@) == pairs_of(all.take(doc_id as int)),
        decreases n - doc_begin,
    {
        let ghost d = doc_id as int;
        proof {
            assert(headers_from(s@, h, doc_begin as int) =~= seq![doc_begin as int] + headers_from(
                s@,
                h,
                doc_begin + m,
            ));
            assert(heads.skip(d)[0] == doc_begin);
            assert(heads[d] == doc_begin);
        }
        let rest: &[char] = vstd::slice::slice_subrange(s.as_slice(), doc_begin + m, n);
        let next: Option<usize> = search(rest, header.as_slice());
        let doc_end: usize = next.unwrap() + doc_begin + m;
        proof {
            let r = next.unwrap() as int;
            assert forall|k: int| doc_begin + m <= k < doc_end implies !occurs_at(s@, h, k) by {
                lemma_occurs_in_rest(s@, h, doc_begin + m, k - doc_begin - m);
            }
            lemma_occurs_in_rest(s@, h, doc_begin + m, r);
            lemma_headers_skip(s@, h, doc_begin + m, doc_end as int);
            assert(heads.skip(d + 1) =~= heads.skip(d).skip(1));
            assert(heads.skip(d + 1) =~= headers_from(s@, h, doc_end as int));
            if doc_end < n {
                assert(headers_from(s@, h, doc_end as int) =~= seq![doc_end as int] + headers_from(
                    s@,
                    h,
                    doc_end + m,
                ));
                assert(heads.skip(d + 1)[0] == doc_end);
            } else {
                assert(headers_from(s@, h, doc_end as int) =~= Seq::<int>::empty());
                assert(heads.skip(d + 1).len() == 0);
            }
            assert(doc_hi(heads, n as int, d) == doc_end);
            assert(doc_lo(heads, m as int, d) == doc_begin + m);
        }
        let letters: Vec<u8> = letters_of(s.as_slice(), doc_begin + m, doc_end);
        let blank = |c: &u8| -> (b: bool)
            ensures
                b == (*c == 0),
            { *c == 0 };
        let words: Vec<&[u8]> = tokens(&letters, blank);
        let ghost flags = letters@.map_values(|b: u8| b == 0);
        let ghost done = all.take(d);
        proof {
            let sep = choose|sep: Seq<bool>| #[trigger]
                answers(&blank, letters@, sep) && is_tokens(letters@, sep, words@);
            assert(sep =~= flags);
            assert(letters@ == doc_letters(s@, heads, m as int, d));
            assert(d < heads.len());
            assert(all[d] == words_of(letters@));
            lemma_pairs_of_empty_doc(done);
            assert(words_of(letters@).take(0) =~= Seq::<Seq<u8>>::empty());
            assert(done.len() == d);
        }
        let count: usize = words.len();
        let mut t: usize = 0;
        while t < count
            invariant
                t <= count == words@.len(),
                d == doc_id,
                done.len() == d,
                flags == letters@.map_values(|b: u8| b == 0),
                is_tokens(letters@, flags, words@),
                index_wf(entries@, d),
                content(entries@) == pairs_of(
                    done.push(words_of(letters@).take(t as int)),
                ),
            decreases count - t,
        {
            add_posting(&mut entries, words[t], doc_id);
            proof {
                let ws = words_of(letters@);
                assert(ws.take(t + 1) =~= ws.take(t as int).push(ws[t as int]));
                assert(ws[t as int] == words@[t as int]@);
                lemma_pairs_of_next_word(done, ws.take(t as int), ws[t as int]);
                assert(done.len() == d);
            }
            t = t + 1;
        }
        proof {
            let ws = words_of(letters@);
            assert(ws.take(count as int) =~= ws);
            assert(done.push(ws) =~= all.take(d + 1));
            lemma_headers_occur(s@, h, 0, d);
        }
        doc_begin = doc_end;
        doc_id = doc_id + 1;
    }
    let ghost before = result@;
    write_index(&entries, result);
    proof {
        assert(heads.skip(doc_id as int).len() == 0);
        assert(all.take(doc_id as int) =~= all);
        assert(result@.take(before.len() as int) =~= before);
        assert(result@.skip(before.len() as int) =~= index_text(entries@));
        assert(index_wf(entries@, usize::MAX as int));
    }
}

} // verus!
