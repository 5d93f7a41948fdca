use vstd::arithmetic::div_mod::{
    lemma_add_mod_noop, lemma_mod_bound, lemma_mul_mod_noop_left, lemma_small_mod,
};
use crate::documents::{
    doc_hi, doc_lo, lemma_pairs_of_empty_doc, lemma_pairs_of_next_word, lower_letter, occurs_at,
    pairs_of, words_of,
};
use crate::flags::{lemma_true_positions_increasing, lemma_true_positions_sound, true_positions};
use crate::index_serial::is_index_text;
use crate::par::{par_filter_range, par_map_range};
use crate::postings::{add_posting, content, index_text, index_wf, write_index, Posting};
use crate::primitives::tokens;
use crate::tokens::{answers, is_tokens};
use vstd::prelude::*;
use vstd::string::StringSliceAdditionalSpecFns;

verus! {

/// The djb2 hash of a sequence of character codes, as an unbounded number:
/// it starts at 5381, and each code multiplies it by 33 and is added.
pub open spec fn djb2(codes: Seq<int>) -> int
    decreases codes.len(),
{
    if codes.len() == 0 {
        5381
    } else {
        djb2(codes.drop_last()) * 33 + codes.last()
    }
}

/// What a machine word keeps of an unbounded hash: its remainder modulo the
/// number of values of `usize`.
pub open spec fn word(h: int) -> int {
    h % (usize::MAX + 1)
}

/// One step of the hash on machine words agrees with the step on unbounded
/// numbers.
proof fn lemma_djb2_step(prev: int, h: usize, c: usize)
    requires
        h == word(prev),
    ensures
        vstd::wrapping::usize_specs::wrapping_add(
            vstd::wrapping::usize_specs::wrapping_mul(h, 33),
            c,
        ) == word(prev * 33 + c),
{
    let m: int = usize::MAX + 1;
    let x = vstd::wrapping::usize_specs::wrapping_mul(h, 33);
    assert(x as int == (h * 33) % m);
    lemma_mul_mod_noop_left(prev, 33, m);
    assert(x as int == (prev * 33) % m);
    lemma_add_mod_noop(prev * 33, c as int, m);
    lemma_small_mod(c as nat, m as nat);
    lemma_mod_bound(prev * 33, m);
    let y = x + c;
    if y > usize::MAX {
        vstd::arithmetic::div_mod::lemma_mod_sub_multiples_vanish(y, m);
        lemma_small_mod((y - m) as nat, m as nat);
    } else {
        lemma_small_mod(y as nat, m as nat);
    }
}

/// The djb2 hash of a byte string, in machine words.
pub fn djb2_hash_char(input: &[u8]) -> (hash: usize)
    ensures
        hash == word(djb2(input@.map_values(|b: u8| b as int))),
{
    let ghost codes = input@.map_values(|b: u8| b as int);
    let mut hash: usize = 5381;
    let n: usize = input.len();
    let mut i: usize = 0;
    proof {
        assert(codes.take(0) =~= Seq::<int>::empty());
        lemma_small_mod(5381, (usize::MAX + 1) as nat);
    }
    while i < n
        invariant
            i <= n == input@.len(),
            codes == input@.map_values(|b: u8| b as int),
            hash == word(djb2(codes.take(i as int))),
        decreases n - i,
    {
        let c: usize = input[i] as usize;
        proof {
            assert(codes.take(i + 1).drop_last() =~= codes.take(i as int));
            lemma_djb2_step(djb2(codes.take(i as int)), hash, c);
        }
        hash = hash.wrapping_mul(33).wrapping_add(c);
        i = i + 1;
    }
    proof {
        assert(codes.take(n as int) =~= codes);
    }
    hash
}

/// The code point of a character.
fn code_point(c: char) -> (code: usize)
    ensures
        code == c as int,
{
    let point: u32 = c as u32;
    point as usize
}

/// The djb2 hash of a string, over the code points of its characters, in
/// machine words.
pub fn djb2_hash_str(input: &str) -> (hash: usize)
    ensures
        hash == word(djb2(input@.map_values(|c: char| c as int))),
{
    let ghost codes = input@.map_values(|c: char| c as int);
    let mut hash: usize = 5381;
    proof {
        assert(codes.take(0) =~= Seq::<int>::empty());
        lemma_small_mod(5381, (usize::MAX + 1) as nat);
    }
    for c in it: input.chars()
        invariant
            it.seq() == input@,
            codes == input@.map_values(|c: char| c as int),
            hash == word(djb2(codes.take(it.index() as int))),
    {
        let code: usize = code_point(c);
        proof {
            let i = it.index() as int;
            assert(c == input@[i]);
            assert(codes.take(i + 1).last() == code);
            assert(codes.take(i + 1).drop_last() =~= codes.take(i));
            lemma_djb2_step(djb2(codes.take(i)), hash, code);
        }
        hash = hash.wrapping_mul(33).wrapping_add(code);
    }
    proof {
        assert(codes.take(codes.len() as int) =~= codes);
    }
    hash
}

/// For each position of `s`, whether the header `h` occurs there.
pub open spec fn header_flags(s: Seq<u8>, h: Seq<u8>) -> Seq<bool> {
    Seq::new(s.len(), |i: int| occurs_at(s, h, i))
}

/// The positions at which a document begins: all those at which the header
/// occurs.
pub open spec fn all_headers(s: Seq<u8>, h: Seq<u8>) -> Seq<int> {
    true_positions(header_flags(s, h))
}

/// No header begins inside another: each one ends before the next begins.
pub open spec fn headers_apart(s: Seq<u8>, h: Seq<u8>) -> bool {
    forall|d: int|
        0 <= d && d + 1 < all_headers(s, h).len() ==> #[trigger] all_headers(s, h)[d] + h.len()
            <= all_headers(s, h)[d + 1]
}

/// The text of document `d` as letters and separators.
pub open spec fn doc_letters(s: Seq<u8>, heads: Seq<int>, m: int, d: int) -> Seq<u8> {
    s.subrange(doc_lo(heads, m, d), doc_hi(heads, s.len() as int, d)).map_values(
        |b: u8| lower_letter(b as int),
    )
}

/// The words of each document of the text `s` with the header `h`.
pub open spec fn docs_words(s: Seq<u8>, h: Seq<u8>) -> Seq<Seq<Seq<u8>>> {
    let heads = all_headers(s, h);
    Seq::new(heads.len(), |d: int| words_of(doc_letters(s, heads, h.len() as int, d)))
}

/// The words in `words`, as sequences.
pub open spec fn word_views(words: Seq<Vec<u8>>) -> Seq<Seq<u8>> {
    words.map_values(|w: Vec<u8>| w@)
}

/// Whether `h` occurs in `s` at position `i`.
fn header_at(s: &[u8], h: &[u8], i: usize) -> (b: bool)
    ensures
        b == occurs_at(s@, h@, i as int),
{
    let n: usize = s.len();
    let m: usize = h.len();
    if i > n || m > n - i {
        return false;
    }
    let mut j: usize = 0;
    while j < m
        invariant
            i + m <= n == s@.len(),
            m == h@.len(),
            j <= m,
            forall|q: int| 0 <= q < j ==> s@[i + q] == h@[q],
        decreases m - j,
    {
        if s[i + j] != h[j] {
            proof {
                assert(s@.subrange(i as int, i + m)[j as int] == s@[i + j]);
            }
            return false;
        }
        j = j + 1;
    }
    proof {
        assert(s@.subrange(i as int, i + m) =~= h@);
    }
    true
}

/// The text `lo..hi` of `s` as letters and separators, made in parallel.
fn letters_of(s: &[u8], lo: usize, hi: usize) -> (v: Vec<u8>)
    requires
        lo <= hi <= s@.len(),
    ensures
        v@ == s@.subrange(lo as int, hi as int).map_values(|b: u8| lower_letter(b as int)),
{
    let letter = |i: usize| -> (b: u8)
        requires
            i < hi - lo,
        ensures
            b == lower_letter(s@[lo + i] as int),
        {
            let c: u8 = s[lo + i];
            if 65 <= c && c <= 90 {
                c + 32
            } else if 97 <= c && c <= 122 {
                c
            } else {
                0
            }
        };
    let v: Vec<u8> = par_map_range(hi - lo, &letter);
    proof {
        assert(v@ =~= s@.subrange(lo as int, hi as int).map_values(
            |b: u8| lower_letter(b as int),
        ));
    }
    v
}

/// A copy of a byte string.
fn copy_of(word: &[u8]) -> (v: Vec<u8>)
    ensures
        v@ == word@,
{
    vstd::slice::slice_to_vec(word)
}

/// The words of the text `lo..hi` of `s`, in order.
fn words_in(s: &[u8], lo: usize, hi: usize) -> (words: Vec<Vec<u8>>)
    requires
        lo <= hi <= s@.len() < usize::MAX,
    ensures
        word_views(words@) == words_of(
            s@.subrange(lo as int, hi as int).map_values(|b: u8| lower_letter(b as int)),
        ),
{
    let letters: Vec<u8> = letters_of(s, lo, hi);
    let blank = |c: &u8| -> (b: bool)
        ensures
            b == (*c == 0),
        { *c == 0 };
    let found: Vec<&[u8]> = tokens(&letters, blank);
    let ghost flags = letters@.map_values(|b: u8| b == 0);
    proof {
        let sep = choose|sep: Seq<bool>| #[trigger]
            answers(&blank, letters@, sep) && is_tokens(letters@, sep, found@);
        assert(sep =~= flags);
    }
    let count: usize = found.len();
    let mut words: Vec<Vec<u8>> = Vec::with_capacity(count);
    let mut k: usize = 0;
    while k < count
        invariant
            k <= count == found@.len(),
            words@.len() == k,
            forall|q: int| 0 <= q < k ==> (#[trigger] words@[q])@ == found@[q]@,
        decreases count - k,
    {
        words.push(copy_of(found[k]));
        k = k + 1;
    }
    proof {
        assert(word_views(words@) =~= words_of(letters@));
    }
    words
}

/// The positions at which the header `h` occurs in `s`, in increasing
/// order, found by a parallel filter.
pub fn find_headers(s: &[u8], h: &[u8]) -> (starts: Vec<usize>)
    ensures
        starts@.map_values(|x: usize| x as int) == all_headers(s@, h@),
{
    let n: usize = s.len();
    let is_header = |i: usize| -> (b: bool)
        ensures
            b == occurs_at(s@, h@, i as int),
        { header_at(s, h, i) };
    let starts: Vec<usize> = par_filter_range(n, &is_header);
    proof {
        let found = choose|found: Seq<bool>|
            {
                &&& found.len() == n
                &&& forall|i: int|
                    0 <= i < n ==> is_header.ensures((i as usize,), #[trigger] found[i])
                &&& starts@.map_values(|x: usize| x as int) == true_positions(found)
            };
        assert(found =~= header_flags(s@, h@));
    }
    starts
}

/// Whether no header of `s` begins inside another, which `build_index`
/// asks for.
pub fn headers_are_apart(s: &[u8], doc_start: &str) -> (ok: bool)
    ensures
        ok == headers_apart(s@, doc_start.spec_bytes()),
{
    let header: &[u8] = doc_start.as_bytes();
    let m: usize = header.len();
    let starts: Vec<usize> = find_headers(s, header);
    let ghost heads = all_headers(s@, header@);
    let count: usize = starts.len();
    let mut d: usize = 1;
    while d < count
        invariant
            1 <= d,
            count == starts@.len() == heads.len(),
            m == header@.len(),
            header@ == doc_start.spec_bytes(),
            heads == all_headers(s@, header@),
            starts@.map_values(|x: usize| x as int) == heads,
            forall|q: int| 0 <= q && q + 1 < d ==> #[trigger] heads[q] + m <= heads[q + 1],
        decreases count - d,
    {
        proof {
            assert(starts@.map_values(|x: usize| x as int)[d - 1] == starts@[d - 1]);
            assert(starts@.map_values(|x: usize| x as int)[d as int] == starts@[d as int]);
            lemma_true_positions_increasing(header_flags(s@, header@), d - 1, d as int);
        }
        if starts[d] - starts[d - 1] < m {
            proof {
                let q = d - 1;
                assert(!(all_headers(s@, header@)[q] + m <= all_headers(s@, header@)[q + 1]));
            }
            return false;
        }
        d = d + 1;
    }
    true
}

/// Builds the inverted index of the documents in `s` and puts it, as text,
/// into `result`.
///
/// A document begins wherever the header `doc_start` occurs and goes on to
/// the next header or to the end of `s`.  Its words are the runs of letters
/// in it, in small letters.  The index has a line for each word, in the
/// order of the words, that names the documents holding the word by their
/// numbers, in increasing order.
///
/// The documents are found and split into words in parallel.
pub fn build_index(s: &[u8], doc_start: &str, result: &mut Vec<char>)
    requires
        s@.len() < usize::MAX,
        headers_apart(s@, doc_start.spec_bytes()),
    ensures
        is_index_text(pairs_of(docs_words(s@, doc_start.spec_bytes())), final(result)@),
{
    let n: usize = s.len();
    let header: &[u8] = doc_start.as_bytes();
    let m: usize = header.len();
    let ghost h = header@;
    let ghost heads = all_headers(s@, h);
    let ghost all = docs_words(s@, h);
    let starts: Vec<usize> = find_headers(s, header);
    let num_docs: usize = starts.len();
    let begins: &[usize] = starts.as_slice();
    proof {
        assert forall|d: int| 0 <= d < num_docs implies (#[trigger] begins@[d]) == heads[d]
            && heads[d] + m <= doc_hi(heads, n as int, d) <= n by {
            assert(begins@.map_values(|x: usize| x as int)[d] == begins@[d]);
            lemma_true_positions_sound(header_flags(s@, h), d);
            if d + 1 < heads.len() {
                lemma_true_positions_sound(header_flags(s@, h), d + 1);
            }
        }
    }
    let split_doc = |d: usize| -> (words: Vec<Vec<u8>>)
        requires
            d < num_docs,
        ensures
            word_views(words@) == words_of(
                doc_letters(s@, all_headers(s@, header@), m as int, d as int),
            ),
        {
            let lo: usize = begins[d] + m;
            let hi: usize = if d + 1 < num_docs {
                begins[d + 1]
            } else {
                n
            };
            words_in(s, lo, hi)
        };
    let docs: Vec<Vec<Vec<u8>>> = par_map_range(num_docs, &split_doc);
    let mut entries: Vec<Posting> = Vec::new();
    let mut d: usize = 0;
    proof {
        assert(all.take(0) =~= Seq::<Seq<Seq<u8>>>::empty());
        assert(pairs_of(all.take(0)) =~= Set::<(Seq<u8>, int)>::empty());
        assert(content(entries@) =~= Set::<(Seq<u8>, int)>::empty());
    }
    while d < num_docs
        invariant
            d <= num_docs == docs@.len(),
            num_docs == all.len(),
            all == docs_words(s@, h),
            h == header@,
            forall|q: int| 0 <= q < num_docs ==> word_views((#[trigger] docs@[q])@) == all[q],
            index_wf(entries@, d as int),
            content(entries@) == pairs_of(all.take(d as int)),
        decreases num_docs - d,
    {
        let words: &Vec<Vec<u8>> = &docs[d];
        let count: usize = words.len();
        let ghost done = all.take(d as int);
        let ghost ws = all[d as int];
        proof {
            assert(word_views(words@) == ws);
            lemma_pairs_of_empty_doc(done);
            assert(ws.take(0) =~= Seq::<Seq<u8>>::empty());
        }
        let mut t: usize = 0;
        while t < count
            invariant
                t <= count == words@.len(),
                word_views(words@) == ws,
                done.len() == d,
                index_wf(entries@, d as int),
                content(entries@) == pairs_of(done.push(ws.take(t as int))),
            decreases count - t,
        {
            add_posting(&mut entries, words[t].as_slice(), d);
            proof {
                assert(ws.take(t + 1) =~= ws.take(t as int).push(ws[t as int]));
                assert(ws[t as int] == words@[t as int]@);
                lemma_pairs_of_next_word(done, ws.take(t as int), ws[t as int]);
            }
            t = t + 1;
        }
        proof {
            assert(ws.take(count as int) =~= ws);
            assert(done.push(ws) =~= all.take(d + 1));
        }
        d = d + 1;
    }
    *result = Vec::new();
    write_index(&entries, result);
    proof {
        assert(all.take(num_docs as int) =~= all);
        assert(result@ =~= index_text(entries@));
        assert(index_wf(entries@, usize::MAX as int));
    }
}

} // verus!
