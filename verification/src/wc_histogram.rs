use crate::counts::{count_of, count_word, counts_wf, occurrences, tallies, WordCount};
use crate::documents::lower_letter;
use crate::par::par_map_range;
use crate::primitives::tokens;
use crate::tokens::{answers, is_tokens, num_tokens, token};
use vstd::prelude::*;

verus! {

/// A byte as a letter of a word: a letter as its small letter, and anything
/// else as a blank, which separates words.
pub open spec fn spaced_letter(c: u8) -> u8 {
    if lower_letter(c as int) == 0 {
        32
    } else {
        lower_letter(c as int)
    }
}

/// The words of a text, split where `sep` says so.
pub open spec fn split_words(letters: Seq<u8>, sep: Seq<bool>) -> Seq<Seq<u8>> {
    Seq::new(num_tokens(sep), |k: int| token(letters, sep, k))
}

/// The words of the text `s`: the runs of letters in it, in small letters.
pub open spec fn words_of_text(s: Seq<u8>) -> Seq<Seq<u8>> {
    let letters = s.map_values(|c: u8| spaced_letter(c));
    split_words(letters, letters.map_values(|b: u8| b == 32))
}

/// `out` lists the words of `words`, each once and in the order of the
/// words, with the number of times it occurs.
pub open spec fn is_word_counts(words: Seq<Seq<u8>>, out: Seq<(String, usize)>) -> bool {
    exists|entries: Seq<WordCount>|
        {
            &&& #[trigger] counts_wf(entries, usize::MAX as int)
            &&& tallies(entries, words)
            &&& out.len() == entries.len()
            &&& forall|i: int|
                0 <= i < out.len() ==> (#[trigger] out[i]).0@ == entries[i].word@.map_values(
                    |b: u8| b as char,
                ) && out[i].1 == entries[i].count
        }
}

/// Every byte of `word` is below 128.
pub open spec fn is_plain(word: Seq<u8>) -> bool {
    forall|k: int| 0 <= k < word.len() ==> word[k] < 128
}

/// Reads bytes as text with std's `str::from_utf8`.  Bytes below 128 are the
/// UTF-8 encoding of the characters with their codes, so such bytes are read
/// as those characters.
#[verifier::external_body]
pub(crate) fn read_ascii(bytes: &[u8]) -> (text: Option<&str>)
    ensures
        is_plain(bytes@) ==> text is Some && text.unwrap()@ == bytes@.map_values(
            |b: u8| b as char,
        ),
{
    std::str::from_utf8(bytes).ok()
}

/// Counts the words of `words`, in their order.
pub fn count_words(words: &[&[u8]]) -> (entries: Vec<WordCount>)
    requires
        words@.len() < usize::MAX,
    ensures
        counts_wf(entries@, usize::MAX as int),
        tallies(entries@, words@.map_values(|w: &[u8]| w@)),
{
    let ghost all = words@.map_values(|w: &[u8]| w@);
    let mut entries: Vec<WordCount> = Vec::new();
    let n: usize = words.len();
    let mut t: usize = 0;
    proof {
        assert(all.take(0) =~= Seq::<Seq<u8>>::empty());
    }
    while t < n
        invariant
            t <= n == words@.len() < usize::MAX,
            all == words@.map_values(|w: &[u8]| w@),
            counts_wf(entries@, t as int),
            tallies(entries@, all.take(t as int)),
        decreases n - t,
    {
        let ghost before = entries@;
        count_word(&mut entries, words[t]);
        proof {
            let now = all.take(t + 1);
            assert(now.drop_last() =~= all.take(t as int));
            assert(now.last() == words@[t as int]@);
            assert(counts_wf(entries@, t + 1));
            assert forall|w: Seq<u8>| #[trigger] count_of(entries@, w) == occurrences(now, w) by {
                assert(count_of(before, w) == occurrences(all.take(t as int), w));
            }
        }
        t = t + 1;
    }
    proof {
        assert(all.take(n as int) =~= all);
    }
    entries
}

/// The entries as pairs of a word and its count, behind what `result`
/// holds.
pub fn push_counts(entries: &Vec<WordCount>, result: &mut Vec<(String, usize)>)
    requires
        forall|i: int| 0 <= i < entries@.len() ==> is_plain((#[trigger] entries@[i]).word@),
    ensures
        final(result)@.len() == old(result)@.len() + entries@.len(),
        final(result)@.take(old(result)@.len() as int) == old(result)@,
        forall|i: int|
            0 <= i < entries@.len() ==> (#[trigger] final(result)@[old(result)@.len() + i]).0@
                == entries@[i].word@.map_values(|b: u8| b as char) && final(result)@[old(
                result,
            )@.len() + i].1 == entries@[i].count,
{
    let n: usize = entries.len();
    let ghost start = result@;
    let mut i: usize = 0;
    while i < n
        invariant
            i <= n == entries@.len(),
            result@.len() == start.len() + i,
            result@.take(start.len() as int) == start,
            forall|i: int| 0 <= i < entries@.len() ==> is_plain((#[trigger] entries@[i]).word@),
            forall|q: int|
                0 <= q < i ==> (#[trigger] result@[start.len() + q]).0@ == entries@[q].word@.map_values(
                    |b: u8| b as char,
                ) && result@[start.len() + q].1 == entries@[q].count,
        decreases n - i,
    {
        proof {
            assert(is_plain(entries@[i as int].word@));
        }
        let text: Option<&str> = read_ascii(entries[i].word.as_slice());
        let word: String = text.unwrap().to_owned();
        let ghost before = result@;
        result.push((word, entries[i].count));
        proof {
            assert(result@.take(start.len() as int) =~= before.take(start.len() as int));
            assert forall|q: int| 0 <= q < i + 1 implies (#[trigger] result@[start.len() + q]).0@
                == entries@[q].word@.map_values(|b: u8| b as char) && result@[start.len() + q].1
                == entries@[q].count by {
                if q < i {
                    assert(result@[start.len() + q] == before[start.len() + q]);
                }
            }
        }
        i = i + 1;
    }
}

/// Counts the words of the text `s` and puts the counts into `result`: one
/// pair for each word, in the order of the words.
///
/// The words are the runs of letters in `s`, in small letters.  The text is
/// turned into letters and blanks in parallel and split with `tokens`.
pub fn word_counts(s: &[u8], result: &mut Vec<(String, usize)>)
    requires
        s@.len() < usize::MAX,
    ensures
        is_word_counts(words_of_text(s@), final(result)@),
{
    let n: usize = s.len();
    let letter = |i: usize| -> (b: u8)
        requires
            i < n,
        ensures
            b == spaced_letter(s@[i as int]),
        {
            let c: u8 = s[i];
            if 65 <= c && c <= 90 {
                c + 32
            } else if 97 <= c && c <= 122 {
                c
            } else {
                32
            }
        };
    let letters: Vec<u8> = par_map_range(n, &letter);
    let blank = |c: &u8| -> (b: bool)
        ensures
            b == (*c == 32),
        { *c == 32 };
    let found: Vec<&[u8]> = tokens(&letters, blank);
    let ghost flags = letters@.map_values(|b: u8| b == 32);
    let ghost words = words_of_text(s@);
    proof {
        assert(letters@ =~= s@.map_values(|c: u8| spaced_letter(c)));
        let sep = choose|sep: Seq<bool>| #[trigger]
            answers(&blank, letters@, sep) && is_tokens(letters@, sep, found@);
        assert(sep =~= flags);
        assert(found@.map_values(|w: &[u8]| w@) =~= words);
        crate::tokens::lemma_num_tokens_bound(flags);
    }
    let entries: Vec<WordCount> = count_words(found.as_slice());
    *result = Vec::new();
    proof {
        assert forall|i: int| 0 <= i < entries@.len() implies is_plain(
            (#[trigger] entries@[i]).word@,
        ) by {
            lemma_counted_words_occur(entries@, words, i);
            let q = choose|q: int| 0 <= q < words.len() && words[q] == entries@[i].word@;
            crate::tokens::lemma_tokens_are_maximal_runs(flags, q);
        }
    }
    push_counts(&entries, result);
    proof {
        assert forall|i: int| 0 <= i < result@.len() implies (#[trigger] result@[i]).0@
            == entries@[i].word@.map_values(|b: u8| b as char) && result@[i].1
            == entries@[i].count by {
            assert(result@[0 + i].1 == entries@[i].count);
        }
        assert(counts_wf(entries@, usize::MAX as int));
    }
}

/// A word that was counted is one of the words.
pub proof fn lemma_counted_words_occur(entries: Seq<WordCount>, words: Seq<Seq<u8>>, i: int)
    requires
        counts_wf(entries, usize::MAX as int),
        tallies(entries, words),
        0 <= i < entries.len(),
    ensures
        exists|q: int| 0 <= q < words.len() && words[q] == entries[i].word@,
{
    let w = entries[i].word@;
    lemma_count_of_at_least(entries, i);
    assert(count_of(entries, w) == occurrences(words, w));
    lemma_occurs_where_counted(words, w);
}

/// The count of a word is at least that of any entry for it.
proof fn lemma_count_of_at_least(entries: Seq<WordCount>, i: int)
    requires
        0 <= i < entries.len(),
    ensures
        count_of(entries, entries[i].word@) >= entries[i].count,
    decreases entries.len(),
{
    if i < entries.len() - 1 {
        lemma_count_of_at_least(entries.drop_last(), i);
    }
}

/// A word that occurs at least once stands somewhere among the words.
proof fn lemma_occurs_where_counted(words: Seq<Seq<u8>>, w: Seq<u8>)
    requires
        occurrences(words, w) > 0,
    ensures
        exists|q: int| 0 <= q < words.len() && words[q] == w,
    decreases words.len(),
{
    if words.last() == w {
        assert(words[words.len() - 1] == w);
    } else {
        lemma_occurs_where_counted(words.drop_last(), w);
        let q = choose|q: int| 0 <= q < words.drop_last().len() && words.drop_last()[q] == w;
        assert(words[q] == w);
    }
}

} // verus!
