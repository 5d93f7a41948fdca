use crate::counts::{counts_wf, WordCount};
use crate::documents::lower_letter;
use crate::primitives::tokens;
use crate::tokens::{answers, is_tokens, lemma_num_tokens_bound};
use crate::wc_histogram::{
    count_words, is_plain, is_word_counts, lemma_counted_words_occur, push_counts, split_words,
};
use vstd::prelude::*;

verus! {

/// Whether a byte is white space: a blank, a tab, a line feed, a form feed
/// or a carriage return.
pub open spec fn is_white_space(b: u8) -> bool {
    b == 32 || b == 9 || b == 10 || b == 12 || b == 13
}

/// The text `s` with each letter as its small letter and every other byte
/// as 0.
pub open spec fn letters_of_text(s: Seq<u8>) -> Seq<u8> {
    s.map_values(|c: u8| lower_letter(c as int))
}

/// The words of the text `s`: what white space leaves of its letters.  No
/// byte of the letters is white space, so a text that is not empty is one
/// word.
pub open spec fn words_of_text(s: Seq<u8>) -> Seq<Seq<u8>> {
    let letters = letters_of_text(s);
    split_words(letters, letters.map_values(|b: u8| is_white_space(b)))
}

/// Counts the words of the text `s` and appends the counts to `result`: one
/// pair for each word, in the order of the words.
pub fn word_counts(s: &[u8], result: &mut Vec<(String, usize)>)
    requires
        s@.len() < usize::MAX,
    ensures
        final(result)@.len() >= old(result)@.len(),
        final(result)@.take(old(result)@.len() as int) == old(result)@,
        is_word_counts(words_of_text(s@), final(result)@.skip(old(result)@.len() as int)),
{
    let n: usize = s.len();
    let mut letters: Vec<u8> = Vec::with_capacity(n);
    let ghost want = letters_of_text(s@);
    let mut i: usize = 0;
    while i < n
        invariant
            i <= n == s@.len(),
            want == letters_of_text(s@),
            letters@ == want.take(i as int),
        decreases n - i,
    {
        let c: u8 = s[i];
        let b: u8 = if 65 <= c && c <= 90 {
            c + 32
        } else if 97 <= c && c <= 122 {
            c
        } else {
            0
        };
        letters.push(b);
        proof {
            assert(want.take(i + 1) =~= want.take(i as int).push(want[i as int]));
        }
        i = i + 1;
    }
    proof {
        assert(want.take(n as int) =~= want);
    }
    let white = |c: &u8| -> (b: bool)
        ensures
            b == is_white_space(*c),
        { *c == 32 || *c == 9 || *c == 10 || *c == 12 || *c == 13 };
    let found: Vec<&[u8]> = tokens(&letters, white);
    let ghost flags = letters@.map_values(|b: u8| is_white_space(b));
    let ghost words = words_of_text(s@);
    proof {
        let sep = choose|sep: Seq<bool>| #[trigger]
            answers(&white, letters@, sep) && is_tokens(letters@, sep, found@);
        assert(sep =~= flags);
        assert(found@.map_values(|w: &[u8]| w@) =~= words);
        lemma_num_tokens_bound(flags);
    }
    let entries: Vec<WordCount> = count_words(found.as_slice());
    proof {
        assert forall|i: int| 0 <= i < entries@.len() implies is_plain(
            (#[trigger] entries@[i]).word@,
        ) by {
            lemma_counted_words_occur(entries@, words, i);
            let q = choose|q: int| 0 <= q < words.len() && words[q] == entries@[i].word@;
            crate::tokens::lemma_tokens_are_maximal_runs(flags, q);
        }
    }
    let ghost before = result@;
    push_counts(&entries, result);
    proof {
        let added = result@.skip(before.len() as int);
        assert forall|i: int| 0 <= i < added.len() implies (#[trigger] added[i]).0@
            == entries@[i].word@.map_values(|b: u8| b as char) && added[i].1
            == entries@[i].count by {
            assert(result@[before.len() + i].1 == entries@[i].count);
        }
        assert(counts_wf(entries@, usize::MAX as int));
    }
}

} // verus!
