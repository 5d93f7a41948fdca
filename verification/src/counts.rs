use crate::postings::{
    lemma_lex_less_differs, lemma_lex_less_is_strict_order, lemma_lex_less_transitive, lex_less,
    place, Placement,
};
use crate::sorted::{lemma_strictly_sorted_unique, strictly_sorted};
use vstd::prelude::*;

verus! {

/// A word and how often it was seen.
pub struct WordCount {
    pub word: Vec<u8>,
    pub count: usize,
}

/// How often `w` stands in `words`.
pub open spec fn occurrences(words: Seq<Seq<u8>>, w: Seq<u8>) -> nat
    decreases words.len(),
{
    if words.len() == 0 {
        0
    } else {
        occurrences(words.drop_last(), w) + if words.last() == w {
            1nat
        } else {
            0nat
        }
    }
}

/// How often the entries say that `w` was seen.
pub open spec fn count_of(entries: Seq<WordCount>, w: Seq<u8>) -> nat
    decreases entries.len(),
{
    if entries.len() == 0 {
        0
    } else {
        count_of(entries.drop_last(), w) + if entries.last().word@ == w {
            entries.last().count as nat
        } else {
            0nat
        }
    }
}

/// Each word has one entry, the entries are in the order of their words, and
/// no count is 0 or above `limit`.
pub open spec fn counts_wf(entries: Seq<WordCount>, limit: int) -> bool {
    &&& forall|i: int, j: int|
        0 <= i < j < entries.len() ==> lex_less(
            (#[trigger] entries[i]).word@,
            (#[trigger] entries[j]).word@,
        )
    &&& forall|i: int| 0 <= i < entries.len() ==> 0 < (#[trigger] entries[i]).count <= limit
}

/// The entries count the words of `words`.
pub open spec fn tallies(entries: Seq<WordCount>, words: Seq<Seq<u8>>) -> bool {
    forall|w: Seq<u8>| #[trigger] count_of(entries, w) == occurrences(words, w)
}

/// An entry put in at `p` adds its count for its word.
pub proof fn lemma_count_of_insert(entries: Seq<WordCount>, p: int, e: WordCount, w: Seq<u8>)
    requires
        0 <= p <= entries.len(),
    ensures
        count_of(entries.insert(p, e), w) == count_of(entries, w) + if e.word@ == w {
            e.count as nat
        } else {
            0nat
        },
    decreases entries.len() - p,
{
    let more = entries.insert(p, e);
    if p == entries.len() {
        assert(more.drop_last() =~= entries);
    } else {
        assert(more.drop_last() =~= entries.drop_last().insert(p, e));
        assert(more.last() == entries.last());
        lemma_count_of_insert(entries.drop_last(), p, e, w);
    }
}

/// An entry replaced at `p` by one for the same word changes the count of
/// that word by the difference.
pub proof fn lemma_count_of_update(entries: Seq<WordCount>, p: int, e: WordCount, w: Seq<u8>)
    requires
        0 <= p < entries.len(),
        e.word@ == entries[p].word@,
    ensures
        count_of(entries.update(p, e), w) + if e.word@ == w {
            entries[p].count as nat
        } else {
            0nat
        } == count_of(entries, w) + if e.word@ == w {
            e.count as nat
        } else {
            0nat
        },
    decreases entries.len() - p,
{
    let other = entries.update(p, e);
    if p == entries.len() - 1 {
        assert(other.drop_last() =~= entries.drop_last());
    } else {
        assert(other.drop_last() =~= entries.drop_last().update(p, e));
        assert(other.last() == entries.last());
        lemma_count_of_update(entries.drop_last(), p, e, w);
    }
}

/// Counts one more occurrence of `word`.
pub fn count_word(entries: &mut Vec<WordCount>, word: &[u8])
    requires
        counts_wf(old(entries)@, usize::MAX - 1),
    ensures
        forall|limit: int|
            counts_wf(old(entries)@, limit) && limit >= 0 ==> #[trigger] counts_wf(
                final(entries)@,
                limit + 1,
            ),
        forall|w: Seq<u8>| #[trigger]
            count_of(final(entries)@, w) == count_of(old(entries)@, w) + if w == word@ {
                1nat
            } else {
                0nat
            },
{
    let n: usize = entries.len();
    let mut p: usize = 0;
    let mut found: bool = false;
    let mut passed: bool = false;
    while p < n && !found && !passed
        invariant
            p <= n == entries@.len(),
            entries@ == old(entries)@,
            forall|i: int| 0 <= i < p ==> lex_less((#[trigger] entries@[i]).word@, word@),
            found ==> p < n && entries@[p as int].word@ == word@,
            passed ==> p < n && lex_less(word@, entries@[p as int].word@),
            !(found && passed),
        decreases n - p + if found || passed { 0int } else { 1int },
    {
        let here: Placement = place(entries[p].word.as_slice(), word);
        match here {
            Placement::Before => {
                p = p + 1;
            },
            Placement::Same => {
                found = true;
            },
            Placement::After => {
                passed = true;
            },
        }
    }
    let ghost before = entries@;
    if found {
        let mut entry: WordCount = entries.remove(p);
        entry.count = entry.count + 1;
        entries.insert(p, entry);
        proof {
            assert(entries@ =~= before.update(p as int, entry));
            assert forall|w: Seq<u8>| #[trigger]
                count_of(entries@, w) == count_of(before, w) + if w == word@ {
                    1nat
                } else {
                    0nat
                } by {
                lemma_count_of_update(before, p as int, entry, w);
            }
            assert forall|limit: int| counts_wf(before, limit) && limit >= 0 implies #[trigger] counts_wf(
                entries@,
                limit + 1,
            ) by {
                assert forall|i: int, j: int| 0 <= i < j < entries@.len() implies lex_less(
                    (#[trigger] entries@[i]).word@,
                    (#[trigger] entries@[j]).word@,
                ) by {
                    assert(lex_less(before[i].word@, before[j].word@));
                }
                assert forall|i: int| 0 <= i < entries@.len() implies 0 < (
                #[trigger] entries@[i]).count <= limit + 1 by {
                    assert(0 < before[i].count <= limit);
                }
            }
        }
    } else {
        let text: Vec<u8> = vstd::slice::slice_to_vec(word);
        let entry = WordCount { word: text, count: 1 };
        entries.insert(p, entry);
        proof {
            assert(entries@ =~= before.insert(p as int, entry));
            assert forall|w: Seq<u8>| #[trigger]
                count_of(entries@, w) == count_of(before, w) + if w == word@ {
                    1nat
                } else {
                    0nat
                } by {
                lemma_count_of_insert(before, p as int, entry, w);
            }
            assert forall|limit: int| counts_wf(before, limit) && limit >= 0 implies #[trigger] counts_wf(
                entries@,
                limit + 1,
            ) by {
                assert forall|i: int, j: int| 0 <= i < j < entries@.len() implies lex_less(
                    (#[trigger] entries@[i]).word@,
                    (#[trigger] entries@[j]).word@,
                ) by {
                    lemma_sorted_after_insert(before, entries@, p as int, word@, i, j);
                }
                assert forall|i: int| 0 <= i < entries@.len() implies 0 < (
                #[trigger] entries@[i]).count <= limit + 1 by {
                    if i < p {
                        assert(0 < before[i].count <= limit);
                    } else if i > p {
                        assert(0 < before[i - 1].count <= limit);
                    }
                }
            }
        }
    }
}

/// A word put in at its place leaves the words in order.
proof fn lemma_sorted_after_insert(
    before: Seq<WordCount>,
    after: Seq<WordCount>,
    p: int,
    word: Seq<u8>,
    i: int,
    j: int,
)
    requires
        forall|a: int, b: int|
            0 <= a < b < before.len() ==> lex_less(
                (#[trigger] before[a]).word@,
                (#[trigger] before[b]).word@,
            ),
        0 <= p <= before.len(),
        after.len() == before.len() + 1,
        forall|a: int| 0 <= a < p ==> after[a] == before[a],
        forall|a: int| p <= a < before.len() ==> after[a + 1] == before[a],
        after[p].word@ == word,
        forall|a: int| 0 <= a < p ==> lex_less((#[trigger] before[a]).word@, word),
        p < before.len() ==> lex_less(word, before[p].word@),
        0 <= i < j < after.len(),
    ensures
        lex_less(after[i].word@, after[j].word@),
{
    if j < p {
        assert(lex_less(before[i].word@, before[j].word@));
    } else if j == p {
        assert(lex_less(before[i].word@, word));
    } else if i == p {
        if j - 1 > p {
            assert(lex_less(before[p].word@, before[j - 1].word@));
            lemma_lex_less_transitive(word, before[p].word@, before[j - 1].word@);
        }
        assert(after[j] == before[j - 1]);
    } else if i < p {
        assert(after[j] == before[j - 1]);
        assert(lex_less(before[i].word@, word));
        if j - 1 > p {
            assert(lex_less(before[p].word@, before[j - 1].word@));
            lemma_lex_less_transitive(word, before[p].word@, before[j - 1].word@);
        }
        lemma_lex_less_transitive(before[i].word@, word, before[j - 1].word@);
    } else {
        assert(after[i] == before[i - 1]);
        assert(after[j] == before[j - 1]);
        assert(lex_less(before[i - 1].word@, before[j - 1].word@));
    }
}

/// The words of the entries.
pub open spec fn counted_words(entries: Seq<WordCount>) -> Seq<Seq<u8>> {
    entries.map_values(|e: WordCount| e.word@)
}

/// Where each word has one entry, the count of a word is that of its entry,
/// and a word without an entry has the count 0.
pub proof fn lemma_count_of_entry(entries: Seq<WordCount>, limit: int, w: Seq<u8>)
    requires
        counts_wf(entries, limit),
    ensures
        forall|i: int|
            0 <= i < entries.len() && (#[trigger] entries[i]).word@ == w ==> count_of(entries, w)
                == entries[i].count,
        !counted_words(entries).contains(w) ==> count_of(entries, w) == 0,
    decreases entries.len(),
{
    if entries.len() > 0 {
        let rest = entries.drop_last();
        lemma_count_of_entry(rest, limit, w);
        let n = entries.len() - 1;
        if entries.last().word@ == w {
            if counted_words(rest).contains(w) {
                let i = choose|i: int| 0 <= i < rest.len() && counted_words(rest)[i] == w;
                assert(lex_less(entries[i].word@, entries[n].word@));
                lemma_lex_less_differs(entries[i].word@, entries[n].word@);
            }
            assert forall|i: int| 0 <= i < entries.len() && (#[trigger] entries[i]).word@
                == w implies count_of(entries, w) == entries[i].count by {
                if i < n {
                    assert(lex_less(entries[i].word@, entries[n].word@));
                    lemma_lex_less_differs(entries[i].word@, entries[n].word@);
                }
            }
        } else {
            assert forall|i: int| 0 <= i < entries.len() && (#[trigger] entries[i]).word@
                == w implies count_of(entries, w) == entries[i].count by {
                assert(rest[i].word@ == w);
            }
        }
        if !counted_words(entries).contains(w) {
            assert(counted_words(entries)[n] == entries[n].word@);
            if counted_words(rest).contains(w) {
                let i = choose|i: int| 0 <= i < rest.len() && counted_words(rest)[i] == w;
                assert(counted_words(entries)[i] == w);
            }
        }
    }
}

/// The words decide their counts: two lists of counts for the same words
/// have the same entries.
pub proof fn lemma_counts_unique(a: Seq<WordCount>, b: Seq<WordCount>, words: Seq<Seq<u8>>)
    requires
        counts_wf(a, usize::MAX as int),
        counts_wf(b, usize::MAX as int),
        tallies(a, words),
        tallies(b, words),
    ensures
        a.len() == b.len(),
        forall|i: int|
            0 <= i < a.len() ==> (#[trigger] a[i]).word@ == b[i].word@ && a[i].count == b[i].count,
{
    let less = |x: Seq<u8>, y: Seq<u8>| lex_less(x, y);
    lemma_lex_less_is_strict_order();
    let wa = counted_words(a);
    let wb = counted_words(b);
    assert(strictly_sorted(wa, less)) by {
        assert forall|i: int, j: int| 0 <= i < j < wa.len() implies less(
            #[trigger] wa[i],
            #[trigger] wa[j],
        ) by {
            assert(lex_less(a[i].word@, a[j].word@));
        }
    }
    assert(strictly_sorted(wb, less)) by {
        assert forall|i: int, j: int| 0 <= i < j < wb.len() implies less(
            #[trigger] wb[i],
            #[trigger] wb[j],
        ) by {
            assert(lex_less(b[i].word@, b[j].word@));
        }
    }
    assert forall|w: Seq<u8>| #[trigger] wa.contains(w) <==> wb.contains(w) by {
        lemma_count_of_entry(a, usize::MAX as int, w);
        lemma_count_of_entry(b, usize::MAX as int, w);
        assert(count_of(a, w) == occurrences(words, w));
        assert(count_of(b, w) == occurrences(words, w));
        if wa.contains(w) {
            let i = choose|i: int| 0 <= i < wa.len() && wa[i] == w;
            assert(a[i].word@ == w);
            assert(0 < a[i].count);
        }
        if wb.contains(w) {
            let i = choose|i: int| 0 <= i < wb.len() && wb[i] == w;
            assert(b[i].word@ == w);
            assert(0 < b[i].count);
        }
    }
    lemma_strictly_sorted_unique(wa, wb, less);
    assert forall|i: int| 0 <= i < a.len() implies (#[trigger] a[i]).word@ == b[i].word@
        && a[i].count == b[i].count by {
        let w = a[i].word@;
        assert(wa[i] == w);
        assert(wb[i] == b[i].word@);
        lemma_count_of_entry(a, usize::MAX as int, w);
        lemma_count_of_entry(b, usize::MAX as int, w);
        assert(count_of(a, w) == occurrences(words, w));
        assert(count_of(b, w) == occurrences(words, w));
    }
}

} // verus!
