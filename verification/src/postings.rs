use crate::sorted::{is_strict_order, lemma_strictly_sorted_unique, strictly_sorted};
use crate::text::{decimal_digits, push_decimal};
use vstd::prelude::*;

verus! {

/// `a` comes before `b` by their first difference, which is at `k`: up to
/// `k` they agree, and there `a` ends or holds the lesser byte.
pub open spec fn lex_less_at(a: Seq<u8>, b: Seq<u8>, k: int) -> bool {
    &&& 0 <= k <= a.len()
    &&& k < b.len()
    &&& forall|i: int| 0 <= i < k ==> a[i] == b[i]
    &&& k < a.len() ==> a[k] < b[k]
}

/// `a` comes before `b` in lexicographic order.
pub open spec fn lex_less(a: Seq<u8>, b: Seq<u8>) -> bool {
    exists|k: int| lex_less_at(a, b, k)
}

/// The lexicographic order is transitive.
pub proof fn lemma_lex_less_transitive(a: Seq<u8>, b: Seq<u8>, c: Seq<u8>)
    requires
        lex_less(a, b),
        lex_less(b, c),
    ensures
        lex_less(a, c),
{
    let k1 = choose|k: int| lex_less_at(a, b, k);
    let k2 = choose|k: int| lex_less_at(b, c, k);
    if k1 <= k2 {
        assert(lex_less_at(a, c, k1));
    } else {
        assert(lex_less_at(a, c, k2));
    }
}

/// What comes before another word differs from it.
pub proof fn lemma_lex_less_differs(a: Seq<u8>, b: Seq<u8>)
    requires
        lex_less(a, b),
    ensures
        a != b,
        !lex_less(b, a),
{
    let k = choose|k: int| lex_less_at(a, b, k);
    if lex_less(b, a) {
        let l = choose|l: int| lex_less_at(b, a, l);
        if k < l {
            assert(b[k] == a[k]);
        } else if l < k {
            assert(a[l] == b[l]);
        }
    }
}

/// Where one word stands with respect to another.
#[derive(Copy, Clone, Debug, PartialEq, Eq)]
pub enum Placement {
    Before,
    Same,
    After,
}

/// Places `a` with respect to `b` in lexicographic order.
pub fn place(a: &[u8], b: &[u8]) -> (r: Placement)
    ensures
        r == Placement::Before <==> lex_less(a@, b@),
        r == Placement::Same <==> a@ == b@,
        r == Placement::After <==> lex_less(b@, a@),
{
    let n: usize = a.len();
    let m: usize = b.len();
    let mut i: usize = 0;
    while i < n && i < m && a[i] == b[i]
        invariant
            i <= n == a@.len(),
            i <= m == b@.len(),
            forall|q: int| 0 <= q < i ==> a@[q] == b@[q],
        decreases n - i,
    {
        i = i + 1;
    }
    if i == n && i == m {
        proof {
            assert(a@ =~= b@);
            if lex_less(a@, b@) {
                lemma_lex_less_differs(a@, b@);
            }
            if lex_less(b@, a@) {
                lemma_lex_less_differs(b@, a@);
            }
        }
        Placement::Same
    } else if i == n || (i < m && a[i] < b[i]) {
        proof {
            assert(lex_less_at(a@, b@, i as int));
            lemma_lex_less_differs(a@, b@);
        }
        Placement::Before
    } else {
        proof {
            assert(lex_less_at(b@, a@, i as int));
            lemma_lex_less_differs(b@, a@);
        }
        Placement::After
    }
}

/// A word and the documents that hold it.
pub struct Posting {
    pub word: Vec<u8>,
    pub docs: Vec<usize>,
}

/// The words of the entries strictly increase.
pub open spec fn words_sorted(entries: Seq<Posting>) -> bool {
    forall|i: int, j: int|
        0 <= i < j < entries.len() ==> lex_less(
            (#[trigger] entries[i]).word@,
            (#[trigger] entries[j]).word@,
        )
}

/// An entry names at least one document, its documents strictly increase,
/// and none of them is behind `last`.
pub open spec fn docs_sorted(docs: Seq<usize>, last: int) -> bool {
    &&& docs.len() > 0
    &&& forall|i: int, j: int| 0 <= i < j < docs.len() ==> docs[i] < docs[j]
    &&& forall|i: int| 0 <= i < docs.len() ==> docs[i] <= last
}

/// The entries form an index of the documents up to `last`: each word has
/// one entry, the entries are in the order of their words, and each names
/// its documents in increasing order.
pub open spec fn index_wf(entries: Seq<Posting>, last: int) -> bool {
    &&& words_sorted(entries)
    &&& forall|i: int| 0 <= i < entries.len() ==> docs_sorted((#[trigger] entries[i]).docs@, last)
}

/// The index says that document `doc` holds `word`.
pub open spec fn has(entries: Seq<Posting>, word: Seq<u8>, doc: int) -> bool {
    exists|i: int, j: int|
        0 <= i < entries.len() && 0 <= j < entries[i].docs@.len() && (#[trigger] entries[i]).word@
            == word && #[trigger] entries[i].docs@[j] == doc
}

/// What the index says: the pairs of a word and a document that holds it.
pub open spec fn content(entries: Seq<Posting>) -> Set<(Seq<u8>, int)> {
    Set::new(|p: (Seq<u8>, int)| has(entries, p.0, p.1))
}

/// Appending a later document to the entry at `p` adds one pair to what the
/// index says.
proof fn lemma_added_doc(before: Seq<Posting>, after: Seq<Posting>, p: int, doc: int)
    requires
        index_wf(before, doc),
        0 <= p < before.len(),
        after.len() == before.len(),
        forall|i: int| 0 <= i < before.len() && i != p ==> after[i] == before[i],
        after[p].word@ == before[p].word@,
        after[p].docs@ == before[p].docs@.push(doc as usize),
        before[p].docs@.last() != doc,
        0 <= doc <= usize::MAX,
    ensures
        index_wf(after, doc),
        content(after) == content(before).insert((before[p].word@, doc)),
{
    let word = before[p].word@;
    assert forall|i: int, j: int| 0 <= i < j < after.len() implies lex_less(
        (#[trigger] after[i]).word@,
        (#[trigger] after[j]).word@,
    ) by {
        assert(lex_less(before[i].word@, before[j].word@));
    }
    assert forall|i: int| 0 <= i < after.len() implies docs_sorted(
        (#[trigger] after[i]).docs@,
        doc,
    ) by {
        assert(docs_sorted(before[i].docs@, doc));
    }
    assert forall|q: (Seq<u8>, int)| content(after).contains(q) <==> content(before).insert(
        (word, doc),
    ).contains(q) by {
        if has(before, q.0, q.1) {
            let (i, j) = choose|i: int, j: int|
                0 <= i < before.len() && 0 <= j < before[i].docs@.len() && (
                #[trigger] before[i]).word@ == q.0 && #[trigger] before[i].docs@[j] == q.1;
            assert(after[i].word@ == q.0 && after[i].docs@[j] == q.1);
        }
        if q == (word, doc) {
            assert(after[p].word@ == word && after[p].docs@[before[p].docs@.len() as int] == doc);
        }
        if has(after, q.0, q.1) {
            let (i, j) = choose|i: int, j: int|
                0 <= i < after.len() && 0 <= j < after[i].docs@.len() && (#[trigger] after[i]).word@
                    == q.0 && #[trigger] after[i].docs@[j] == q.1;
            if i == p && j == before[p].docs@.len() {
            } else {
                assert(before[i].word@ == q.0 && before[i].docs@[j] == q.1);
            }
        }
    }
    assert(content(after) =~= content(before).insert((word, doc)));
}

/// Inserting a new word at its place adds one pair to what the index says.
proof fn lemma_added_word(
    before: Seq<Posting>,
    after: Seq<Posting>,
    p: int,
    word: Seq<u8>,
    doc: int,
)
    requires
        index_wf(before, doc),
        0 <= p <= before.len(),
        after.len() == before.len() + 1,
        forall|i: int| 0 <= i < p ==> after[i] == before[i],
        forall|i: int| p <= i < before.len() ==> after[i + 1] == before[i],
        after[p].word@ == word,
        after[p].docs@ == seq![doc as usize],
        0 <= doc <= usize::MAX,
        forall|i: int| 0 <= i < p ==> lex_less((#[trigger] before[i]).word@, word),
        p < before.len() ==> lex_less(word, before[p].word@),
    ensures
        index_wf(after, doc),
        content(after) == content(before).insert((word, doc)),
{
    assert forall|i: int, j: int| 0 <= i < j < after.len() implies lex_less(
        (#[trigger] after[i]).word@,
        (#[trigger] after[j]).word@,
    ) by {
        if j < p {
            assert(lex_less(before[i].word@, before[j].word@));
        } else if j == p {
            assert(lex_less(before[i].word@, word));
        } else if i == p {
            if j - 1 > p {
                assert(lex_less(before[p].word@, before[j - 1].word@));
                lemma_lex_less_transitive(word, before[p].word@, before[j - 1].word@);
            }
            assert(after[j] == before[j - 1]);
        } else if i < p {
            assert(after[j] == before[j - 1]);
            assert(lex_less(before[i].word@, word));
            if j - 1 > p {
                assert(lex_less(before[p].word@, before[j - 1].word@));
                lemma_lex_less_transitive(word, before[p].word@, before[j - 1].word@);
            }
            lemma_lex_less_transitive(before[i].word@, word, before[j - 1].word@);
        } else {
            assert(after[i] == before[i - 1]);
            assert(after[j] == before[j - 1]);
            assert(lex_less(before[i - 1].word@, before[j - 1].word@));
        }
    }
    assert forall|i: int| 0 <= i < after.len() implies docs_sorted(
        (#[trigger] after[i]).docs@,
        doc,
    ) by {
        if i < p {
            assert(docs_sorted(before[i].docs@, doc));
        } else if i > p {
            assert(after[i] == before[i - 1]);
            assert(docs_sorted(before[i - 1].docs@, doc));
        }
    }
    assert forall|q: (Seq<u8>, int)| content(after).contains(q) <==> content(before).insert(
        (word, doc),
    ).contains(q) by {
        if has(before, q.0, q.1) {
            let (i, j) = choose|i: int, j: int|
                0 <= i < before.len() && 0 <= j < before[i].docs@.len() && (
                #[trigger] before[i]).word@ == q.0 && #[trigger] before[i].docs@[j] == q.1;
            if i < p {
                assert(after[i].word@ == q.0 && after[i].docs@[j] == q.1);
            } else {
                assert(after[i + 1] == before[i]);
                assert(after[i + 1].word@ == q.0 && after[i + 1].docs@[j] == q.1);
            }
        }
        if q == (word, doc) {
            assert(after[p].word@ == word && after[p].docs@[0] == doc);
        }
        if has(after, q.0, q.1) {
            let (i, j) = choose|i: int, j: int|
                0 <= i < after.len() && 0 <= j < after[i].docs@.len() && (#[trigger] after[i]).word@
                    == q.0 && #[trigger] after[i].docs@[j] == q.1;
            if i < p {
                assert(before[i].word@ == q.0 && before[i].docs@[j] == q.1);
            } else if i > p {
                assert(after[i] == before[i - 1]);
                assert(before[i - 1].word@ == q.0 && before[i - 1].docs@[j] == q.1);
            }
        }
    }
    assert(content(after) =~= content(before).insert((word, doc)));
}

/// Records that document `doc` holds `word`.  The documents come in
/// increasing order, so a word that the index already has for `doc` was
/// recorded last.
pub fn add_posting(entries: &mut Vec<Posting>, word: &[u8], doc: usize)
    requires
        index_wf(old(entries)@, doc as int),
    ensures
        index_wf(final(entries)@, doc as int),
        content(final(entries)@) == content(old(entries)@).insert((word@, doc as int)),
{
    let n: usize = entries.len();
    let mut p: usize = 0;
    let mut found: bool = false;
    let mut passed: bool = false;
    while p < n && !found && !passed
        invariant
            p <= n == entries@.len(),
            entries@ == old(entries)@,
            forall|i: int| 0 <= i < p ==> lex_less((#[trigger] entries@[i]).word@, word@),
            found ==> p < n && entries@[p as int].word@ == word@,
            passed ==> p < n && lex_less(word@, entries@[p as int].word@),
            !(found && passed),
        decreases n - p + if found || passed { 0int } else { 1int },
    {
        let here: Placement = place(entries[p].word.as_slice(), word);
        match here {
            Placement::Before => {
                p = p + 1;
            },
            Placement::Same => {
                found = true;
            },
            Placement::After => {
                passed = true;
            },
        }
    }
    if found {
        let last: usize = entries[p].docs.len() - 1;
        if entries[p].docs[last] != doc {
            let mut entry: Posting = entries.remove(p);
            entry.docs.push(doc);
            entries.insert(p, entry);
            proof {
                lemma_added_doc(old(entries)@, entries@, p as int, doc as int);
            }
        } else {
            proof {
                assert(has(entries@, word@, doc as int));
                assert(content(entries@) =~= content(entries@).insert((word@, doc as int)));
            }
        }
    } else {
        let mut text: Vec<u8> = Vec::with_capacity(word.len());
        let mut k: usize = 0;
        while k < word.len()
            invariant
                k <= word@.len(),
                text@ == word@.take(k as int),
            decreases word@.len() - k,
        {
            text.push(word[k]);
            proof {
                assert(word@.take(k + 1) =~= word@.take(k as int).push(word@[k as int]));
            }
            k = k + 1;
        }
        proof {
            assert(word@.take(word@.len() as int) =~= word@);
        }
        let mut docs: Vec<usize> = Vec::with_capacity(1);
        docs.push(doc);
        let entry = Posting { word: text, docs };
        entries.insert(p, entry);
        proof {
            lemma_added_word(old(entries)@, entries@, p as int, word@, doc as int);
        }
    }
}

/// The document numbers of an entry as text: in decimal, with one blank
/// between two of them.
pub open spec fn docs_text(docs: Seq<usize>) -> Seq<char>
    decreases docs.len(),
{
    if docs.len() == 0 {
        Seq::empty()
    } else if docs.len() == 1 {
        decimal_digits(docs[0] as nat)
    } else {
        docs_text(docs.drop_last()) + seq![' '] + decimal_digits(docs.last() as nat)
    }
}

/// The line of an entry: the word, a blank, the document numbers, and a
/// line feed.
pub open spec fn entry_text(entry: Posting) -> Seq<char> {
    entry.word@.map_values(|b: u8| b as char) + seq![' '] + docs_text(entry.docs@) + seq!['\n']
}

/// The index as text: the lines of its entries, in order.
pub open spec fn index_text(entries: Seq<Posting>) -> Seq<char>
    decreases entries.len(),
{
    if entries.len() == 0 {
        Seq::empty()
    } else {
        index_text(entries.drop_last()) + entry_text(entries.last())
    }
}

/// Appends the line of `entry` to `out`.
pub fn write_entry(entry: &Posting, out: &mut Vec<char>)
    ensures
        final(out)@ == old(out)@ + entry_text(*entry),
{
    let ghost start = out@;
    let ghost letters = entry.word@.map_values(|b: u8| b as char);
    let n: usize = entry.word.len();
    let mut i: usize = 0;
    while i < n
        invariant
            i <= n == entry.word@.len(),
            letters == entry.word@.map_values(|b: u8| b as char),
            out@ == start + letters.take(i as int),
        decreases n - i,
    {
        out.push(entry.word[i] as char);
        proof {
            assert(letters.take(i + 1) =~= letters.take(i as int).push(letters[i as int]));
        }
        i = i + 1;
    }
    out.push(' ');
    let ghost head = start + letters + seq![' '];
    proof {
        assert(letters.take(n as int) =~= letters);
        assert(out@ =~= head);
        assert(entry.docs@.take(0) =~= Seq::<usize>::empty());
    }
    let m: usize = entry.docs.len();
    let mut j: usize = 0;
    while j < m
        invariant
            j <= m == entry.docs@.len(),
            out@ == head + docs_text(entry.docs@.take(j as int)),
        decreases m - j,
    {
        if j > 0 {
            out.push(' ');
        }
        push_decimal(out, entry.docs[j]);
        proof {
            let now = entry.docs@.take(j + 1);
            assert(now.drop_last() =~= entry.docs@.take(j as int));
            assert(now.last() == entry.docs@[j as int]);
            if j == 0 {
                assert(docs_text(entry.docs@.take(0)) =~= Seq::<char>::empty());
                assert(now[0] == entry.docs@[0]);
            }
            assert(out@ =~= head + docs_text(now));
        }
        j = j + 1;
    }
    out.push('\n');
    proof {
        assert(entry.docs@.take(m as int) =~= entry.docs@);
        assert(out@ =~= old(out)@ + entry_text(*entry));
    }
}

/// Appends the index as text to `out`.
pub fn write_index(entries: &Vec<Posting>, out: &mut Vec<char>)
    ensures
        final(out)@ == old(out)@ + index_text(entries@),
{
    let n: usize = entries.len();
    let mut i: usize = 0;
    proof {
        assert(entries@.take(0) =~= Seq::<Posting>::empty());
        assert(out@ =~= old(out)@ + index_text(entries@.take(0)));
    }
    while i < n
        invariant
            i <= n == entries@.len(),
            out@ == old(out)@ + index_text(entries@.take(i as int)),
        decreases n - i,
    {
        write_entry(&entries[i], out);
        proof {
            let now = entries@.take(i + 1);
            assert(now.drop_last() =~= entries@.take(i as int));
            assert(now.last() == entries@[i as int]);
            assert(out@ =~= old(out)@ + index_text(now));
        }
        i = i + 1;
    }
    proof {
        assert(entries@.take(n as int) =~= entries@);
    }
}

/// The words of the entries.
pub open spec fn words_in(entries: Seq<Posting>) -> Seq<Seq<u8>> {
    entries.map_values(|e: Posting| e.word@)
}

/// The lexicographic order is a strict order.
pub proof fn lemma_lex_less_is_strict_order()
    ensures
        is_strict_order(|a: Seq<u8>, b: Seq<u8>| lex_less(a, b)),
{
    let less = |a: Seq<u8>, b: Seq<u8>| lex_less(a, b);
    assert forall|x: Seq<u8>, y: Seq<u8>| #[trigger] less(x, y) implies x != y && !less(y, x) by {
        lemma_lex_less_differs(x, y);
    }
    assert forall|x: Seq<u8>, y: Seq<u8>, z: Seq<u8>| #[trigger]
        less(x, y) && #[trigger] less(y, z) implies less(x, z) by {
        lemma_lex_less_transitive(x, y, z);
    }
}

/// What an index says decides the index: two indexes that say the same have
/// the same words with the same documents, entry by entry, and so the same
/// text.
pub proof fn lemma_index_unique(a: Seq<Posting>, b: Seq<Posting>, last: int)
    requires
        index_wf(a, last),
        index_wf(b, last),
        content(a) == content(b),
    ensures
        a.len() == b.len(),
        forall|i: int|
            0 <= i < a.len() ==> (#[trigger] a[i]).word@ == b[i].word@ && a[i].docs@ == b[i].docs@,
        index_text(a) == index_text(b),
{
    let less = |x: Seq<u8>, y: Seq<u8>| lex_less(x, y);
    let below = |x: usize, y: usize| x < y;
    lemma_lex_less_is_strict_order();
    let wa = words_in(a);
    let wb = words_in(b);
    assert(strictly_sorted(wa, less)) by {
        assert forall|i: int, j: int| 0 <= i < j < wa.len() implies less(
            #[trigger] wa[i],
            #[trigger] wa[j],
        ) by {
            assert(lex_less(a[i].word@, a[j].word@));
        }
    }
    assert(strictly_sorted(wb, less)) by {
        assert forall|i: int, j: int| 0 <= i < j < wb.len() implies less(
            #[trigger] wb[i],
            #[trigger] wb[j],
        ) by {
            assert(lex_less(b[i].word@, b[j].word@));
        }
    }
    assert forall|w: Seq<u8>| #[trigger] wa.contains(w) <==> wb.contains(w) by {
        if wa.contains(w) {
            lemma_word_listed(a, b, last, w);
        }
        if wb.contains(w) {
            lemma_word_listed(b, a, last, w);
        }
    }
    lemma_strictly_sorted_unique(wa, wb, less);
    assert forall|i: int| 0 <= i < a.len() implies (#[trigger] a[i]).word@ == b[i].word@
        && a[i].docs@ == b[i].docs@ by {
        assert(wa[i] == a[i].word@);
        assert(wb[i] == b[i].word@);
        let da = a[i].docs@;
        let db = b[i].docs@;
        assert(docs_sorted(da, last));
        assert(docs_sorted(db, last));
        assert forall|d: usize| #[trigger] da.contains(d) <==> db.contains(d) by {
            if da.contains(d) {
                lemma_doc_listed(a, b, last, i, d);
            }
            if db.contains(d) {
                lemma_doc_listed(b, a, last, i, d);
            }
        }
        lemma_strictly_sorted_unique(da, db, below);
    }
    lemma_index_text_of_equal(a, b);
}

/// A word that one index lists is listed by any index that says the same.
proof fn lemma_word_listed(a: Seq<Posting>, b: Seq<Posting>, last: int, w: Seq<u8>)
    requires
        index_wf(a, last),
        index_wf(b, last),
        content(a) == content(b),
        words_in(a).contains(w),
    ensures
        words_in(b).contains(w),
{
    let i = choose|i: int| 0 <= i < words_in(a).len() && words_in(a)[i] == w;
    assert(docs_sorted(a[i].docs@, last));
    let d = a[i].docs@[0];
    assert(a[i].word@ == w && a[i].docs@[0] == d);
    assert(has(a, w, d as int));
    assert(content(a).contains((w, d as int)));
    assert(content(b).contains((w, d as int)));
    assert(has(b, w, d as int));
    let (k, j) = choose|k: int, j: int|
        0 <= k < b.len() && 0 <= j < b[k].docs@.len() && (#[trigger] b[k]).word@ == w
            && #[trigger] b[k].docs@[j] == d as int;
    assert(words_in(b)[k] == w);
}

/// A document that one index lists for its entry `i` is listed there by an
/// index that says the same and has the same words.
proof fn lemma_doc_listed(a: Seq<Posting>, b: Seq<Posting>, last: int, i: int, d: usize)
    requires
        index_wf(a, last),
        index_wf(b, last),
        content(a) == content(b),
        words_in(a) == words_in(b),
        0 <= i < a.len(),
        a[i].docs@.contains(d),
    ensures
        b[i].docs@.contains(d),
{
    let w = a[i].word@;
    let q = choose|q: int| 0 <= q < a[i].docs@.len() && a[i].docs@[q] == d;
    assert(a[i].word@ == w && a[i].docs@[q] == d as int);
    assert(has(a, w, d as int));
    assert(content(a).contains((w, d as int)));
    assert(content(b).contains((w, d as int)));
    assert(has(b, w, d as int));
    let (k, j) = choose|k: int, j: int|
        0 <= k < b.len() && 0 <= j < b[k].docs@.len() && (#[trigger] b[k]).word@ == w
            && #[trigger] b[k].docs@[j] == d as int;
    assert(a.len() == words_in(a).len());
    assert(b.len() == words_in(b).len());
    assert(words_in(a)[i] == w);
    assert(words_in(b)[i] == b[i].word@);
    if k < i {
        assert(lex_less(b[k].word@, b[i].word@));
        lemma_lex_less_differs(b[k].word@, b[i].word@);
    } else if k > i {
        assert(lex_less(b[i].word@, b[k].word@));
        lemma_lex_less_differs(b[i].word@, b[k].word@);
    }
    assert(b[i].docs@[j] == d);
}

/// Indexes with the same words and documents have the same text.
proof fn lemma_index_text_of_equal(a: Seq<Posting>, b: Seq<Posting>)
    requires
        a.len() == b.len(),
        forall|i: int|
            0 <= i < a.len() ==> (#[trigger] a[i]).word@ == b[i].word@ && a[i].docs@ == b[i].docs@,
    ensures
        index_text(a) == index_text(b),
    decreases a.len(),
{
    if a.len() > 0 {
        lemma_index_text_of_equal(a.drop_last(), b.drop_last());
        assert(a.last().word@ == b.last().word@ && a.last().docs@ == b.last().docs@) by {
            assert(a[a.len() - 1].word@ == b[a.len() - 1].word@);
        }
    }
}

} // verus!
