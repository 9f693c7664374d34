//! Ranking the documents of a list for one word: every document gets its
//! score, and the documents come out with the highest score first.
//!
//! Documents with equal scores keep the order in which the list holds them,
//! so a list of documents and a word have exactly one ranking.

use vstd::prelude::*;
use vstd::multiset::*;
use vstd::seq_lib::{
    lemma_multiset_commutative, to_multiset_build, to_multiset_contains, to_multiset_len,
};
use crate::document::{Document, DocumentView};
use crate::frequency::{
    all_wf, calculate_idf, calculate_tf, document_frequency, holds, occurs, views,
};
use crate::score::{
    has_sign_of, lemma_quotient_order, lemma_rank_key_orders_values, InverseDocumentFrequency, Score,
};

verus! {

/// One entry of a ranking: the position of a document in the list of
/// documents, and the score of that document.
#[derive(Debug, Clone, Copy, PartialEq, Eq, Structural)]
pub struct Ranked {
    pub doc: usize,
    pub score: Score,
}

/// Whether `a` stands before `b` in a ranking: it has the higher score, or
/// the same score and the earlier document.
pub open spec fn precedes(a: Ranked, b: Ranked) -> bool {
    a.score.rank_key() > b.score.rank_key() || (a.score.rank_key() == b.score.rank_key() && a.doc
        < b.doc)
}

/// No entry stands behind one that it precedes.
pub open spec fn is_ordered(r: Seq<Ranked>) -> bool {
    forall|i: int, j: int| 0 <= i < j < r.len() ==> !precedes(#[trigger] r[j], #[trigger] r[i])
}

/// Whether `idf` is the inverse document frequency of `word` in `docs`.
pub open spec fn is_idf_of(
    idf: InverseDocumentFrequency,
    docs: Seq<DocumentView>,
    word: Seq<char>,
) -> bool {
    &&& idf.documents == docs.len()
    &&& idf.containing == document_frequency(docs, word)
}

/// Whether `score` is made of `idf` and of the term frequency of `word` in `doc`.
pub open spec fn is_score_by(
    score: Score,
    idf: InverseDocumentFrequency,
    doc: DocumentView,
    word: Seq<char>,
) -> bool {
    &&& score.idf == idf
    &&& score.tf.count == doc.term_freq.count(word)
    &&& score.tf.total == doc.token_count
}

/// Whether the document at position `d` has an entry in `r`.
pub open spec fn lists(r: Seq<Ranked>, d: int) -> bool {
    exists|i: int| 0 <= i < r.len() && (#[trigger] r[i]).doc == d
}

/// Whether `r` ranks `docs` for `word`, with `idf` taken as the inverse
/// document frequency of the word: every document occurs in `r`, every entry
/// holds the score of its document, and each entry precedes those behind it.
pub open spec fn is_ranking_by(
    r: Seq<Ranked>,
    docs: Seq<DocumentView>,
    word: Seq<char>,
    idf: InverseDocumentFrequency,
) -> bool {
    &&& r.len() == docs.len()
    &&& forall|i: int|
        0 <= i < r.len() ==> (#[trigger] r[i]).doc < docs.len() && is_score_by(
            r[i].score,
            idf,
            docs[r[i].doc as int],
            word,
        )
    &&& forall|d: int| 0 <= d < docs.len() ==> #[trigger] lists(r, d)
    &&& forall|i: int, j: int| 0 <= i < j < r.len() ==> precedes(#[trigger] r[i], #[trigger] r[j])
}

/// Whether `r` is the ranking of `docs` for `word`.
pub open spec fn is_ranking(r: Seq<Ranked>, docs: Seq<DocumentView>, word: Seq<char>) -> bool {
    exists|idf: InverseDocumentFrequency| #[trigger]
        is_idf_of(idf, docs, word) && is_ranking_by(r, docs, word, idf)
}

/// Whether `a` stands before `b` in a ranking.
pub fn comes_before(a: &Ranked, b: &Ranked) -> (r: bool)
    ensures
        r == precedes(*a, *b),
{
    a.score.higher_than(&b.score) || (a.score.level_with(&b.score) && a.doc < b.doc)
}

/// Merges two ordered lists into one.
fn merge(left: &Vec<Ranked>, right: &Vec<Ranked>) -> (merged: Vec<Ranked>)
    requires
        is_ordered(left@),
        is_ordered(right@),
        left.len() + right.len() <= usize::MAX,
    ensures
        is_ordered(merged@),
        merged@.to_multiset() == left@.to_multiset().add(right@.to_multiset()),
        merged.len() == left.len() + right.len(),
{
    let mut merged: Vec<Ranked> = Vec::new();
    let mut i: usize = 0;
    let mut j: usize = 0;
    proof {
        broadcast use group_multiset_axioms;

        let none = Seq::<Ranked>::empty();
        assert(left@.take(0) =~= none);
        assert(right@.take(0) =~= none);
        assert(merged@ =~= none);
        to_multiset_len(none);
        lemma_multiset_empty_len(none.to_multiset());
        assert(merged@.to_multiset() =~= left@.take(0).to_multiset().add(
            right@.take(0).to_multiset(),
        ));
    }
    while i < left.len() || j < right.len()
        invariant
            is_ordered(left@),
            is_ordered(right@),
            i <= left.len(),
            j <= right.len(),
            merged.len() == i + j,
            is_ordered(merged@),
            merged@.to_multiset() == left@.take(i as int).to_multiset().add(
                right@.take(j as int).to_multiset(),
            ),
            forall|k: int, m: int|
                0 <= k < merged.len() && i <= m < left.len() ==> !precedes(
                    #[trigger] left[m],
                    #[trigger] merged[k],
                ),
            forall|k: int, m: int|
                0 <= k < merged.len() && j <= m < right.len() ==> !precedes(
                    #[trigger] right[m],
                    #[trigger] merged[k],
                ),
        decreases left.len() - i + right.len() - j,
    {
        let from_left = if i == left.len() {
            false
        } else if j == right.len() {
            true
        } else {
            !comes_before(&right[j], &left[i])
        };
        let ghost before = merged@;
        if from_left {
            let x = left[i];
            merged.push(x);
            proof {
                broadcast use group_multiset_axioms;

                assert(left@.take(i + 1) =~= left@.take(i as int).push(x));
                to_multiset_build(left@.take(i as int), x);
                to_multiset_build(before, x);
                assert(merged@.to_multiset() =~= left@.take(i + 1).to_multiset().add(
                    right@.take(j as int).to_multiset(),
                ));
                assert forall|k: int, m: int|
                    0 <= k < merged.len() && j <= m < right.len() implies !precedes(
                    #[trigger] right[m],
                    #[trigger] merged[k],
                ) by {
                    if k == before.len() {
                        assert(!precedes(right[j as int], x));
                        if m > j {
                            assert(!precedes(right[m], right[j as int]));
                        }
                    } else {
                        assert(merged[k] == before[k]);
                    }
                }
                assert forall|k: int, m: int|
                    0 <= k < merged.len() && i + 1 <= m < left.len() implies !precedes(
                    #[trigger] left[m],
                    #[trigger] merged[k],
                ) by {
                    if k == before.len() {
                        assert(!precedes(left[m], left[i as int]));
                    } else {
                        assert(merged[k] == before[k]);
                    }
                }
                assert forall|a: int, b: int| 0 <= a < b < merged.len() implies !precedes(
                    #[trigger] merged[b],
                    #[trigger] merged[a],
                ) by {
                    if b == before.len() {
                        assert(merged[a] == before[a]);
                        assert(!precedes(left[i as int], before[a]));
                    } else {
                        assert(merged[a] == before[a] && merged[b] == before[b]);
                    }
                }
            }
            i += 1;
        } else {
            let y = right[j];
            merged.push(y);
            proof {
                broadcast use group_multiset_axioms;

                assert(right@.take(j + 1) =~= right@.take(j as int).push(y));
                to_multiset_build(right@.take(j as int), y);
                to_multiset_build(before, y);
                assert(merged@.to_multiset() =~= left@.take(i as int).to_multiset().add(
                    right@.take(j + 1).to_multiset(),
                ));
                assert forall|k: int, m: int|
                    0 <= k < merged.len() && i <= m < left.len() implies !precedes(
                    #[trigger] left[m],
                    #[trigger] merged[k],
                ) by {
                    if k == before.len() {
                        assert(precedes(y, left[i as int]));
                        if m > i {
                            assert(!precedes(left[m], left[i as int]));
                        }
                    } else {
                        assert(merged[k] == before[k]);
                    }
                }
                assert forall|k: int, m: int|
                    0 <= k < merged.len() && j + 1 <= m < right.len() implies !precedes(
                    #[trigger] right[m],
                    #[trigger] merged[k],
                ) by {
                    if k == before.len() {
                        assert(!precedes(right[m], right[j as int]));
                    } else {
                        assert(merged[k] == before[k]);
                    }
                }
                assert forall|a: int, b: int| 0 <= a < b < merged.len() implies !precedes(
                    #[trigger] merged[b],
                    #[trigger] merged[a],
                ) by {
                    if b == before.len() {
                        assert(merged[a] == before[a]);
                        assert(!precedes(right[j as int], before[a]));
                    } else {
                        assert(merged[a] == before[a] && merged[b] == before[b]);
                    }
                }
            }
            j += 1;
        }
    }
    proof {
        assert(left@.take(left.len() as int) =~= left@);
        assert(right@.take(right.len() as int) =~= right@);
    }
    merged
}

/// Orders the entries from `lo` up to `hi` by merging the ordered halves.
fn sort_range(entries: &Vec<Ranked>, lo: usize, hi: usize) -> (sorted: Vec<Ranked>)
    requires
        lo <= hi <= entries.len(),
    ensures
        is_ordered(sorted@),
        sorted@.to_multiset() == entries@.subrange(lo as int, hi as int).to_multiset(),
        sorted.len() == hi - lo,
    decreases hi - lo,
{
    if hi - lo <= 1 {
        let mut sorted: Vec<Ranked> = Vec::new();
        if hi - lo == 1 {
            sorted.push(entries[lo]);
        }
        assert(sorted@ =~= entries@.subrange(lo as int, hi as int));
        sorted
    } else {
        let mid = lo + (hi - lo) / 2;
        let left = sort_range(entries, lo, mid);
        let right = sort_range(entries, mid, hi);
        proof {
            let a = entries@.subrange(lo as int, mid as int);
            let b = entries@.subrange(mid as int, hi as int);
            assert(entries@.subrange(lo as int, hi as int) =~= a + b);
            lemma_multiset_commutative(a, b);
        }
        merge(&left, &right)
    }
}

/// The entries in ranking order: the same entries, none standing behind one
/// that it precedes.
pub fn sort_ranking(entries: &Vec<Ranked>) -> (sorted: Vec<Ranked>)
    ensures
        is_ordered(sorted@),
        sorted@.to_multiset() == entries@.to_multiset(),
        sorted.len() == entries.len(),
{
    assert(entries@.subrange(0, entries.len() as int) =~= entries@);
    sort_range(entries, 0, entries.len())
}

/// The score of every document for `word`, in the order of the documents.
fn score_documents(word: &str, idf: InverseDocumentFrequency, docs: &Vec<Document>) -> (entries:
    Vec<Ranked>)
    requires
        all_wf(docs@),
    ensures
        entries.len() == docs.len(),
        forall|i: int|
            0 <= i < entries.len() ==> (#[trigger] entries[i]).doc == i && is_score_by(
                entries[i].score,
                idf,
                docs[i]@,
                word@,
            ),
{
    let mut entries: Vec<Ranked> = Vec::new();
    let mut i: usize = 0;
    while i < docs.len()
        invariant
            all_wf(docs@),
            i <= docs.len(),
            entries.len() == i,
            forall|k: int|
                0 <= k < entries.len() ==> (#[trigger] entries[k]).doc == k && is_score_by(
                    entries[k].score,
                    idf,
                    docs[k]@,
                    word@,
                ),
        decreases docs.len() - i,
    {
        let tf = calculate_tf(word, &docs[i]);
        entries.push(Ranked { doc: i, score: Score { idf, tf } });
        i += 1;
    }
    entries
}

/// Ordering the scored documents gives the ranking.
proof fn lemma_sorted_scores_rank(
    entries: Seq<Ranked>,
    sorted: Seq<Ranked>,
    docs: Seq<DocumentView>,
    word: Seq<char>,
    idf: InverseDocumentFrequency,
)
    requires
        entries.len() == docs.len(),
        forall|i: int|
            0 <= i < entries.len() ==> (#[trigger] entries[i]).doc == i && is_score_by(
                entries[i].score,
                idf,
                docs[i],
                word,
            ),
        is_ordered(sorted),
        sorted.to_multiset() == entries.to_multiset(),
        sorted.len() == entries.len(),
    ensures
        is_ranking_by(sorted, docs, word, idf),
{
    assert forall|i: int| 0 <= i < sorted.len() implies (#[trigger] sorted[i]).doc < docs.len()
        && sorted[i] == entries[sorted[i].doc as int] by {
        let x = sorted[i];
        assert(sorted.contains(x));
        to_multiset_contains(sorted, x);
        to_multiset_contains(entries, x);
        let k = choose|k: int| 0 <= k < entries.len() && entries[k] == x;
        assert(entries[k].doc == k);
    }
    assert forall|d: int| 0 <= d < docs.len() implies #[trigger] lists(sorted, d) by {
        let x = entries[d];
        assert(entries.contains(x));
        to_multiset_contains(entries, x);
        to_multiset_contains(sorted, x);
        let i = choose|i: int| 0 <= i < sorted.len() && sorted[i] == x;
        assert(sorted[i].doc == d);
    }
    assert(entries.no_duplicates()) by {
        assert forall|a: int, b: int| 0 <= a < entries.len() && 0 <= b < entries.len() && a
            != b implies entries[a] != entries[b] by {
            assert(entries[a].doc == a && entries[b].doc == b);
        }
    }
    entries.lemma_multiset_has_no_duplicates();
    sorted.lemma_multiset_has_no_duplicates_conv();
    assert forall|i: int, j: int| 0 <= i < j < sorted.len() implies precedes(
        #[trigger] sorted[i],
        #[trigger] sorted[j],
    ) by {
        assert(!precedes(sorted[j], sorted[i]));
        assert(sorted[i] != sorted[j]);
        if sorted[i].doc == sorted[j].doc {
            assert(sorted[i] == entries[sorted[i].doc as int]);
            assert(sorted[j] == entries[sorted[j].doc as int]);
        }
    }
}

/// Ranks `docs` for `word`, with `idf` as the inverse document frequency of
/// the word.
pub fn rank_documents(word: &str, idf: InverseDocumentFrequency, docs: &Vec<Document>) -> (ranking:
    Vec<Ranked>)
    requires
        all_wf(docs@),
    ensures
        is_ranking_by(ranking@, views(docs@), word@, idf),
{
    let entries = score_documents(word, idf, docs);
    let ranking = sort_ranking(&entries);
    proof {
        lemma_sorted_scores_rank(entries@, ranking@, views(docs@), word@, idf);
    }
    ranking
}

/// Ranks `docs` for `word`.
pub fn rank(word: &str, docs: &Vec<Document>) -> (ranking: Vec<Ranked>)
    requires
        all_wf(docs@),
    ensures
        is_ranking(ranking@, views(docs@), word@),
{
    let idf = calculate_idf(word, docs);
    let ranking = rank_documents(word, idf, docs);
    assert(is_idf_of(idf, views(docs@), word@));
    ranking
}

/// The scores of a ranking do not rise: no entry has a higher score than one
/// before it, whatever the value of the inverse document frequency is within
/// its sign.
pub proof fn lemma_ranking_descends(
    r: Seq<Ranked>,
    docs: Seq<DocumentView>,
    word: Seq<char>,
    log: real,
)
    requires
        is_ranking(r, docs, word),
        forall|i: int| 0 <= i < r.len() ==> has_sign_of(log, (#[trigger] r[i]).score.idf),
    ensures
        forall|i: int, j: int|
            0 <= i < j < r.len() ==> (#[trigger] r[i]).score.value(log) >= (#[trigger] r[j]).score.value(
                log,
            ),
{
    let idf = choose|idf: InverseDocumentFrequency| #[trigger]
        is_idf_of(idf, docs, word) && is_ranking_by(r, docs, word, idf);
    assert forall|i: int, j: int| 0 <= i < j < r.len() implies (#[trigger] r[i]).score.value(log)
        >= (#[trigger] r[j]).score.value(log) by {
        assert(precedes(r[i], r[j]));
        assert(r[i].score.idf == idf && r[j].score.idf == idf);
        lemma_rank_key_orders_values(r[i].score, r[j].score, log);
    }
}

/// The ranking for a word that occurs in one of the documents holds a score
/// above zero: that of a document in which the word occurs.
pub proof fn lemma_ranking_of_occurring_word(
    r: Seq<Ranked>,
    docs: Seq<DocumentView>,
    word: Seq<char>,
)
    requires
        is_ranking(r, docs, word),
        occurs(docs, word),
        forall|i: int| 0 <= i < docs.len() ==> (#[trigger] docs[i]).wf(),
    ensures
        exists|i: int| 0 <= i < r.len() && (#[trigger] r[i]).score.tf.value() > 0real,
{
    broadcast use group_multiset_axioms;

    let idf = choose|idf: InverseDocumentFrequency| #[trigger]
        is_idf_of(idf, docs, word) && is_ranking_by(r, docs, word, idf);
    let d = choose|d: int| 0 <= d < docs.len() && holds(#[trigger] docs[d], word);
    assert(lists(r, d));
    let i = choose|i: int| 0 <= i < r.len() && (#[trigger] r[i]).doc == d;
    assert(is_score_by(r[i].score, idf, docs[d], word));
    assert(docs[d].wf());
    assert(docs[d].term_freq.count(word) <= docs[d].term_freq.len());
    lemma_quotient_order(r[i].score.tf.count as nat, r[i].score.tf.total as nat, 0, 1);
}

/// Two rankings of the same documents for the same word have the same document
/// at every place.
proof fn lemma_same_place(
    a: Seq<Ranked>,
    b: Seq<Ranked>,
    docs: Seq<DocumentView>,
    word: Seq<char>,
    idf: InverseDocumentFrequency,
    n: int,
)
    requires
        is_ranking_by(a, docs, word, idf),
        is_ranking_by(b, docs, word, idf),
        0 <= n <= a.len(),
    ensures
        forall|i: int| 0 <= i < n ==> a[i] == b[i],
    decreases n,
{
    if n > 0 {
        lemma_same_place(a, b, docs, word, idf, n - 1);
        let i = n - 1;
        let x = a[i];
        let y = b[i];
        assert(is_score_by(x.score, idf, docs[x.doc as int], word));
        assert(is_score_by(y.score, idf, docs[y.doc as int], word));
        if x.doc != y.doc {
            assert(lists(a, y.doc as int));
            assert(lists(b, x.doc as int));
            let ja = choose|j: int| 0 <= j < a.len() && (#[trigger] a[j]).doc == y.doc;
            let jb = choose|j: int| 0 <= j < b.len() && (#[trigger] b[j]).doc == x.doc;
            assert(is_score_by(a[ja].score, idf, docs[y.doc as int], word));
            assert(is_score_by(b[jb].score, idf, docs[x.doc as int], word));
            assert(a[ja] == y);
            assert(b[jb] == x);
            if ja < i {
                assert(a[ja] == b[ja]);
                assert(precedes(b[ja], b[i]));
            }
            if jb < i {
                assert(a[jb] == b[jb]);
                assert(precedes(a[jb], a[i]));
            }
            assert(precedes(a[i], a[ja]));
            assert(precedes(b[i], b[jb]));
        }
    }
}

/// A list of documents and a word have one ranking only: asking again gives
/// the same entries in the same order.
pub proof fn lemma_ranking_unique(
    a: Seq<Ranked>,
    b: Seq<Ranked>,
    docs: Seq<DocumentView>,
    word: Seq<char>,
)
    requires
        is_ranking(a, docs, word),
        is_ranking(b, docs, word),
    ensures
        a == b,
{
    let idf_a = choose|idf: InverseDocumentFrequency| #[trigger]
        is_idf_of(idf, docs, word) && is_ranking_by(a, docs, word, idf);
    let idf_b = choose|idf: InverseDocumentFrequency| #[trigger]
        is_idf_of(idf, docs, word) && is_ranking_by(b, docs, word, idf);
    assert(idf_a == idf_b);
    lemma_same_place(a, b, docs, word, idf_a, a.len() as int);
    assert(a =~= b);
}

} // verus!
