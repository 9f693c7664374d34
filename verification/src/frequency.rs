//! Term frequency of a word in a document and inverse document frequency of
//! a word in a list of documents.

use vstd::prelude::*;
use crate::document::{Document, DocumentView};
use crate::score::{idf_argument, lemma_idf_argument_order, InverseDocumentFrequency, TermFrequency};

verus! {

/// The models of a list of documents.
pub open spec fn views(docs: Seq<Document>) -> Seq<DocumentView> {
    docs.map_values(|d: Document| d@)
}

/// Every document of the list is well formed.
pub open spec fn all_wf(docs: Seq<Document>) -> bool {
    forall|i: int| 0 <= i < docs.len() ==> (#[trigger] docs[i]).wf()
}

/// Whether `word` occurs in `doc`.
pub open spec fn holds(doc: DocumentView, word: Seq<char>) -> bool {
    doc.term_freq.count(word) > 0
}

/// Whether `word` occurs in one of `docs`.
pub open spec fn occurs(docs: Seq<DocumentView>, word: Seq<char>) -> bool {
    exists|i: int| 0 <= i < docs.len() && holds(#[trigger] docs[i], word)
}

/// The number of documents in which `word` occurs.
pub open spec fn document_frequency(docs: Seq<DocumentView>, word: Seq<char>) -> nat {
    docs.filter(|d: DocumentView| holds(d, word)).len()
}

/// One more document raises the document frequency by one if it holds the
/// word, and leaves it otherwise.
pub proof fn lemma_document_frequency_push(
    docs: Seq<DocumentView>,
    doc: DocumentView,
    word: Seq<char>,
)
    ensures
        document_frequency(docs.push(doc), word) == document_frequency(docs, word) + if holds(
            doc,
            word,
        ) {
            1nat
        } else {
            0nat
        },
        document_frequency(docs, word) <= docs.len(),
{
    reveal(Seq::filter);
    assert(docs.push(doc).drop_last() =~= docs);
    docs.lemma_filter_len(|d: DocumentView| holds(d, word));
}

/// A word that occurs in no document has document frequency zero, and
/// conversely.
pub proof fn lemma_document_frequency_zero(docs: Seq<DocumentView>, word: Seq<char>)
    ensures
        document_frequency(docs, word) == 0 <==> !occurs(docs, word),
    decreases docs.len(),
{
    if docs.len() > 0 {
        let rest = docs.drop_last();
        let last = docs.last();
        lemma_document_frequency_zero(rest, word);
        lemma_document_frequency_push(rest, last, word);
        assert(rest.push(last) =~= docs);
        if occurs(docs, word) {
            let i = choose|i: int| 0 <= i < docs.len() && holds(#[trigger] docs[i], word);
            if i < rest.len() {
                assert(holds(rest[i], word));
            }
        }
        if occurs(rest, word) {
            let i = choose|i: int| 0 <= i < rest.len() && holds(#[trigger] rest[i], word);
            assert(holds(docs[i], word));
        }
        if holds(last, word) {
            assert(holds(docs[docs.len() - 1], word));
        }
    } else {
        reveal(Seq::filter);
    }
}

/// A word that occurs in every document has the number of documents as its
/// document frequency. The argument of its logarithm, `N / (N + 1)`, is below
/// one, so its inverse document frequency is negative.
pub proof fn lemma_idf_of_common_word(docs: Seq<DocumentView>, word: Seq<char>)
    requires
        forall|i: int| 0 <= i < docs.len() ==> holds(#[trigger] docs[i], word),
    ensures
        document_frequency(docs, word) == docs.len(),
        idf_argument(docs.len(), document_frequency(docs, word)) == docs.len() as real / (docs.len()
            + 1) as real,
        idf_argument(docs.len(), document_frequency(docs, word)) < 1real,
    decreases docs.len(),
{
    if docs.len() > 0 {
        let rest = docs.drop_last();
        let last = docs.last();
        assert forall|i: int| 0 <= i < rest.len() implies holds(#[trigger] rest[i], word) by {
            assert(holds(docs[i], word));
        }
        lemma_idf_of_common_word(rest, word);
        lemma_document_frequency_push(rest, last, word);
        assert(rest.push(last) =~= docs);
        assert(holds(docs[docs.len() - 1], word));
    } else {
        reveal(Seq::filter);
    }
    lemma_idf_argument_order(docs.len(), document_frequency(docs, word));
}

/// The term frequency of `word` in `doc`: its count over the number of
/// tokens of the document.
pub fn calculate_tf(word: &str, doc: &Document) -> (tf: TermFrequency)
    requires
        doc.wf(),
    ensures
        tf.count == doc@.term_freq.count(word@),
        tf.total == doc@.token_count,
{
    TermFrequency { count: doc.term_freq().count(word), total: doc.token_count() }
}

/// The inverse document frequency of `word` in `docs`: the number of
/// documents and the number of those that hold the word.
pub fn calculate_idf(word: &str, docs: &Vec<Document>) -> (idf: InverseDocumentFrequency)
    requires
        all_wf(docs@),
    ensures
        idf.documents == docs.len(),
        idf.containing == document_frequency(views(docs@), word@),
{
    let mut containing: usize = 0;
    let mut i: usize = 0;
    proof {
        reveal(Seq::filter);
        assert(views(docs@).take(0) =~= Seq::<DocumentView>::empty());
    }
    while i < docs.len()
        invariant
            all_wf(docs@),
            i <= docs.len(),
            containing == document_frequency(views(docs@).take(i as int), word@),
            containing <= i,
        decreases docs.len() - i,
    {
        proof {
            let seen = views(docs@).take(i as int);
            lemma_document_frequency_push(seen, docs@[i as int]@, word@);
            assert(views(docs@).take(i + 1) =~= seen.push(docs@[i as int]@));
        }
        if docs[i].term_freq().contains(word) {
            containing += 1;
        }
        i += 1;
    }
    proof {
        assert(views(docs@).take(docs.len() as int) =~= views(docs@));
    }
    InverseDocumentFrequency { documents: docs.len(), containing }
}

} // verus!
