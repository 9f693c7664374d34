//! The corpus: the documents, their index, the inverse document frequency of
//! every indexed word and the ranking of the documents for every such word.
//! A query looks a word up among the rankings.

use vstd::prelude::*;
use vstd::multiset::*;
use crate::document::{Document, DocumentView};
use crate::frequency::{all_wf, calculate_idf, occurs, views};
use crate::index::{
    build_index, distinct_paths, index_holds, index_of_docs, lemma_indexed_word_occurs,
    lemma_occurring_word_indexed, Index,
};
use crate::ranking::{
    is_idf_of, is_ranking, is_ranking_by, lemma_ranking_of_occurring_word, rank_documents, Ranked,
};
use crate::score::InverseDocumentFrequency;
use crate::string_map::StringMap;

verus! {

/// The inverse document frequency of every indexed word.
pub type IdfTable = StringMap<InverseDocumentFrequency>;

/// The ranking of the documents for every indexed word.
pub type Rankings = StringMap<Vec<Ranked>>;

/// Whether one of the first `n` tables holds `word`.
spec fn held_upto(tables: Seq<Multiset<Seq<char>>>, n: int, word: Seq<char>) -> bool {
    exists|i: int| 0 <= i < n && i < tables.len() && (#[trigger] tables[i]).count(word) > 0
}

/// Whether `word` is one of the first `n` of `words`.
spec fn listed_upto(words: Seq<Seq<char>>, n: int, word: Seq<char>) -> bool {
    exists|j: int| 0 <= j < n && j < words.len() && #[trigger] words[j] == word
}

/// Computes the inverse document frequency in `docs` of every word that the
/// index holds, each word once.
pub fn build_idf_table(index: &Index, docs: &Vec<Document>) -> (table: IdfTable)
    requires
        index.wf(),
        all_wf(docs@),
    ensures
        table.wf(),
        forall|word: Seq<char>| #[trigger] table@.contains_key(word) <==> index_holds(index@, word),
        forall|word: Seq<char>| #[trigger]
            table@.contains_key(word) ==> is_idf_of(table@[word], views(docs@), word),
{
    let mut table: IdfTable = StringMap::new();
    let n = index.len();
    let mut i: usize = 0;
    while i < n
        invariant
            index.wf(),
            all_wf(docs@),
            n == index.spec_paths().len(),
            i <= n,
            table.wf(),
            forall|word: Seq<char>| #[trigger]
                table@.contains_key(word) <==> held_upto(index.spec_tables(), i as int, word),
            forall|word: Seq<char>| #[trigger]
                table@.contains_key(word) ==> is_idf_of(table@[word], views(docs@), word),
        decreases n - i,
    {
        let words = index.table_at(i);
        let m = words.distinct();
        let mut j: usize = 0;
        proof {
            index.lemma_positions();
        }
        while j < m
            invariant
                index.wf(),
                all_wf(docs@),
                n == index.spec_paths().len(),
                n == index.spec_tables().len(),
                i < n,
                words.wf(),
                words@ == index.spec_tables()[i as int],
                m == words.spec_words().len(),
                j <= m,
                table.wf(),
                forall|word: Seq<char>| #[trigger]
                    table@.contains_key(word) <==> held_upto(index.spec_tables(), i as int, word)
                        || listed_upto(words.spec_words(), j as int, word),
                forall|word: Seq<char>| #[trigger]
                    table@.contains_key(word) ==> is_idf_of(table@[word], views(docs@), word),
            decreases m - j,
        {
            let word = words.word_at(j);
            let ghost before = table@;
            if !table.contains_key(word.as_str()) {
                let idf = calculate_idf(word.as_str(), docs);
                table.insert(word.clone(), idf);
            }
            proof {
                assert forall|w: Seq<char>| #[trigger]
                    table@.contains_key(w) <==> held_upto(index.spec_tables(), i as int, w)
                        || listed_upto(words.spec_words(), j + 1, w) by {
                    if listed_upto(words.spec_words(), j + 1, w) {
                        let k = choose|k: int|
                            0 <= k < j + 1 && k < words.spec_words().len()
                                && #[trigger] words.spec_words()[k] == w;
                        if k < j {
                            assert(listed_upto(words.spec_words(), j as int, w));
                        }
                    }
                    if listed_upto(words.spec_words(), j as int, w) {
                        let k = choose|k: int|
                            0 <= k < j && k < words.spec_words().len()
                                && #[trigger] words.spec_words()[k] == w;
                        assert(listed_upto(words.spec_words(), j + 1, w));
                    }
                    if w == word@ {
                        assert(words.spec_words()[j as int] == w);
                        assert(listed_upto(words.spec_words(), j + 1, w));
                    }
                }
            }
            j += 1;
        }
        proof {
            words.lemma_words();
            assert forall|w: Seq<char>| #[trigger]
                table@.contains_key(w) <==> held_upto(index.spec_tables(), i + 1, w) by {
                if listed_upto(words.spec_words(), m as int, w) {
                    assert(words.spec_words().contains(w));
                    assert(index.spec_tables()[i as int].count(w) > 0);
                    assert(held_upto(index.spec_tables(), i + 1, w));
                }
                if held_upto(index.spec_tables(), i as int, w) {
                    let k = choose|k: int|
                        0 <= k < i && k < index.spec_tables().len() && (
                        #[trigger] index.spec_tables()[k]).count(w) > 0;
                    assert(held_upto(index.spec_tables(), i + 1, w));
                }
                if held_upto(index.spec_tables(), i + 1, w) {
                    let k = choose|k: int|
                        0 <= k < i + 1 && k < index.spec_tables().len() && (
                        #[trigger] index.spec_tables()[k]).count(w) > 0;
                    if k < i {
                        assert(held_upto(index.spec_tables(), i as int, w));
                    } else {
                        assert(words.spec_words().contains(w));
                        let p = words.spec_words().index_of(w);
                        assert(words.spec_words()[p] == w);
                        assert(listed_upto(words.spec_words(), m as int, w));
                    }
                }
            }
        }
        i += 1;
    }
    proof {
        index.lemma_positions();
        assert forall|word: Seq<char>| #[trigger]
            table@.contains_key(word) <==> index_holds(index@, word) by {
            index.lemma_holds(word);
            if held_upto(index.spec_tables(), n as int, word) {
                let k = choose|k: int|
                    0 <= k < n && k < index.spec_tables().len() && (
                    #[trigger] index.spec_tables()[k]).count(word) > 0;
                assert(index.spec_tables()[k].count(word) > 0);
            }
            if index_holds(index@, word) {
                let k = choose|k: int|
                    0 <= k < index.spec_tables().len() && (
                    #[trigger] index.spec_tables()[k]).count(word) > 0;
                assert(held_upto(index.spec_tables(), n as int, word));
            }
        }
    }
    table
}

/// Ranks `docs` for every word of the table, with the inverse document
/// frequency that the table holds for the word.
pub fn build_rankings(idf: &IdfTable, docs: &Vec<Document>) -> (rankings: Rankings)
    requires
        idf.wf(),
        all_wf(docs@),
    ensures
        rankings.wf(),
        forall|word: Seq<char>| #[trigger]
            rankings@.contains_key(word) <==> idf@.contains_key(word),
        forall|word: Seq<char>| #[trigger]
            rankings@.contains_key(word) ==> is_ranking_by(
                rankings@[word]@,
                views(docs@),
                word,
                idf@[word],
            ),
{
    let mut rankings: Rankings = StringMap::new();
    let n = idf.len();
    let mut i: usize = 0;
    while i < n
        invariant
            idf.wf(),
            all_wf(docs@),
            n == idf.spec_keys().len(),
            i <= n,
            rankings.wf(),
            forall|word: Seq<char>| #[trigger]
                rankings@.contains_key(word) <==> listed_upto(idf.spec_keys(), i as int, word),
            forall|word: Seq<char>| #[trigger]
                rankings@.contains_key(word) ==> idf@.contains_key(word) && is_ranking_by(
                    rankings@[word]@,
                    views(docs@),
                    word,
                    idf@[word],
                ),
        decreases n - i,
    {
        let word = idf.key_at(i);
        let value = *idf.value_at(i);
        let ranking = rank_documents(word.as_str(), value, docs);
        rankings.insert(word.clone(), ranking);
        proof {
            assert forall|w: Seq<char>| #[trigger]
                rankings@.contains_key(w) <==> listed_upto(idf.spec_keys(), i + 1, w) by {
                if listed_upto(idf.spec_keys(), i + 1, w) {
                    let k = choose|k: int|
                        0 <= k < i + 1 && k < idf.spec_keys().len() && #[trigger] idf.spec_keys()[k]
                            == w;
                    if k < i {
                        assert(listed_upto(idf.spec_keys(), i as int, w));
                    }
                }
                if listed_upto(idf.spec_keys(), i as int, w) {
                    let k = choose|k: int|
                        0 <= k < i && k < idf.spec_keys().len() && #[trigger] idf.spec_keys()[k]
                            == w;
                    assert(listed_upto(idf.spec_keys(), i + 1, w));
                }
                if w == word@ {
                    assert(idf.spec_keys()[i as int] == w);
                    assert(listed_upto(idf.spec_keys(), i + 1, w));
                }
            }
        }
        i += 1;
    }
    proof {
        assert forall|word: Seq<char>| #[trigger]
            rankings@.contains_key(word) <==> idf@.contains_key(word) by {
            if idf@.contains_key(word) {
                let k = idf.lemma_key_position(word);
                assert(idf.spec_keys()[k] == word);
                assert(listed_upto(idf.spec_keys(), n as int, word));
            }
        }
    }
    rankings
}

/// The documents of one indexing run with all that was computed from them.
#[derive(Debug)]
pub struct Corpus {
    documents: Vec<Document>,
    index: Index,
    idf: IdfTable,
    rankings: Rankings,
}

impl Corpus {
    /// The models of the documents, in the order in which the corpus holds them.
    pub closed spec fn spec_documents(&self) -> Seq<DocumentView> {
        views(self.documents@)
    }

    /// The model of the index of the corpus.
    pub open spec fn spec_index(&self) -> Map<Seq<char>, Multiset<Seq<char>>> {
        index_of_docs(self.spec_documents())
    }

    /// Whether the corpus has seen `word`: some table of its index holds it.
    pub open spec fn knows(&self, word: Seq<char>) -> bool {
        index_holds(self.spec_index(), word)
    }

    /// The index, the table of inverse document frequencies and the rankings
    /// are those of the documents.
    pub closed spec fn wf(&self) -> bool {
        &&& all_wf(self.documents@)
        &&& self.index.wf()
        &&& self.index@ == index_of_docs(views(self.documents@))
        &&& self.idf.wf()
        &&& self.rankings.wf()
        &&& forall|word: Seq<char>| #[trigger]
            self.idf@.contains_key(word) <==> index_holds(self.index@, word)
        &&& forall|word: Seq<char>| #[trigger]
            self.idf@.contains_key(word) ==> is_idf_of(
                self.idf@[word],
                views(self.documents@),
                word,
            )
        &&& forall|word: Seq<char>| #[trigger]
            self.rankings@.contains_key(word) <==> self.idf@.contains_key(word)
        &&& forall|word: Seq<char>| #[trigger]
            self.rankings@.contains_key(word) ==> is_ranking_by(
                self.rankings@[word]@,
                views(self.documents@),
                word,
                self.idf@[word],
            )
    }

    /// Indexes `documents`: builds the index, computes the inverse document
    /// frequency of every indexed word, and ranks the documents for each.
    pub fn build(documents: Vec<Document>) -> (corpus: Corpus)
        requires
            all_wf(documents@),
        ensures
            corpus.wf(),
            corpus.spec_documents() == views(documents@),
    {
        let index = build_index(&documents);
        let idf = build_idf_table(&index, &documents);
        let rankings = build_rankings(&idf, &documents);
        Corpus { documents, index, idf, rankings }
    }

    /// The number of documents.
    pub fn len(&self) -> (n: usize)
        ensures
            n == self.spec_documents().len(),
    {
        self.documents.len()
    }

    /// The document at position `i`, the position that rankings refer to.
    pub fn document(&self, i: usize) -> (doc: &Document)
        requires
            self.wf(),
            i < self.spec_documents().len(),
        ensures
            doc.wf(),
            doc@ == self.spec_documents()[i as int],
    {
        &self.documents[i]
    }

    /// The documents.
    pub fn documents(&self) -> (docs: &Vec<Document>)
        requires
            self.wf(),
        ensures
            all_wf(docs@),
            views(docs@) == self.spec_documents(),
    {
        &self.documents
    }

    /// The index.
    pub fn index(&self) -> (index: &Index)
        requires
            self.wf(),
        ensures
            index.wf(),
            index@ == self.spec_index(),
    {
        &self.index
    }

    /// The inverse document frequency of `word`, if the corpus knows the word.
    pub fn idf(&self, word: &str) -> (r: Option<InverseDocumentFrequency>)
        requires
            self.wf(),
        ensures
            match r {
                Some(idf) => self.knows(word@) && is_idf_of(idf, self.spec_documents(), word@),
                None => !self.knows(word@),
            },
    {
        match self.idf.get(word) {
            Some(idf) => Some(*idf),
            None => None,
        }
    }

    /// The ranking of the documents for `word`, or `None` if the corpus has
    /// never seen the word.
    pub fn query(&self, word: &str) -> (r: Option<&Vec<Ranked>>)
        requires
            self.wf(),
        ensures
            match r {
                Some(ranking) => self.knows(word@) && is_ranking(
                    ranking@,
                    self.spec_documents(),
                    word@,
                ),
                None => !self.knows(word@),
            },
    {
        let found = self.rankings.get(word);
        proof {
            if found is Some {
                assert(self.idf@.contains_key(word@));
                assert(is_idf_of(self.idf@[word@], self.spec_documents(), word@));
            }
        }
        found
    }
}

/// The ranking for a word that the corpus knows is never all zero: the word
/// occurs in a document, and that document has a score above zero.
pub proof fn lemma_known_word_scores(corpus: Corpus, ranking: Seq<Ranked>, word: Seq<char>)
    requires
        corpus.wf(),
        corpus.knows(word),
        is_ranking(ranking, corpus.spec_documents(), word),
    ensures
        exists|i: int| 0 <= i < ranking.len() && (#[trigger] ranking[i]).score.tf.value() > 0real,
{
    let docs = corpus.spec_documents();
    lemma_indexed_word_occurs(docs, word);
    assert forall|i: int| 0 <= i < docs.len() implies (#[trigger] docs[i]).wf() by {
        corpus.documents@[i].lemma_view_wf();
    }
    lemma_ranking_of_occurring_word(ranking, docs, word);
}

/// A word that occurs in no document is unknown to the corpus.
pub proof fn lemma_absent_word_unknown(corpus: Corpus, word: Seq<char>)
    requires
        !occurs(corpus.spec_documents(), word),
    ensures
        !corpus.knows(word),
{
    if corpus.knows(word) {
        lemma_indexed_word_occurs(corpus.spec_documents(), word);
    }
}

/// Where no two documents have the same path, the corpus knows exactly the
/// words that occur in one of its documents.
pub proof fn lemma_known_words(corpus: Corpus, word: Seq<char>)
    requires
        distinct_paths(corpus.spec_documents()),
    ensures
        corpus.knows(word) <==> occurs(corpus.spec_documents(), word),
{
    if corpus.knows(word) {
        lemma_indexed_word_occurs(corpus.spec_documents(), word);
    }
    if occurs(corpus.spec_documents(), word) {
        lemma_occurring_word_indexed(corpus.spec_documents(), word);
    }
}

} // verus!
