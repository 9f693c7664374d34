//! The corpus index: the frequency table of every document under the path of
//! the document.

use vstd::prelude::*;
use vstd::multiset::*;
use vstd::seq_lib::to_multiset_contains;
use crate::document::{Document, DocumentView};
use crate::frequency::{all_wf, holds, occurs, views};
use crate::string_map::StringMap;
use crate::term_freq::TermFreq;

verus! {

/// The model of an index: the multiset of words under each path.
pub type IndexView = Map<Seq<char>, Multiset<Seq<char>>>;

/// The index of a list of documents: each document is entered under its
/// path, in the order of the list. Where two documents have the same path,
/// the later one stays.
pub open spec fn index_of_docs(docs: Seq<DocumentView>) -> IndexView
    decreases docs.len(),
{
    if docs.len() == 0 {
        Map::empty()
    } else {
        index_of_docs(docs.drop_last()).insert(docs.last().path, docs.last().term_freq)
    }
}

/// Whether some table of the index holds `word`.
pub open spec fn index_holds(index: IndexView, word: Seq<char>) -> bool {
    exists|path: Seq<char>| #[trigger] index.contains_key(path) && index[path].count(word) > 0
}

/// No two documents of the list have the same path.
pub open spec fn distinct_paths(docs: Seq<DocumentView>) -> bool {
    forall|i: int, j: int|
        0 <= i < j < docs.len() ==> (#[trigger] docs[i]).path != (#[trigger] docs[j]).path
}

/// Every entry of the index is the table of the last document with that path.
pub proof fn lemma_index_entry(docs: Seq<DocumentView>, path: Seq<char>) -> (i: int)
    requires
        index_of_docs(docs).contains_key(path),
    ensures
        0 <= i < docs.len(),
        docs[i].path == path,
        index_of_docs(docs)[path] == docs[i].term_freq,
        forall|j: int| i < j < docs.len() ==> (#[trigger] docs[j]).path != path,
    decreases docs.len(),
{
    if docs.last().path == path {
        docs.len() - 1
    } else {
        let i = lemma_index_entry(docs.drop_last(), path);
        assert(docs.drop_last()[i] == docs[i]);
        assert forall|j: int| i < j < docs.len() implies (#[trigger] docs[j]).path != path by {
            if j < docs.len() - 1 {
                assert(docs.drop_last()[j] == docs[j]);
            }
        }
        i
    }
}

/// The path of every document is a path of the index.
pub proof fn lemma_index_paths(docs: Seq<DocumentView>, i: int)
    requires
        0 <= i < docs.len(),
    ensures
        index_of_docs(docs).contains_key(docs[i].path),
    decreases docs.len(),
{
    if i < docs.len() - 1 {
        lemma_index_paths(docs.drop_last(), i);
    }
}

/// Where no two documents have the same path, the index holds the table of
/// every document under its path, whatever the order of the documents.
pub proof fn lemma_index_of_distinct_paths(docs: Seq<DocumentView>, i: int)
    requires
        distinct_paths(docs),
        0 <= i < docs.len(),
    ensures
        index_of_docs(docs).contains_key(docs[i].path),
        index_of_docs(docs)[docs[i].path] == docs[i].term_freq,
{
    lemma_index_paths(docs, i);
    let k = lemma_index_entry(docs, docs[i].path);
    if k < i {
        assert(docs[i].path != docs[i].path);
    }
}

/// Every path of the index is the path of a document.
pub proof fn lemma_index_path_of_document(docs: Seq<DocumentView>, path: Seq<char>)
    requires
        index_of_docs(docs).contains_key(path),
    ensures
        exists|i: int| 0 <= i < docs.len() && (#[trigger] docs[i]).path == path,
{
    let i = lemma_index_entry(docs, path);
    assert(docs[i].path == path);
}

/// The order of the documents does not matter to the index: two lists of
/// the same documents, each path occurring once, have the same index.
pub proof fn lemma_index_order_free(a: Seq<DocumentView>, b: Seq<DocumentView>)
    requires
        a.to_multiset() == b.to_multiset(),
        distinct_paths(a),
        distinct_paths(b),
    ensures
        index_of_docs(a) == index_of_docs(b),
{
    lemma_index_included(a, b);
    lemma_index_included(b, a);
    assert(index_of_docs(a) =~= index_of_docs(b));
}

/// Every entry of the index of `a` is an entry of the index of `b`, where
/// `b` holds the documents of `a`.
proof fn lemma_index_included(a: Seq<DocumentView>, b: Seq<DocumentView>)
    requires
        a.to_multiset() == b.to_multiset(),
        distinct_paths(a),
        distinct_paths(b),
    ensures
        forall|path: Seq<char>| #[trigger]
            index_of_docs(a).contains_key(path) ==> index_of_docs(b).contains_key(path)
                && index_of_docs(b)[path] == index_of_docs(a)[path],
{
    assert forall|path: Seq<char>| #[trigger]
        index_of_docs(a).contains_key(path) implies index_of_docs(b).contains_key(path)
        && index_of_docs(b)[path] == index_of_docs(a)[path] by {
        let i = lemma_index_entry(a, path);
        let doc = a[i];
        assert(a.contains(doc));
        to_multiset_contains(a, doc);
        to_multiset_contains(b, doc);
        let j = choose|j: int| 0 <= j < b.len() && b[j] == doc;
        lemma_index_of_distinct_paths(b, j);
    }
}

/// A word that the index holds occurs in one of the documents.
pub proof fn lemma_indexed_word_occurs(docs: Seq<DocumentView>, word: Seq<char>)
    requires
        index_holds(index_of_docs(docs), word),
    ensures
        occurs(docs, word),
{
    let index = index_of_docs(docs);
    let path = choose|path: Seq<char>| #[trigger]
        index.contains_key(path) && index[path].count(word) > 0;
    let i = lemma_index_entry(docs, path);
    assert(holds(docs[i], word));
}

/// Where no two documents have the same path, the index holds every word
/// that occurs in one of the documents.
pub proof fn lemma_occurring_word_indexed(docs: Seq<DocumentView>, word: Seq<char>)
    requires
        distinct_paths(docs),
        occurs(docs, word),
    ensures
        index_holds(index_of_docs(docs), word),
{
    let i = choose|i: int| 0 <= i < docs.len() && holds(#[trigger] docs[i], word);
    lemma_index_of_distinct_paths(docs, i);
    assert(index_of_docs(docs).contains_key(docs[i].path));
}

/// The frequency tables of the documents, by path.
#[derive(Debug, Clone)]
pub struct Index {
    tables: StringMap<TermFreq>,
}

impl View for Index {
    type V = IndexView;

    closed spec fn view(&self) -> IndexView {
        self.tables@.map_values(|t: TermFreq| t@)
    }
}

impl Index {
    /// No path occurs twice, and every table is well formed.
    pub closed spec fn wf(&self) -> bool {
        &&& self.tables.wf()
        &&& forall|i: int|
            0 <= i < self.tables.spec_values().len() ==> (
            #[trigger] self.tables.spec_values()[i]).wf()
    }

    /// The paths of the index, in the order in which they were first entered.
    pub closed spec fn spec_paths(&self) -> Seq<Seq<char>> {
        self.tables.spec_keys()
    }

    /// The multisets of words of the index, each at the position of its path.
    pub closed spec fn spec_tables(&self) -> Seq<Multiset<Seq<char>>> {
        self.tables.spec_values().map_values(|t: TermFreq| t@)
    }

    /// The entries by position are the entries of the index.
    pub proof fn lemma_positions(&self)
        requires
            self.wf(),
        ensures
            self.spec_paths().len() == self.spec_tables().len(),
            self.spec_paths().no_duplicates(),
            forall|i: int|
                0 <= i < self.spec_paths().len() ==> self@.contains_key(
                    #[trigger] self.spec_paths()[i],
                ) && self@[self.spec_paths()[i]] == self.spec_tables()[i],
            forall|path: Seq<char>| #[trigger]
                self@.contains_key(path) ==> self.spec_paths().contains(path),
    {
        assert forall|i: int| 0 <= i < self.spec_paths().len() implies self@.contains_key(
            #[trigger] self.spec_paths()[i],
        ) && self@[self.spec_paths()[i]] == self.spec_tables()[i] by {
            self.tables.lemma_entry(i);
        }
    }

    /// A word is held by the index exactly if the table at some position
    /// holds it.
    pub proof fn lemma_holds(&self, word: Seq<char>)
        requires
            self.wf(),
        ensures
            index_holds(self@, word) <==> exists|i: int|
                0 <= i < self.spec_tables().len() && (#[trigger] self.spec_tables()[i]).count(word)
                    > 0,
    {
        self.lemma_positions();
        if index_holds(self@, word) {
            let path = choose|path: Seq<char>| #[trigger]
                self@.contains_key(path) && self@[path].count(word) > 0;
            let i = self.spec_paths().index_of(path);
            assert(self.spec_paths()[i] == path);
            assert(self.spec_tables()[i].count(word) > 0);
        }
        if exists|i: int|
            0 <= i < self.spec_tables().len() && (#[trigger] self.spec_tables()[i]).count(word)
                > 0 {
            let i = choose|i: int|
                0 <= i < self.spec_tables().len() && (#[trigger] self.spec_tables()[i]).count(word)
                    > 0;
            assert(self@.contains_key(self.spec_paths()[i]));
        }
    }

    /// An empty index.
    pub fn new() -> (index: Self)
        ensures
            index.wf(),
            index@ == IndexView::empty(),
    {
        let index = Index { tables: StringMap::new() };
        assert(index@ =~= IndexView::empty());
        index
    }

    /// The number of entries.
    pub fn len(&self) -> (n: usize)
        requires
            self.wf(),
        ensures
            n == self.spec_paths().len(),
            n == self@.dom().len(),
    {
        assert(self@.dom() =~= self.tables@.dom());
        self.tables.len()
    }

    /// The path at position `i`.
    pub fn path_at(&self, i: usize) -> (path: &String)
        requires
            self.wf(),
            i < self.spec_paths().len(),
        ensures
            path@ == self.spec_paths()[i as int],
    {
        self.tables.key_at(i)
    }

    /// The table at position `i`.
    pub fn table_at(&self, i: usize) -> (table: &TermFreq)
        requires
            self.wf(),
            i < self.spec_paths().len(),
        ensures
            table.wf(),
            table@ == self.spec_tables()[i as int],
    {
        self.tables.value_at(i)
    }

    /// The table under `path`, if the index has one.
    pub fn get(&self, path: &str) -> (r: Option<&TermFreq>)
        requires
            self.wf(),
        ensures
            match r {
                Some(table) => self@.contains_key(path@) && table@ == self@[path@] && table.wf(),
                None => !self@.contains_key(path@),
            },
    {
        match self.tables.position(path) {
            Some(i) => {
                proof {
                    self.tables.lemma_entry(i as int);
                }
                Some(self.tables.value_at(i))
            },
            None => None,
        }
    }

    /// Enters `table` under `path`, in place of the table that may stand
    /// there.
    pub fn insert(&mut self, path: String, table: TermFreq)
        requires
            old(self).wf(),
            table.wf(),
        ensures
            final(self).wf(),
            final(self)@ == old(self)@.insert(path@, table@),
    {
        let ghost before = self.tables.spec_values();
        self.tables.insert(path, table);
        proof {
            assert forall|i: int| 0 <= i < self.tables.spec_values().len() implies (
            #[trigger] self.tables.spec_values()[i]).wf() by {
                if i < before.len() && self.tables.spec_values()[i] != table {
                    assert(self.tables.spec_values()[i] == before[i]);
                }
            }
            assert(self@ =~= old(self)@.insert(path@, table@));
        }
    }
}

/// Builds the index of `docs`.
pub fn build_index(docs: &Vec<Document>) -> (index: Index)
    requires
        all_wf(docs@),
    ensures
        index.wf(),
        index@ == index_of_docs(views(docs@)),
{
    let mut index = Index::new();
    let mut i: usize = 0;
    proof {
        assert(views(docs@).take(0) =~= Seq::<DocumentView>::empty());
    }
    while i < docs.len()
        invariant
            all_wf(docs@),
            i <= docs.len(),
            index.wf(),
            index@ == index_of_docs(views(docs@).take(i as int)),
        decreases docs.len() - i,
    {
        let doc = &docs[i];
        proof {
            let next = views(docs@).take(i + 1);
            assert(next.drop_last() =~= views(docs@).take(i as int));
            assert(next.last() == doc@);
        }
        index.insert(doc.path().clone(), doc.term_freq().duplicate());
        i += 1;
    }
    proof {
        assert(views(docs@).take(docs.len() as int) =~= views(docs@));
    }
    index
}

} // verus!
