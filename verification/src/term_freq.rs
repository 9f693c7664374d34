//! The term-frequency table of one document: how often each word occurs.
//!
//! Its model is the multiset of the words that were recorded.

use vstd::prelude::*;
use vstd::multiset::*;
use crate::string_map::{lemma_entries_map_dom, StringMap};

verus! {

/// The counts of a table, as natural numbers.
spec fn counts_as_nat(counts: Map<Seq<char>, usize>) -> Map<Seq<char>, nat> {
    counts.map_values(|c: usize| c as nat)
}

/// The frequency table of the words of one document.
#[derive(Debug, Clone)]
pub struct TermFreq {
    counts: StringMap<usize>,
}

impl View for TermFreq {
    type V = Multiset<Seq<char>>;

    closed spec fn view(&self) -> Multiset<Seq<char>> {
        Multiset::from_map(counts_as_nat(self.counts@))
    }
}

impl TermFreq {
    /// No word occurs twice in the table, and no word is held with a count of zero.
    pub closed spec fn wf(&self) -> bool {
        &&& self.counts.wf()
        &&& forall|i: int|
            0 <= i < self.counts.spec_values().len() ==> #[trigger] self.counts.spec_values()[i]
                >= 1
    }

    /// The distinct words of the table, in the order in which they were first recorded.
    pub closed spec fn spec_words(&self) -> Seq<Seq<char>> {
        self.counts.spec_keys()
    }

    proof fn lemma_count(&self, word: Seq<char>)
        requires
            self.wf(),
        ensures
            self.counts@.contains_key(word) ==> self@.count(word) == self.counts@[word] >= 1,
            !self.counts@.contains_key(word) ==> self@.count(word) == 0,
    {
        broadcast use group_multiset_axioms;

        lemma_entries_map_dom(self.counts.spec_keys(), self.counts.spec_values());
        let m = counts_as_nat(self.counts@);
        assert(m.dom() =~= self.counts@.dom());
        if self.counts@.contains_key(word) {
            let i = self.counts.lemma_key_position(word);
            assert(m[word] == self.counts@[word]);
        }
    }

    /// The words of the table are the words that occur at least once, each
    /// listed once.
    pub proof fn lemma_words(&self)
        requires
            self.wf(),
        ensures
            self.spec_words().no_duplicates(),
            forall|word: Seq<char>| #[trigger]
                self.spec_words().contains(word) <==> self@.count(word) > 0,
    {
        assert forall|word: Seq<char>| #[trigger]
            self.spec_words().contains(word) <==> self@.count(word) > 0 by {
            self.lemma_count(word);
        }
    }

    /// An empty table.
    pub fn new() -> (table: Self)
        ensures
            table.wf(),
            table@ == Multiset::<Seq<char>>::empty(),
    {
        let table = TermFreq { counts: StringMap::new() };
        proof {
            broadcast use group_multiset_axioms;

            assert forall|word: Seq<char>| table@.count(word) == 0 by {
                table.lemma_count(word);
            }
            assert(table@ =~= Multiset::<Seq<char>>::empty());
        }
        table
    }

    /// How often `word` was recorded.
    pub fn count(&self, word: &str) -> (n: usize)
        requires
            self.wf(),
        ensures
            n == self@.count(word@),
    {
        proof {
            self.lemma_count(word@);
        }
        match self.counts.get(word) {
            Some(c) => *c,
            None => 0,
        }
    }

    /// Whether `word` was recorded at least once.
    pub fn contains(&self, word: &str) -> (b: bool)
        requires
            self.wf(),
        ensures
            b == (self@.count(word@) > 0),
    {
        proof {
            self.lemma_count(word@);
        }
        self.counts.contains_key(word)
    }

    /// Records one more occurrence of `word`.
    pub fn record(&mut self, word: String)
        requires
            old(self).wf(),
            old(self)@.count(word@) < usize::MAX,
        ensures
            final(self).wf(),
            final(self)@ == old(self)@.insert(word@),
            final(self).spec_words() == if old(self)@.count(word@) > 0 {
                old(self).spec_words()
            } else {
                old(self).spec_words().push(word@)
            },
    {
        proof {
            old(self).lemma_count(word@);
        }
        let seen = self.count(word.as_str());
        let ghost old_values = self.counts.spec_values();
        let ghost old_keys = self.counts.spec_keys();
        self.counts.insert(word, seen + 1);
        proof {
            broadcast use group_multiset_axioms;

            assert forall|i: int| 0 <= i < self.counts.spec_values().len() implies #[trigger]
                self.counts.spec_values()[i] >= 1 by {
                if i < old_values.len() && old(self).counts@.contains_key(word@) {
                    if i != old_keys.index_of(word@) {
                        assert(self.counts.spec_values()[i] == old_values[i]);
                    }
                } else if i < old_values.len() {
                    assert(self.counts.spec_values()[i] == old_values[i]);
                }
            }
            assert forall|w: Seq<char>| #[trigger]
                self@.count(w) == old(self)@.insert(word@).count(w) by {
                old(self).lemma_count(w);
                self.lemma_count(w);
            }
            assert(self@ =~= old(self)@.insert(word@));
        }
    }

    /// The number of distinct words.
    pub fn distinct(&self) -> (n: usize)
        requires
            self.wf(),
        ensures
            n == self.spec_words().len(),
    {
        self.counts.len()
    }

    /// The distinct word at position `i`.
    pub fn word_at(&self, i: usize) -> (word: &String)
        requires
            self.wf(),
            i < self.spec_words().len(),
        ensures
            word@ == self.spec_words()[i as int],
            self@.count(word@) > 0,
    {
        proof {
            self.lemma_words();
        }
        self.counts.key_at(i)
    }
}

impl TermFreq {
    /// A copy of the table.
    pub fn duplicate(&self) -> (copy: Self)
        requires
            self.wf(),
        ensures
            copy.wf(),
            copy@ == self@,
            copy.spec_words() == self.spec_words(),
    {
        TermFreq { counts: self.counts.duplicate() }
    }
}

} // verus!
