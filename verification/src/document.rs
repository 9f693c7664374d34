//! A document: its path, the frequency table of its words and the number of
//! its tokens.

use vstd::prelude::*;
use vstd::multiset::*;
use vstd::seq_lib::to_multiset_build;
use crate::lexer::{
    is_tokenization_upto, lemma_tokenization_complete, lemma_tokenization_extends, tokens_of,
    Lexeme, Token,
};
use crate::term_freq::TermFreq;

verus! {

/// What a document is to the index: its path, the multiset of its words and
/// the number of its tokens.
pub struct DocumentView {
    pub path: Seq<char>,
    pub term_freq: Multiset<Seq<char>>,
    pub token_count: nat,
}

impl DocumentView {
    /// A document has at least as many tokens as it has words.
    pub open spec fn wf(self) -> bool {
        self.term_freq.len() <= self.token_count
    }
}

/// The words of a text: the slices of its `Text` tokens, in text order.
pub open spec fn words(s: Seq<char>, tokens: Seq<Lexeme>) -> Seq<Seq<char>> {
    tokens.filter(|t: Lexeme| t.kind == Token::Text).map_values(
        |t: Lexeme| s.subrange(t.start as int, t.end as int),
    )
}

/// The document that a text at a path makes: every token counts towards
/// `token_count`, punctuation and unrecognised characters too, and every
/// `Text` token is recorded under its exact characters.
pub open spec fn document_of(path: Seq<char>, text: Seq<char>) -> DocumentView {
    DocumentView {
        path,
        term_freq: words(text, tokens_of(text)).to_multiset(),
        token_count: tokens_of(text).len(),
    }
}

/// One more token adds its slice to the words if it is a `Text` token, and
/// nothing otherwise.
pub proof fn lemma_words_push(s: Seq<char>, tokens: Seq<Lexeme>, t: Lexeme)
    ensures
        t.kind == Token::Text ==> words(s, tokens.push(t)) == words(s, tokens).push(
            s.subrange(t.start as int, t.end as int),
        ),
        t.kind != Token::Text ==> words(s, tokens.push(t)) == words(s, tokens),
{
    reveal(Seq::filter);
    assert(tokens.push(t).drop_last() =~= tokens);
    if t.kind == Token::Text {
        assert(words(s, tokens.push(t)) =~= words(s, tokens).push(
            s.subrange(t.start as int, t.end as int),
        ));
    } else {
        assert(words(s, tokens.push(t)) =~= words(s, tokens));
    }
}

/// A text has at most as many words as tokens.
pub proof fn lemma_words_len(s: Seq<char>, tokens: Seq<Lexeme>)
    ensures
        words(s, tokens).len() <= tokens.len(),
        words(s, tokens).to_multiset().len() == words(s, tokens).len(),
{
    tokens.lemma_filter_len(|t: Lexeme| t.kind == Token::Text);
    words(s, tokens).to_multiset_ensures();
}

/// One document of the corpus.
#[derive(Debug, Clone)]
pub struct Document {
    path: String,
    term_freq: TermFreq,
    token_count: usize,
}

impl View for Document {
    type V = DocumentView;

    closed spec fn view(&self) -> DocumentView {
        DocumentView {
            path: self.path@,
            term_freq: self.term_freq@,
            token_count: self.token_count as nat,
        }
    }
}

impl Document {
    /// The table is well formed and the document has at least as many tokens
    /// as words.
    pub closed spec fn wf(&self) -> bool {
        &&& self.term_freq.wf()
        &&& self@.wf()
    }

    /// A well-formed document has a well-formed model.
    pub proof fn lemma_view_wf(&self)
        requires
            self.wf(),
        ensures
            self@.wf(),
    {
    }

    /// The path of the document.
    pub fn path(&self) -> (path: &String)
        ensures
            path@ == self@.path,
    {
        &self.path
    }

    /// The frequency table of the document's words.
    pub fn term_freq(&self) -> (table: &TermFreq)
        ensures
            table@ == self@.term_freq,
            self.wf() ==> table.wf(),
    {
        &self.term_freq
    }

    /// The number of tokens of the document.
    pub fn token_count(&self) -> (n: usize)
        ensures
            n == self@.token_count,
    {
        self.token_count
    }
}

/// Reads `text` to its end and makes the document that stands at `path`.
pub fn process_text(path: String, text: &str) -> (doc: Document)
    ensures
        doc.wf(),
        doc@ == document_of(path@, text@),
{
    let mut lexer = Token::lexer(text);
    let mut term_freq = TermFreq::new();
    let mut token_count: usize = 0;
    let ghost mut seen: Seq<Lexeme> = Seq::empty();
    proof {
        assert(words(text@, seen) =~= Seq::<Seq<char>>::empty());
        lemma_words_len(text@, seen);
        lemma_multiset_empty_len(words(text@, seen).to_multiset());
    }
    loop
        invariant
            lexer.wf(),
            lexer.source() == text@,
            is_tokenization_upto(text@, seen, lexer.position() as int),
            term_freq.wf(),
            term_freq@ == words(text@, seen).to_multiset(),
            token_count == seen.len(),
        ensures
            seen == tokens_of(text@),
            term_freq.wf(),
            term_freq@ == words(text@, seen).to_multiset(),
            token_count == seen.len(),
        decreases text@.len() - lexer.position(),
    {
        let ghost from = lexer.position() as int;
        match lexer.next_token() {
            None => {
                proof {
                    lemma_tokenization_complete(text@, seen, from);
                }
                break ;
            },
            Some(t) => {
                proof {
                    lemma_tokenization_extends(text@, seen, from, t);
                    lemma_words_push(text@, seen, t);
                    lemma_words_len(text@, seen);
                }
                token_count += 1;
                if t.kind == Token::Text {
                    let word = lexer.slice(&t);
                    proof {
                        axiom_count_le_len(term_freq@, word@);
                        to_multiset_build(words(text@, seen), word@);
                    }
                    term_freq.record(word);
                }
                proof {
                    seen = seen.push(t);
                }
            },
        }
    }
    proof {
        lemma_words_len(text@, seen);
    }
    Document { path, term_freq, token_count }
}

} // verus!
