//! A term-frequency / inverse-document-frequency index over text documents.
//!
//! A text is split into tokens ([`lexer`]); a document keeps the count of
//! each of its words and the number of its tokens ([`document`],
//! [`term_freq`]); a corpus keeps the documents, their index by path
//! ([`index`]), the inverse document frequency of every indexed word
//! ([`frequency`]) and the ranking of the documents for every such word
//! ([`ranking`]), and answers a query for one word ([`corpus`]).
//!
//! Term frequencies and inverse document frequencies are held as the counts
//! that they are made of ([`score`]), so that rankings are decided exactly.

pub mod corpus;
pub mod document;
pub mod frequency;
pub mod index;
pub mod lexer;
pub mod ranking;
pub mod score;
pub mod string_map;
pub mod term_freq;
