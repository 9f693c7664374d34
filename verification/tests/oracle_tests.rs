use std::collections::HashMap;

use tfidf::corpus::Corpus;
use tfidf::document::{process_text, Document};
use tfidf::lexer::{token_slices, tokenize, Token};
use tfidf::string_map::StringMap;

/// A small deterministic generator of numbers.
struct Numbers(u64);

impl Numbers {
    fn next(&mut self, bound: u64) -> u64 {
        self.0 = self.0.wrapping_mul(6364136223846793005).wrapping_add(1442695040888963407);
        (self.0 >> 33) % bound
    }
}

const WORDS: [&str; 12] =
    ["alpha", "beta", "gamma", "delta", "a", "b", "X1", "x1", "42", "the", "of", "Zed"];
const FILLERS: [&str; 8] = [" ", "  ", "\n", ", ", ". ", " ! ", " (", ") "];

fn make_text(numbers: &mut Numbers) -> String {
    let length = numbers.next(40);
    let mut text = String::new();
    for _ in 0..length {
        text.push_str(WORDS[numbers.next(WORDS.len() as u64) as usize]);
        text.push_str(FILLERS[numbers.next(FILLERS.len() as u64) as usize]);
    }
    text
}

fn make_documents(seed: u64, count: usize) -> (Vec<Document>, Vec<String>) {
    let mut numbers = Numbers(seed);
    let mut docs = Vec::new();
    let mut texts = Vec::new();
    for i in 0..count {
        let text = make_text(&mut numbers);
        docs.push(process_text(format!("doc{}", i), &text));
        texts.push(text);
    }
    (docs, texts)
}

/// Splits a text by going over its characters one by one.
fn split_by_hand(text: &str) -> (Vec<(Token, String)>, usize) {
    let punctuation = "()[]{},.:;\"'";
    let mut pairs: Vec<(Token, String)> = Vec::new();
    let mut events = 0;
    let mut open: Option<Token> = None;
    for c in text.chars() {
        let kind = if c.is_ascii_alphanumeric() {
            Some(Token::Text)
        } else if punctuation.contains(c) {
            Some(Token::Punctuation)
        } else {
            None
        };
        match kind {
            Some(k) => {
                if open == Some(k) {
                    pairs.last_mut().unwrap().1.push(c);
                } else {
                    pairs.push((k, c.to_string()));
                    events += 1;
                }
                open = Some(k);
            }
            None => {
                if !" \t\n\r\x0c".contains(c) {
                    events += 1;
                }
                open = None;
            }
        }
    }
    (pairs, events)
}

#[test]
fn tokens_agree_with_a_split_by_hand() {
    let mut numbers = Numbers(7);
    for _ in 0..200 {
        let text = make_text(&mut numbers);
        let (pairs, events) = split_by_hand(&text);
        assert_eq!(token_slices(&text), pairs);
        assert_eq!(tokenize(&text).len(), events);
    }
}

#[test]
fn documents_agree_with_counting_by_hand() {
    let (docs, texts) = make_documents(11, 60);
    for (doc, text) in docs.iter().zip(texts.iter()) {
        let (pairs, events) = split_by_hand(text);
        assert_eq!(doc.token_count(), events);
        let mut counts: HashMap<String, usize> = HashMap::new();
        for (kind, slice) in pairs {
            if kind == Token::Text {
                *counts.entry(slice).or_insert(0) += 1;
            }
        }
        assert_eq!(doc.term_freq().distinct(), counts.len());
        for (word, count) in counts.iter() {
            assert_eq!(doc.term_freq().count(word), *count);
        }
        for word in WORDS {
            assert_eq!(doc.term_freq().count(word), counts.get(word).copied().unwrap_or(0));
        }
    }
}

#[test]
fn rankings_agree_with_floating_point_scores() {
    for seed in [1u64, 2, 3, 4, 5] {
        let (docs, _) = make_documents(seed, 25);
        let corpus = Corpus::build(docs.clone());
        for word in WORDS {
            let containing = docs.iter().filter(|d| d.term_freq().contains(word)).count();
            let n = docs.len() as f32;
            let m = containing as f32 + 1.0;
            let idf = (n / m).log10();
            let mut expected: Vec<(usize, f32)> = Vec::new();
            for (i, doc) in docs.iter().enumerate() {
                let tf = if doc.token_count() == 0 {
                    0.0
                } else {
                    doc.term_freq().count(word) as f32 / doc.token_count() as f32
                };
                let score = if idf != 0.0 { idf * tf } else { tf };
                expected.push((i, score));
            }
            expected.sort_by(|(_, a), (_, b)| b.partial_cmp(a).unwrap());
            match corpus.query(word) {
                None => assert_eq!(containing, 0),
                Some(ranking) => {
                    assert!(containing > 0);
                    let order: Vec<usize> = ranking.iter().map(|r| r.doc).collect();
                    let expected_order: Vec<usize> = expected.iter().map(|(i, _)| *i).collect();
                    assert_eq!(order, expected_order);
                    for (ranked, (i, _)) in ranking.iter().zip(expected.iter()) {
                        assert_eq!(ranked.score.idf.documents, docs.len());
                        assert_eq!(ranked.score.idf.containing, containing);
                        assert_eq!(ranked.score.tf.count, docs[*i].term_freq().count(word));
                        assert_eq!(ranked.score.tf.total, docs[*i].token_count());
                    }
                }
            }
        }
    }
}

#[test]
fn many_keys_are_all_found() {
    let mut map: StringMap<usize> = StringMap::new();
    for i in 0..5000usize {
        map.insert(format!("key{}", i), i);
    }
    assert_eq!(map.len(), 5000);
    for i in 0..5000usize {
        assert_eq!(map.get(&format!("key{}", i)), Some(&i));
        assert_eq!(map.position(&format!("key{}", i)), Some(i));
    }
    for i in 0..5000usize {
        map.insert(format!("key{}", i), i + 1);
    }
    assert_eq!(map.len(), 5000);
    assert_eq!(map.get("key4999"), Some(&5000));
    assert_eq!(map.get("key5000"), None);
    assert_eq!(map.get("Key1"), None);
}
