use tfidf::document::process_text;
use tfidf::frequency::{calculate_idf, calculate_tf};
use tfidf::score::{InverseDocumentFrequency, Sign, TermFrequency};

fn tf_value(tf: &TermFrequency) -> f32 {
    if tf.total == 0 {
        0.0
    } else {
        tf.count as f32 / tf.total as f32
    }
}

fn idf_value(idf: &InverseDocumentFrequency) -> f32 {
    (idf.documents as f32 / (idf.containing as f32 + 1.0)).log10()
}

#[test]
fn document_keeps_its_path() {
    let doc = process_text("notes/a.txt".to_string(), "cat dog");
    assert_eq!(doc.path(), "notes/a.txt");
}

#[test]
fn words_are_counted() {
    let doc = process_text("a".to_string(), "cat dog cat");
    assert_eq!(doc.token_count(), 3);
    assert_eq!(doc.term_freq().count("cat"), 2);
    assert_eq!(doc.term_freq().count("dog"), 1);
    assert_eq!(doc.term_freq().count("bird"), 0);
    assert!(doc.term_freq().contains("cat"));
    assert!(!doc.term_freq().contains("bird"));
    assert_eq!(doc.term_freq().distinct(), 2);
}

#[test]
fn punctuation_and_unrecognised_characters_count_as_tokens_only() {
    let doc = process_text("a".to_string(), "Hello, world!");
    assert_eq!(doc.token_count(), 4);
    assert_eq!(doc.term_freq().count("Hello"), 1);
    assert_eq!(doc.term_freq().count("world"), 1);
    assert_eq!(doc.term_freq().count(","), 0);
    assert_eq!(doc.term_freq().count("!"), 0);
    assert_eq!(doc.term_freq().distinct(), 2);
}

#[test]
fn words_are_case_sensitive() {
    let doc = process_text("a".to_string(), "Cat cat CAT cat");
    assert_eq!(doc.term_freq().count("cat"), 2);
    assert_eq!(doc.term_freq().count("Cat"), 1);
    assert_eq!(doc.term_freq().count("CAT"), 1);
    assert_eq!(doc.term_freq().distinct(), 3);
}

#[test]
fn words_keep_the_order_of_their_first_occurrence() {
    let doc = process_text("a".to_string(), "b a b c a");
    let table = doc.term_freq();
    assert_eq!(table.word_at(0), "b");
    assert_eq!(table.word_at(1), "a");
    assert_eq!(table.word_at(2), "c");
}

#[test]
fn empty_document() {
    let doc = process_text("empty".to_string(), "");
    assert_eq!(doc.token_count(), 0);
    assert_eq!(doc.term_freq().distinct(), 0);
    let tf = calculate_tf("cat", &doc);
    assert_eq!(tf, TermFrequency { count: 0, total: 0 });
    assert!(tf.is_zero());
    assert_eq!(tf_value(&tf), 0.0);
}

#[test]
fn term_frequency_three_in_ten() {
    let doc = process_text("a".to_string(), "x a b x c d x e f g");
    assert_eq!(doc.token_count(), 10);
    let tf = calculate_tf("x", &doc);
    assert_eq!(tf, TermFrequency { count: 3, total: 10 });
    assert_eq!(tf_value(&tf), 0.3);
    assert!(!tf.is_zero());
}

#[test]
fn term_frequency_counts_every_token_in_the_denominator() {
    let doc = process_text("a".to_string(), "cat, cat! dog");
    let tf = calculate_tf("cat", &doc);
    assert_eq!(tf, TermFrequency { count: 2, total: 5 });
    assert_eq!(tf_value(&tf), 0.4);
}

#[test]
fn term_frequency_of_an_absent_word_is_zero() {
    let doc = process_text("a".to_string(), "cat dog");
    let tf = calculate_tf("bird", &doc);
    assert_eq!(tf, TermFrequency { count: 0, total: 2 });
    assert!(tf.is_zero());
}

#[test]
fn idf_of_a_word_in_two_of_four_documents() {
    let docs = vec![
        process_text("1".to_string(), "cat dog"),
        process_text("2".to_string(), "cat"),
        process_text("3".to_string(), "bird"),
        process_text("4".to_string(), "fish"),
    ];
    let idf = calculate_idf("cat", &docs);
    assert_eq!(idf, InverseDocumentFrequency { documents: 4, containing: 2 });
    assert_eq!(idf.sign(), Sign::Positive);
    let value = idf_value(&idf);
    assert!((value - 0.1249).abs() < 0.0001);
}

#[test]
fn idf_of_a_word_in_every_document_is_negative() {
    for n in 1..6usize {
        let mut docs = Vec::new();
        for i in 0..n {
            docs.push(process_text(format!("{}", i), "common word"));
        }
        let idf = calculate_idf("common", &docs);
        assert_eq!(idf, InverseDocumentFrequency { documents: n, containing: n });
        assert_eq!(idf.sign(), Sign::Negative);
        assert!(idf_value(&idf) < 0.0);
    }
}

#[test]
fn idf_of_a_word_in_all_but_one_document_is_zero() {
    let docs = vec![
        process_text("1".to_string(), "cat dog"),
        process_text("2".to_string(), "cat cat"),
        process_text("3".to_string(), "bird"),
    ];
    let idf = calculate_idf("cat", &docs);
    assert_eq!(idf, InverseDocumentFrequency { documents: 3, containing: 2 });
    assert_eq!(idf.sign(), Sign::Zero);
    assert_eq!(idf_value(&idf), 0.0);
}

#[test]
fn idf_of_an_absent_word() {
    let docs = vec![
        process_text("1".to_string(), "cat"),
        process_text("2".to_string(), "dog"),
        process_text("3".to_string(), "bird"),
    ];
    let idf = calculate_idf("fish", &docs);
    assert_eq!(idf, InverseDocumentFrequency { documents: 3, containing: 0 });
    assert_eq!(idf.sign(), Sign::Positive);
}

#[test]
fn idf_counts_documents_not_occurrences() {
    let docs = vec![
        process_text("1".to_string(), "cat cat cat cat"),
        process_text("2".to_string(), "dog"),
        process_text("3".to_string(), "bird"),
    ];
    let idf = calculate_idf("cat", &docs);
    assert_eq!(idf, InverseDocumentFrequency { documents: 3, containing: 1 });
}

#[test]
fn idf_of_no_documents() {
    let docs = Vec::new();
    let idf = calculate_idf("cat", &docs);
    assert_eq!(idf, InverseDocumentFrequency { documents: 0, containing: 0 });
    assert_eq!(idf.sign(), Sign::Negative);
}
