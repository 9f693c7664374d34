use tfidf::corpus::{build_idf_table, build_rankings, Corpus};
use tfidf::document::{process_text, Document};
use tfidf::index::build_index;
use tfidf::ranking::{rank, rank_documents, sort_ranking, Ranked};
use tfidf::score::{InverseDocumentFrequency, Score, TermFrequency};

fn score_value(score: &Score) -> f32 {
    let idf = (score.idf.documents as f32 / (score.idf.containing as f32 + 1.0)).log10();
    let tf = if score.tf.total == 0 {
        0.0
    } else {
        score.tf.count as f32 / score.tf.total as f32
    };
    if idf != 0.0 {
        idf * tf
    } else {
        tf
    }
}

fn three_documents() -> Vec<Document> {
    vec![
        process_text("doc1".to_string(), "cat dog"),
        process_text("doc2".to_string(), "cat cat"),
        process_text("doc3".to_string(), "bird"),
    ]
}

fn paths(corpus: &Corpus, ranking: &Vec<Ranked>) -> Vec<String> {
    ranking.iter().map(|r| corpus.document(r.doc).path().clone()).collect()
}

#[test]
fn cat_ranks_doc2_over_doc1_over_doc3() {
    let corpus = Corpus::build(three_documents());
    let ranking = corpus.query("cat").unwrap();
    assert_eq!(paths(&corpus, ranking), vec!["doc2", "doc1", "doc3"]);
    let scores: Vec<f32> = ranking.iter().map(|r| score_value(&r.score)).collect();
    assert_eq!(scores, vec![1.0, 0.5, 0.0]);
    assert!(ranking[2].score.is_zero());
    assert!(!ranking[0].score.is_zero());
    assert!(!ranking[1].score.is_zero());
}

#[test]
fn fish_is_not_found() {
    let corpus = Corpus::build(three_documents());
    assert_eq!(corpus.query("fish"), None);
    assert_eq!(corpus.idf("fish"), None);
}

#[test]
fn a_found_word_ranks_every_document() {
    let corpus = Corpus::build(three_documents());
    for word in ["cat", "dog", "bird"] {
        let ranking = corpus.query(word).unwrap();
        assert_eq!(ranking.len(), 3);
        let mut docs: Vec<usize> = ranking.iter().map(|r| r.doc).collect();
        docs.sort();
        assert_eq!(docs, vec![0, 1, 2]);
    }
}

#[test]
fn not_found_differs_from_a_ranking() {
    let corpus = Corpus::build(three_documents());
    let bird = corpus.query("bird").unwrap();
    assert_eq!(bird.iter().filter(|r| r.score.is_zero()).count(), 2);
    assert!(corpus.query("Bird").is_none());
    assert!(corpus.query("").is_none());
    assert!(corpus.query(",").is_none());
}

#[test]
fn punctuation_is_not_indexed() {
    let corpus = Corpus::build(vec![process_text("p".to_string(), "a, b. (c)")]);
    assert!(corpus.query("a").is_some());
    assert!(corpus.query(",").is_none());
    assert!(corpus.query("(").is_none());
    assert_eq!(corpus.document(0).token_count(), 7);
}

#[test]
fn repeated_queries_give_the_same_ranking() {
    let corpus = Corpus::build(three_documents());
    let first = corpus.query("cat").unwrap().clone();
    let second = corpus.query("cat").unwrap().clone();
    assert_eq!(first, second);
    let again = Corpus::build(three_documents());
    assert_eq!(again.query("cat").unwrap(), &first);
    assert_eq!(rank("cat", &three_documents()), first);
}

#[test]
fn scores_do_not_rise_along_a_ranking() {
    let docs = vec![
        process_text("a".to_string(), "x y z x x"),
        process_text("b".to_string(), "y y y"),
        process_text("c".to_string(), "x"),
        process_text("d".to_string(), "z z x q"),
        process_text("e".to_string(), "q q q q q"),
        process_text("f".to_string(), ""),
    ];
    let corpus = Corpus::build(docs);
    for word in ["x", "y", "z", "q"] {
        let ranking = corpus.query(word).unwrap();
        assert_eq!(ranking.len(), 6);
        for pair in ranking.windows(2) {
            assert!(score_value(&pair[0].score) >= score_value(&pair[1].score));
        }
    }
}

#[test]
fn rare_word_ranking() {
    let docs = vec![
        process_text("a".to_string(), "x y z w"),
        process_text("b".to_string(), "y x"),
        process_text("c".to_string(), "y"),
        process_text("d".to_string(), "z"),
    ];
    let corpus = Corpus::build(docs);
    let ranking = corpus.query("x").unwrap();
    let idf = InverseDocumentFrequency { documents: 4, containing: 2 };
    assert_eq!(
        ranking,
        &vec![
            Ranked { doc: 1, score: Score { idf, tf: TermFrequency { count: 1, total: 2 } } },
            Ranked { doc: 0, score: Score { idf, tf: TermFrequency { count: 1, total: 4 } } },
            Ranked { doc: 2, score: Score { idf, tf: TermFrequency { count: 0, total: 1 } } },
            Ranked { doc: 3, score: Score { idf, tf: TermFrequency { count: 0, total: 1 } } },
        ]
    );
    assert_eq!(corpus.idf("x"), Some(idf));
    assert!((score_value(&ranking[0].score) - 0.0624694).abs() < 0.000001);
    assert!((score_value(&ranking[1].score) - 0.0312347).abs() < 0.000001);
    assert_eq!(score_value(&ranking[2].score), 0.0);
}

#[test]
fn a_word_of_every_document_ranks_low_frequencies_first() {
    let docs = vec![
        process_text("a".to_string(), "the the the cat"),
        process_text("b".to_string(), "the dog barks loud"),
        process_text("c".to_string(), "the end"),
    ];
    let corpus = Corpus::build(docs);
    let ranking = corpus.query("the").unwrap();
    let order: Vec<usize> = ranking.iter().map(|r| r.doc).collect();
    assert_eq!(order, vec![1, 2, 0]);
    let scores: Vec<f32> = ranking.iter().map(|r| score_value(&r.score)).collect();
    assert!(scores[0] < 0.0);
    assert!(scores[0] >= scores[1] && scores[1] >= scores[2]);
}

#[test]
fn equal_scores_keep_the_order_of_the_documents() {
    let docs = vec![
        process_text("a".to_string(), "x y"),
        process_text("b".to_string(), "z"),
        process_text("c".to_string(), "y x"),
        process_text("d".to_string(), "z"),
        process_text("e".to_string(), "x x y y"),
        process_text("f".to_string(), "w"),
        process_text("g".to_string(), "w"),
    ];
    let ranking = rank("x", &docs);
    let order: Vec<usize> = ranking.iter().map(|r| r.doc).collect();
    assert_eq!(order, vec![0, 2, 4, 1, 3, 5, 6]);
}

#[test]
fn ranking_no_documents() {
    let docs: Vec<Document> = Vec::new();
    assert_eq!(rank("x", &docs), vec![]);
    let corpus = Corpus::build(docs);
    assert_eq!(corpus.len(), 0);
    assert!(corpus.query("x").is_none());
}

#[test]
fn ranking_takes_the_given_idf() {
    let docs = three_documents();
    let idf = InverseDocumentFrequency { documents: 3, containing: 3 };
    let ranking = rank_documents("cat", idf, &docs);
    let order: Vec<usize> = ranking.iter().map(|r| r.doc).collect();
    assert_eq!(order, vec![2, 0, 1]);
    assert!(ranking.iter().all(|r| r.score.idf == idf));
}

#[test]
fn sorting_orders_by_score_then_document() {
    let idf = InverseDocumentFrequency { documents: 9, containing: 1 };
    let entry = |doc: usize, count: usize, total: usize| Ranked {
        doc,
        score: Score { idf, tf: TermFrequency { count, total } },
    };
    let entries = vec![
        entry(3, 1, 4),
        entry(1, 1, 2),
        entry(4, 0, 3),
        entry(0, 2, 8),
        entry(2, 3, 3),
        entry(5, 2, 4),
    ];
    let sorted = sort_ranking(&entries);
    let order: Vec<usize> = sorted.iter().map(|r| r.doc).collect();
    assert_eq!(order, vec![2, 1, 5, 0, 3, 4]);
    assert_eq!(sort_ranking(&Vec::new()), vec![]);
    assert_eq!(sort_ranking(&vec![entry(7, 1, 1)]), vec![entry(7, 1, 1)]);
}

#[test]
fn index_holds_every_document_under_its_path() {
    let docs = three_documents();
    let index = build_index(&docs);
    assert_eq!(index.len(), 3);
    assert_eq!(index.get("doc1").unwrap().count("cat"), 1);
    assert_eq!(index.get("doc2").unwrap().count("cat"), 2);
    assert_eq!(index.get("doc3").unwrap().count("bird"), 1);
    assert_eq!(index.get("doc3").unwrap().count("cat"), 0);
    assert!(index.get("doc4").is_none());
    assert_eq!(index.path_at(0), "doc1");
    assert_eq!(index.table_at(1).count("cat"), 2);
}

#[test]
fn index_keeps_the_later_document_of_a_path() {
    let docs = vec![
        process_text("same".to_string(), "old words"),
        process_text("other".to_string(), "x"),
        process_text("same".to_string(), "new"),
    ];
    let index = build_index(&docs);
    assert_eq!(index.len(), 2);
    let table = index.get("same").unwrap();
    assert_eq!(table.count("new"), 1);
    assert_eq!(table.count("old"), 0);
    let corpus = Corpus::build(docs);
    assert!(corpus.query("old").is_none());
    assert!(corpus.query("new").is_some());
    assert_eq!(corpus.query("x").unwrap().len(), 3);
}

#[test]
fn index_is_the_same_in_any_order_of_the_documents() {
    let forward = build_index(&three_documents());
    let mut reversed_docs = three_documents();
    reversed_docs.reverse();
    let backward = build_index(&reversed_docs);
    assert_eq!(forward.len(), backward.len());
    for path in ["doc1", "doc2", "doc3"] {
        for word in ["cat", "dog", "bird"] {
            assert_eq!(
                forward.get(path).unwrap().count(word),
                backward.get(path).unwrap().count(word)
            );
        }
    }
}

#[test]
fn idf_table_holds_every_indexed_word_once() {
    let docs = three_documents();
    let index = build_index(&docs);
    let table = build_idf_table(&index, &docs);
    assert_eq!(table.len(), 3);
    assert_eq!(table.get("cat"), Some(&InverseDocumentFrequency { documents: 3, containing: 2 }));
    assert_eq!(table.get("dog"), Some(&InverseDocumentFrequency { documents: 3, containing: 1 }));
    assert_eq!(table.get("bird"), Some(&InverseDocumentFrequency { documents: 3, containing: 1 }));
    assert_eq!(table.get("fish"), None);
    let rankings = build_rankings(&table, &docs);
    assert_eq!(rankings.len(), 3);
    assert_eq!(rankings.get("dog").unwrap()[0].doc, 0);
    assert!(rankings.get("fish").is_none());
}

#[test]
fn corpus_hands_out_its_parts() {
    let corpus = Corpus::build(three_documents());
    assert_eq!(corpus.len(), 3);
    assert_eq!(corpus.documents().len(), 3);
    assert_eq!(corpus.document(1).path(), "doc2");
    assert_eq!(corpus.index().len(), 3);
    assert_eq!(
        corpus.idf("cat"),
        Some(InverseDocumentFrequency { documents: 3, containing: 2 })
    );
}
