use tfidf::ranking::{comes_before, Ranked};
use tfidf::score::{InverseDocumentFrequency, Score, Sign, TermFrequency};

fn tf(count: usize, total: usize) -> TermFrequency {
    TermFrequency { count, total }
}

fn idf(documents: usize, containing: usize) -> InverseDocumentFrequency {
    InverseDocumentFrequency { documents, containing }
}

fn score(idf: InverseDocumentFrequency, tf: TermFrequency) -> Score {
    Score { idf, tf }
}

#[test]
fn term_frequencies_compare_as_fractions() {
    assert!(tf(3, 10).less_than(&tf(1, 2)));
    assert!(!tf(1, 2).less_than(&tf(3, 10)));
    assert!(!tf(1, 2).less_than(&tf(2, 4)));
    assert!(tf(1, 2).same_value(&tf(2, 4)));
    assert!(!tf(1, 2).same_value(&tf(2, 5)));
    assert!(tf(1, 3).less_than(&tf(334, 1000)));
    assert!(!tf(1, 3).less_than(&tf(333, 1000)));
}

#[test]
fn term_frequency_of_an_empty_document_is_zero() {
    assert!(tf(0, 0).is_zero());
    assert!(tf(0, 0).same_value(&tf(0, 7)));
    assert!(tf(0, 0).less_than(&tf(1, 7)));
    assert!(!tf(1, 7).less_than(&tf(0, 0)));
    assert!(!tf(0, 0).less_than(&tf(0, 0)));
    assert!(!tf(0, 3).less_than(&tf(0, 0)));
}

#[test]
fn term_frequencies_of_the_largest_counts_compare() {
    let max = usize::MAX;
    assert!(tf(max - 1, max).less_than(&tf(max, max)));
    assert!(tf(max, max).same_value(&tf(1, 1)));
    assert!(!tf(max, max).less_than(&tf(max - 1, max)));
}

#[test]
fn sign_of_the_inverse_document_frequency() {
    assert_eq!(idf(4, 2).sign(), Sign::Positive);
    assert_eq!(idf(3, 2).sign(), Sign::Zero);
    assert_eq!(idf(3, 3).sign(), Sign::Negative);
    assert_eq!(idf(1, 0).sign(), Sign::Zero);
    assert_eq!(idf(0, 0).sign(), Sign::Negative);
    assert_eq!(idf(usize::MAX, usize::MAX).sign(), Sign::Negative);
    assert_eq!(idf(usize::MAX, 0).sign(), Sign::Positive);
}

#[test]
fn higher_term_frequency_scores_higher_under_a_positive_idf() {
    let rare = idf(10, 2);
    assert!(score(rare, tf(1, 2)).higher_than(&score(rare, tf(1, 3))));
    assert!(!score(rare, tf(1, 3)).higher_than(&score(rare, tf(1, 2))));
    assert!(score(rare, tf(2, 4)).level_with(&score(rare, tf(1, 2))));
}

#[test]
fn higher_term_frequency_scores_higher_under_a_zero_idf() {
    let zero = idf(3, 2);
    assert!(score(zero, tf(2, 2)).higher_than(&score(zero, tf(1, 2))));
    assert!(score(zero, tf(1, 2)).higher_than(&score(zero, tf(0, 1))));
}

#[test]
fn higher_term_frequency_scores_lower_under_a_negative_idf() {
    let common = idf(3, 3);
    assert!(score(common, tf(1, 3)).higher_than(&score(common, tf(1, 2))));
    assert!(!score(common, tf(1, 2)).higher_than(&score(common, tf(1, 3))));
    assert!(score(common, tf(0, 2)).higher_than(&score(common, tf(1, 2))));
    assert!(score(common, tf(1, 2)).level_with(&score(common, tf(2, 4))));
}

#[test]
fn zero_scores_are_level_whatever_the_idf() {
    let a = score(idf(3, 3), tf(0, 5));
    let b = score(idf(9, 1), tf(0, 0));
    assert!(a.is_zero() && b.is_zero());
    assert!(a.level_with(&b));
    assert!(!a.higher_than(&b) && !b.higher_than(&a));
    assert!(!score(idf(9, 1), tf(1, 5)).is_zero());
}

#[test]
fn scores_under_different_signs_compare_by_sign() {
    let negative = score(idf(3, 3), tf(1, 2));
    let positive = score(idf(9, 1), tf(1, 9));
    assert!(positive.higher_than(&negative));
    assert!(!negative.higher_than(&positive));
    assert!(!negative.level_with(&positive));
}

#[test]
fn equal_scores_are_ordered_by_document() {
    let s = score(idf(10, 2), tf(1, 2));
    let first = Ranked { doc: 0, score: s };
    let second = Ranked { doc: 1, score: s };
    assert!(comes_before(&first, &second));
    assert!(!comes_before(&second, &first));
    assert!(!comes_before(&first, &first));
    let better = Ranked { doc: 5, score: score(idf(10, 2), tf(2, 2)) };
    assert!(comes_before(&better, &first));
    assert!(!comes_before(&first, &better));
}
