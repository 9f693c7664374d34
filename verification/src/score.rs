//! Term frequency, inverse document frequency and the relevance score, held
//! as the exact integers that they are made of.
//!
//! The values themselves are real numbers: a quotient, the logarithm of a
//! quotient, and their product. This module keeps numerators and
//! denominators, says in `real` arithmetic what they stand for, and decides
//! by integer arithmetic how two scores compare.

use vstd::prelude::*;

verus! {

/// The sign of a number.
#[derive(Debug, Clone, Copy, PartialEq, Eq, Structural)]
pub enum Sign {
    Negative,
    Zero,
    Positive,
}

/// The quotient `count / total`, taken as zero where `total` is zero.
pub open spec fn quotient(count: nat, total: nat) -> real {
    if total == 0 {
        0real
    } else {
        count as real / total as real
    }
}

/// The number whose decimal logarithm is the inverse document frequency of a
/// word that `containing` of `documents` documents hold: `documents / (1 + containing)`.
pub open spec fn idf_argument(documents: nat, containing: nat) -> real {
    documents as real / (containing + 1) as real
}

/// Two quotients compare as their cross products do.
pub proof fn lemma_quotient_order(c1: nat, t1: nat, c2: nat, t2: nat)
    requires
        t1 > 0,
        t2 > 0,
    ensures
        quotient(c1, t1) <= quotient(c2, t2) <==> c1 * t2 <= c2 * t1,
        quotient(c1, t1) == quotient(c2, t2) <==> c1 * t2 == c2 * t1,
        quotient(c1, t1) >= 0real,
        quotient(c1, t1) == 0real <==> c1 == 0,
{
    let a = c1 as real;
    let b = t1 as real;
    let c = c2 as real;
    let d = t2 as real;
    assert(a / b <= c / d <==> a * d <= c * b) by (nonlinear_arith)
        requires
            b > 0real,
            d > 0real,
    ;
    assert(a / b == c / d <==> a * d == c * b) by (nonlinear_arith)
        requires
            b > 0real,
            d > 0real,
    ;
    assert(a / b >= 0real && (a / b == 0real <==> a == 0real)) by (nonlinear_arith)
        requires
            a >= 0real,
            b > 0real,
    ;
    assert(a * d == (c1 * t2) as real) by (nonlinear_arith)
        requires
            a == c1 as real,
            d == t2 as real,
    ;
    assert(c * b == (c2 * t1) as real) by (nonlinear_arith)
        requires
            c == c2 as real,
            b == t1 as real,
    ;
}

/// The argument of the logarithm lies below, at or above one as the number
/// of documents lies below, at or above one more than the number of those
/// that hold the word.
pub proof fn lemma_idf_argument_order(documents: nat, containing: nat)
    ensures
        idf_argument(documents, containing) < 1real <==> documents < containing + 1,
        idf_argument(documents, containing) == 1real <==> documents == containing + 1,
        idf_argument(documents, containing) > 1real <==> documents > containing + 1,
        idf_argument(documents, containing) >= 0real,
{
    let n = documents as real;
    let m = (containing + 1) as real;
    assert((n / m < 1real <==> n < m) && (n / m == 1real <==> n == m) && (n / m > 1real <==> n > m)
        && n / m >= 0real) by (nonlinear_arith)
        requires
            m > 0real,
            n >= 0real,
    ;
}

/// The term frequency of a word in a document: the word occurs `count` times
/// among the `total` tokens of the document.
#[derive(Debug, Clone, Copy, PartialEq, Eq, Structural)]
pub struct TermFrequency {
    pub count: usize,
    pub total: usize,
}

impl TermFrequency {
    /// The frequency as a number: `count / total`, and zero for a document
    /// without tokens.
    pub open spec fn value(self) -> real {
        quotient(self.count as nat, self.total as nat)
    }

    /// Whether the frequency is zero.
    pub fn is_zero(&self) -> (b: bool)
        ensures
            b == (self.value() == 0real),
    {
        proof {
            if self.total > 0 {
                lemma_quotient_order(self.count as nat, self.total as nat, 0, 1);
            }
        }
        self.total == 0 || self.count == 0
    }

    /// Whether this frequency is smaller than `other`.
    pub fn less_than(&self, other: &TermFrequency) -> (b: bool)
        ensures
            b == (self.value() < other.value()),
    {
        if other.total == 0 {
            proof {
                if self.total > 0 {
                    lemma_quotient_order(self.count as nat, self.total as nat, 0, 1);
                }
            }
            false
        } else if self.total == 0 {
            proof {
                lemma_quotient_order(other.count as nat, other.total as nat, 0, 1);
            }
            other.count > 0
        } else {
            proof {
                lemma_quotient_order(
                    other.count as nat,
                    other.total as nat,
                    self.count as nat,
                    self.total as nat,
                );
                lemma_product_fits(self.count, other.total);
                lemma_product_fits(other.count, self.total);
            }
            (self.count as u128) * (other.total as u128) < (other.count as u128) * (
            self.total as u128)
        }
    }

    /// Whether this frequency and `other` are the same number.
    pub fn same_value(&self, other: &TermFrequency) -> (b: bool)
        ensures
            b == (self.value() == other.value()),
    {
        if other.total == 0 || self.total == 0 {
            proof {
                if self.total > 0 {
                    lemma_quotient_order(self.count as nat, self.total as nat, 0, 1);
                }
                if other.total > 0 {
                    lemma_quotient_order(other.count as nat, other.total as nat, 0, 1);
                }
            }
            self.is_zero() && other.is_zero()
        } else {
            proof {
                lemma_quotient_order(
                    self.count as nat,
                    self.total as nat,
                    other.count as nat,
                    other.total as nat,
                );
                lemma_product_fits(self.count, other.total);
                lemma_product_fits(other.count, self.total);
            }
            (self.count as u128) * (other.total as u128) == (other.count as u128) * (
            self.total as u128)
        }
    }
}

proof fn lemma_product_fits(a: usize, b: usize)
    ensures
        a * b <= u128::MAX,
{
    assert(a * b <= 0xffff_ffff_ffff_ffff * 0xffff_ffff_ffff_ffff) by (nonlinear_arith)
        requires
            0 <= a <= 0xffff_ffff_ffff_ffff,
            0 <= b <= 0xffff_ffff_ffff_ffff,
    ;
}

/// The inverse document frequency of a word: of `documents` documents,
/// `containing` hold the word. Its value is the decimal logarithm of
/// `documents / (1 + containing)`.
#[derive(Debug, Clone, Copy, PartialEq, Eq, Structural)]
pub struct InverseDocumentFrequency {
    pub documents: usize,
    pub containing: usize,
}

impl InverseDocumentFrequency {
    /// The number whose decimal logarithm is the value.
    pub open spec fn argument(self) -> real {
        idf_argument(self.documents as nat, self.containing as nat)
    }

    /// The sign of the value, which is the sign of the logarithm of
    /// `argument()`: negative below one, zero at one, positive above.
    pub open spec fn spec_sign(self) -> Sign {
        if self.argument() < 1real {
            Sign::Negative
        } else if self.argument() == 1real {
            Sign::Zero
        } else {
            Sign::Positive
        }
    }

    /// The sign of the value.
    pub fn sign(&self) -> (s: Sign)
        ensures
            s == self.spec_sign(),
    {
        proof {
            lemma_idf_argument_order(self.documents as nat, self.containing as nat);
        }
        if self.documents <= self.containing {
            Sign::Negative
        } else if self.documents - self.containing == 1 {
            Sign::Zero
        } else {
            Sign::Positive
        }
    }
}

/// Whether `log` may be the value of `idf`: it has the sign of the logarithm
/// of the argument.
pub open spec fn has_sign_of(log: real, idf: InverseDocumentFrequency) -> bool {
    &&& log < 0real <==> idf.spec_sign() == Sign::Negative
    &&& log > 0real <==> idf.spec_sign() == Sign::Positive
}

/// The relevance of a document for a word: the inverse document frequency of
/// the word and its term frequency in the document.
#[derive(Debug, Clone, Copy, PartialEq, Eq, Structural)]
pub struct Score {
    pub idf: InverseDocumentFrequency,
    pub tf: TermFrequency,
}

impl Score {
    /// The score as a number, where `log` is the value of the inverse
    /// document frequency: their product, and the term frequency alone where
    /// `log` is zero.
    pub open spec fn value(self, log: real) -> real {
        if log != 0real {
            log * self.tf.value()
        } else {
            self.tf.value()
        }
    }

    /// The number by which scores are ordered: the term frequency, negated
    /// where the inverse document frequency is negative.
    pub open spec fn rank_key(self) -> real {
        if self.idf.spec_sign() == Sign::Negative {
            -self.tf.value()
        } else {
            self.tf.value()
        }
    }

    /// Whether the score is zero, which it is where the word does not occur
    /// in the document.
    pub fn is_zero(&self) -> (b: bool)
        ensures
            b == (self.rank_key() == 0real),
            b == (self.tf.value() == 0real),
    {
        self.tf.is_zero()
    }

    /// Whether this score is higher than `other`.
    pub fn higher_than(&self, other: &Score) -> (b: bool)
        ensures
            b == (self.rank_key() > other.rank_key()),
    {
        proof {
            lemma_value_not_negative(self.tf);
            lemma_value_not_negative(other.tf);
        }
        let mine = matches!(self.idf.sign(), Sign::Negative);
        let theirs = matches!(other.idf.sign(), Sign::Negative);
        if mine && theirs {
            self.tf.less_than(&other.tf)
        } else if mine {
            false
        } else if theirs {
            !(self.tf.is_zero() && other.tf.is_zero())
        } else {
            other.tf.less_than(&self.tf)
        }
    }

    /// Whether this score and `other` are equally high.
    pub fn level_with(&self, other: &Score) -> (b: bool)
        ensures
            b == (self.rank_key() == other.rank_key()),
    {
        proof {
            lemma_value_not_negative(self.tf);
            lemma_value_not_negative(other.tf);
        }
        let mine = matches!(self.idf.sign(), Sign::Negative);
        let theirs = matches!(other.idf.sign(), Sign::Negative);
        if mine == theirs {
            self.tf.same_value(&other.tf)
        } else {
            self.tf.is_zero() && other.tf.is_zero()
        }
    }
}

/// A term frequency is not negative.
pub proof fn lemma_value_not_negative(tf: TermFrequency)
    ensures
        tf.value() >= 0real,
{
    if tf.total > 0 {
        lemma_quotient_order(tf.count as nat, tf.total as nat, 0, 1);
    }
}

/// A score is zero exactly where the term frequency is, whatever the value
/// of the inverse document frequency.
pub proof fn lemma_zero_score(score: Score, log: real)
    ensures
        score.value(log) == 0real <==> score.tf.value() == 0real,
        score.value(log) == 0real <==> score.rank_key() == 0real,
{
    let x = score.tf.value();
    assert(log != 0real ==> (log * x == 0real <==> x == 0real)) by (nonlinear_arith);
}

/// Of two scores for the same word, the one with the higher key is the
/// higher number, whatever the value of the inverse document frequency is
/// within its sign.
pub proof fn lemma_rank_key_orders_values(a: Score, b: Score, log: real)
    requires
        a.idf == b.idf,
        has_sign_of(log, a.idf),
    ensures
        a.value(log) >= b.value(log) <==> a.rank_key() >= b.rank_key(),
        a.value(log) == b.value(log) <==> a.rank_key() == b.rank_key(),
{
    let x = a.tf.value();
    let y = b.tf.value();
    assert(log > 0real ==> (log * x >= log * y <==> x >= y) && (log * x == log * y <==> x == y))
        by (nonlinear_arith);
    assert(log < 0real ==> (log * x >= log * y <==> -x >= -y) && (log * x == log * y <==> x == y))
        by (nonlinear_arith);
}

} // verus!
