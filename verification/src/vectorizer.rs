//! Turns a document into a fixed-length term-frequency vector aligned to a
//! tier vocabulary.
//!
//! Entry `i` is `count(vocab[i]) / total_tokens`, held in fixed point as
//! thousandths rounded down (`count * 1000 / total`), so the vectors carry no
//! floating point and identical documents always yield identical vectors. A
//! document with no tokens yields the all-zero vector. Stop words are not
//! filtered here: they were only excluded from the vocabulary's dimensions,
//! yet still count toward the total in the denominator.

use vstd::arithmetic::div_mod::{lemma_div_is_ordered, lemma_div_multiples_vanish};
use vstd::prelude::*;
use crate::loader::Document;
use crate::tokenizer::{tokenize, tokens_of, views_of};

verus! {

/// Fixed-point scale of a term-frequency entry: a frequency of one is
/// represented as 1000.
pub const SCALE: u32 = 1000;

/// The integer values of a vector of fixed-point entries.
pub open spec fn int_view(v: Seq<u32>) -> Seq<int> {
    v.map_values(|x: u32| x as int)
}

/// Every entry of `v` lies in `[0, bound]`.
pub open spec fn bounded(v: Seq<int>, bound: int) -> bool {
    forall|i: int| 0 <= i < v.len() ==> 0 <= #[trigger] v[i] <= bound
}

/// How often token `w` occurs in `tokens`.
pub open spec fn count_token(tokens: Seq<Seq<char>>, w: Seq<char>) -> nat
    decreases tokens.len(),
{
    if tokens.len() == 0 {
        0
    } else {
        count_token(tokens.drop_last(), w) + if tokens.last() == w {
            1nat
        } else {
            0nat
        }
    }
}

/// A token cannot occur more often than there are tokens.
pub proof fn lemma_count_le_len(tokens: Seq<Seq<char>>, w: Seq<char>)
    ensures
        count_token(tokens, w) <= tokens.len(),
    decreases tokens.len(),
{
    if tokens.len() > 0 {
        lemma_count_le_len(tokens.drop_last(), w);
    }
}

/// One fixed-point term-frequency entry: `count / total` in thousandths,
/// rounded down; zero when the document has no tokens at all.
pub open spec fn tf_entry(count: nat, total: nat) -> int {
    if total == 0 {
        0
    } else {
        (count * SCALE) as int / total as int
    }
}

/// The fixed-point term-frequency vector of `tokens` over `vocab`.
pub open spec fn spec_vector(tokens: Seq<Seq<char>>, vocab: Seq<Seq<char>>) -> Seq<int> {
    Seq::new(vocab.len(), |i: int| tf_entry(count_token(tokens, vocab[i]), tokens.len()))
}

/// The term-frequency feature vector of one document, index-aligned to its
/// tier's vocabulary.
#[derive(Debug, Clone)]
pub struct TextFeatures {
    pub tfidf_vector: Vec<u32>,
}

/// Counts the tokens of `tokens` whose view equals `w@`.
fn count_matches(tokens: &Vec<String>, w: &String) -> (c: usize)
    ensures
        c == count_token(views_of(tokens@), w@),
        c <= tokens@.len(),
{
    let ghost tv: Seq<Seq<char>> = views_of(tokens@);
    let n = tokens.len();
    let mut c: usize = 0;
    proof {
        assert(tv.take(0) =~= Seq::<Seq<char>>::empty());
    }
    for t in 0..n
        invariant
            n == tokens@.len(),
            tv == views_of(tokens@),
            c == count_token(tv.take(t as int), w@),
            c <= t,
    {
        proof {
            assert(tv.take(t + 1).drop_last() =~= tv.take(t as int));
            assert(tv.take(t + 1).last() == tv[t as int]);
        }
        if tokens[t].eq(w) {
            c = c + 1;
        }
    }
    proof {
        assert(tv.take(n as int) =~= tv);
    }
    c
}

impl TextFeatures {
    /// The vector is well formed for dimensionality `dim`: one entry per
    /// vocabulary word, each a fixed-point frequency of at most one.
    pub open spec fn wf(self, dim: int) -> bool {
        self.tfidf_vector@.len() == dim && bounded(int_view(self.tfidf_vector@), SCALE as int)
    }

    /// Builds the term-frequency vector of `doc` over `vocab`: entry `i`
    /// counts how often `vocab[i]` occurs among the document's tokens,
    /// divided by the total token count.
    pub fn from_document(doc: &Document, vocab: &Vec<String>) -> (r: TextFeatures)
        ensures
            r.wf(vocab@.len() as int),
            int_view(r.tfidf_vector@) == spec_vector(tokens_of(doc.text@), views_of(vocab@)),
    {
        let tokens = tokenize(doc.text.as_str());
        let tfidf = Self::compute_tfidf(&tokens, vocab);
        TextFeatures { tfidf_vector: tfidf }
    }

    /// The fixed-point frequency of each vocabulary word among `tokens`.
    fn compute_tfidf(tokens: &Vec<String>, vocab: &Vec<String>) -> (r: Vec<u32>)
        ensures
            r@.len() == vocab@.len(),
            bounded(int_view(r@), SCALE as int),
            int_view(r@) == spec_vector(views_of(tokens@), views_of(vocab@)),
    {
        let ghost tv: Seq<Seq<char>> = views_of(tokens@);
        let ghost vv: Seq<Seq<char>> = views_of(vocab@);
        let total: usize = tokens.len();
        let m = vocab.len();
        let mut r: Vec<u32> = Vec::new();
        for i in 0..m
            invariant
                m == vocab@.len(),
                total == tokens@.len(),
                tv == views_of(tokens@),
                vv == views_of(vocab@),
                r@.len() == i,
                forall|k: int|
                    0 <= k < i ==> #[trigger] r@[k] as int == tf_entry(
                        count_token(tv, vv[k]),
                        tv.len(),
                    ),
                forall|k: int| 0 <= k < i ==> 0 <= #[trigger] r@[k] <= SCALE,
        {
            let count: usize = count_matches(tokens, &vocab[i]);
            let entry: u32 = if total == 0 {
                0u32
            } else {
                let scaled: u128 = (count as u128) * (SCALE as u128);
                let q: u128 = scaled / (total as u128);
                proof {
                    lemma_div_is_ordered(
                        count as int * SCALE as int,
                        total as int * SCALE as int,
                        total as int,
                    );
                    lemma_div_multiples_vanish(SCALE as int, total as int);
                    assert(count as int * SCALE as int <= total as int * SCALE as int)
                        by (nonlinear_arith)
                        requires
                            0 <= count as int <= total as int,
                            SCALE as int > 0,
                    ;
                    assert(q <= SCALE);
                }
                q as u32
            };
            r.push(entry);
        }
        proof {
            assert(int_view(r@) =~= spec_vector(tv, vv));
        }
        r
    }
}

} // verus!
