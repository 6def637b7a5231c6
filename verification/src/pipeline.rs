//! Runs the full pipeline per tier and over a whole corpus.
//!
//! Each tier is processed independently: build its vocabulary, vectorize its
//! documents in order, cluster them. Tiers share no state, so a failing tier
//! fails the whole run, and the order of tiers in the result follows the
//! input. The one failure mode is a tier whose vocabulary exceeds the
//! fixed-point engine's dimension bound.

use vstd::prelude::*;
use crate::clustering::{
    cluster_documents, doc_names, feature_views, member_views, spec_cluster_documents, MAX_DIM,
    THRESHOLD_DEN,
};
use crate::loader::{Document, TierDocs};
use crate::tokenizer::{tokens_of, views_of};
use crate::vectorizer::{int_view, spec_vector, TextFeatures};
use crate::vocabulary::{build_vocabulary, spec_vocabulary, stop_list};

verus! {

/// The similarity threshold the pipeline uses when none is configured:
/// 9400 / 10000, a cosine similarity of 0.94.
pub const DEFAULT_THRESHOLD: u32 = 9400;

/// The vocabulary a tier's documents induce under the English stop-word
/// list.
pub open spec fn tier_vocab(docs: Seq<Document>) -> Seq<Seq<char>> {
    spec_vocabulary(docs, stop_list("en"@))
}

/// A tier can be processed when its vocabulary fits the fixed-point engine.
pub open spec fn tier_ok(docs: Seq<Document>) -> bool {
    tier_vocab(docs).len() <= MAX_DIM
}

/// The feature vectors of a tier's documents, in document order.
pub open spec fn tier_vectors(docs: Seq<Document>) -> Seq<Seq<int>> {
    Seq::new(docs.len(), |i: int| spec_vector(tokens_of(docs[i].text@), tier_vocab(docs)))
}

/// The cluster partition of one tier: each cluster's member filenames, in
/// cluster creation order.
pub open spec fn tier_result(docs: Seq<Document>, bp: int) -> Seq<Seq<Seq<char>>> {
    spec_cluster_documents(doc_names(docs), tier_vectors(docs), bp)
}

/// Clusters one tier: vocabulary, then one feature vector per document, then
/// the greedy single-pass engine over the documents in their given order.
/// `None` only when the tier's vocabulary is too large for the engine.
pub fn process_tier(docs: &Vec<Document>, threshold_bp: u32) -> (r: Option<Vec<Vec<String>>>)
    requires
        threshold_bp <= THRESHOLD_DEN,
    ensures
        r is Some <==> tier_ok(docs@),
        r is Some ==> member_views(r->0@) == tier_result(docs@, threshold_bp as int),
{
    let vocab: Vec<String> = build_vocabulary(docs);
    if vocab.len() > MAX_DIM {
        return None;
    }
    let n = docs.len();
    let mut feats: Vec<TextFeatures> = Vec::new();
    for i in 0..n
        invariant
            n == docs@.len(),
            views_of(vocab@) == tier_vocab(docs@),
            vocab@.len() <= MAX_DIM,
            feats@.len() == i,
            forall|k: int| 0 <= k < i ==> (#[trigger] feats@[k]).wf(vocab@.len() as int),
            forall|k: int|
                0 <= k < i ==> int_view(#[trigger] feats@[k].tfidf_vector@) == spec_vector(
                    tokens_of(docs@[k].text@),
                    views_of(vocab@),
                ),
    {
        let f = TextFeatures::from_document(&docs[i], &vocab);
        feats.push(f);
    }
    proof {
        assert(feature_views(feats@) =~= tier_vectors(docs@));
        assert forall|i: int, j: int|
            0 <= i < feats@.len() && 0 <= j < feats@.len() implies #[trigger] feats@[i].tfidf_vector@.len()
            == #[trigger] feats@[j].tfidf_vector@.len() by {
            assert(feats@[i].wf(vocab@.len() as int));
            assert(feats@[j].wf(vocab@.len() as int));
        }
        assert forall|i: int| 0 <= i < feats@.len() implies #[trigger] feats@[i].tfidf_vector@.len()
            <= MAX_DIM by {
            assert(feats@[i].wf(vocab@.len() as int));
        }
    }
    let clusters = cluster_documents(docs, &feats, threshold_bp);
    Some(clusters)
}

/// Clusters every tier of a corpus independently, keeping tier order; a
/// single failing tier aborts the whole run with `None`.
pub fn process_tiers(tiers: &TierDocs, threshold_bp: u32) -> (r: Option<
    Vec<(String, Vec<Vec<String>>)>,
>)
    requires
        threshold_bp <= THRESHOLD_DEN,
    ensures
        r is Some <==> (forall|i: int| 0 <= i < tiers@.len() ==> tier_ok(#[trigger] tiers@[i].1@)),
        r is Some ==> {
            &&& r->0@.len() == tiers@.len()
            &&& forall|i: int|
                0 <= i < tiers@.len() ==> (#[trigger] r->0@[i]).0@ == tiers@[i].0@
                    && member_views(r->0@[i].1@) == tier_result(
                    tiers@[i].1@,
                    threshold_bp as int,
                )
        },
{
    let n = tiers.len();
    let mut out: Vec<(String, Vec<Vec<String>>)> = Vec::new();
    for i in 0..n
        invariant
            n == tiers@.len(),
            threshold_bp <= THRESHOLD_DEN,
            out@.len() == i,
            forall|k: int| 0 <= k < i ==> tier_ok(#[trigger] tiers@[k].1@),
            forall|k: int|
                0 <= k < i ==> (#[trigger] out@[k]).0@ == tiers@[k].0@ && member_views(
                    out@[k].1@,
                ) == tier_result(tiers@[k].1@, threshold_bp as int),
    {
        let name: String = tiers[i].0.clone();
        match process_tier(&tiers[i].1, threshold_bp) {
            Some(clusters) => {
                out.push((name, clusters));
            },
            None => {
                return None;
            },
        }
    }
    Some(out)
}

} // verus!
