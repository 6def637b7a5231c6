//! The laws the clustering pipeline obeys, stated and proved over the same
//! specification functions its contracts use.

use vstd::multiset::Multiset;
use vstd::prelude::*;
use crate::clustering::{
    accepts, best_upto, dot, norm_sq, spec_clusters, spec_step, updated_centroid, SpecCluster,
    THRESHOLD_DEN,
};
use crate::loader::Document;
use crate::vocabulary::{is_vocabulary, lemma_strict_sorted_unique};

verus! {

/// All member filenames of all clusters together, with multiplicity.
pub open spec fn all_members(cs: Seq<SpecCluster>) -> Multiset<Seq<char>>
    decreases cs.len(),
{
    if cs.len() == 0 {
        Multiset::empty()
    } else {
        all_members(cs.drop_last()).add(cs.last().members.to_multiset())
    }
}

proof fn lemma_all_members_push(cs: Seq<SpecCluster>, c: SpecCluster)
    ensures
        all_members(cs.push(c)) == all_members(cs).add(c.members.to_multiset()),
{
    assert(cs.push(c).drop_last() =~= cs);
    assert(cs.push(c).last() == c);
}

proof fn lemma_all_members_update(cs: Seq<SpecCluster>, j: int, c: SpecCluster, name: Seq<char>)
    requires
        0 <= j < cs.len(),
        c.members == cs[j].members.push(name),
    ensures
        all_members(cs.update(j, c)) =~= all_members(cs).insert(name),
    decreases cs.len(),
{
    broadcast use vstd::multiset::group_multiset_axioms;

    let up = cs.update(j, c);
    cs[j].members.to_multiset_ensures();
    if j == cs.len() - 1 {
        assert(up.drop_last() =~= cs.drop_last());
        assert(up.last() == c);
        assert(c.members.to_multiset() =~= cs[j].members.to_multiset().insert(name));
        assert(all_members(up) =~= all_members(cs).insert(name));
    } else {
        assert(up.drop_last() =~= cs.drop_last().update(j, c));
        assert(up.last() == cs.last());
        assert(cs.drop_last()[j] == cs[j]);
        lemma_all_members_update(cs.drop_last(), j, c, name);
        assert(all_members(up) =~= all_members(cs).insert(name));
    }
}

/// Partition law, counting form: after clustering the first `n` documents,
/// the member filenames of all clusters together are exactly the first `n`
/// input filenames, with multiplicity — nothing is dropped, duplicated or
/// invented.
pub proof fn lemma_cluster_partition(names: Seq<Seq<char>>, vecs: Seq<Seq<int>>, bp: int, n: int)
    requires
        0 <= n <= names.len(),
    ensures
        all_members(spec_clusters(names, vecs, bp, n)) == names.take(n).to_multiset(),
    decreases n,
{
    broadcast use vstd::multiset::group_multiset_axioms;

    if n == 0 {
        names.take(0).to_multiset_ensures();
        assert(names.take(0).to_multiset() =~= Multiset::empty());
    } else {
        lemma_cluster_partition(names, vecs, bp, n - 1);
        let prev = spec_clusters(names, vecs, bp, n - 1);
        let name = names[n - 1];
        let v = vecs[n - 1];
        assert(names.take(n) =~= names.take(n - 1).push(name));
        names.take(n - 1).to_multiset_ensures();
        assert(names.take(n).to_multiset() =~= names.take(n - 1).to_multiset().insert(name));
        match best_upto(v, prev, bp, prev.len() as int) {
            None => {
                let c = SpecCluster { centroid: v, members: seq![name] };
                lemma_all_members_push(prev, c);
                Seq::<Seq<char>>::empty().to_multiset_ensures();
                assert(seq![name] =~= Seq::<Seq<char>>::empty().push(name));
                assert(c.members.to_multiset() =~= Multiset::empty().insert(name));
                assert(all_members(spec_clusters(names, vecs, bp, n)) =~= all_members(
                    prev,
                ).insert(name));
            },
            Some(j) => {
                lemma_best_upto_in_range(v, prev, bp, prev.len() as int);
                let c = SpecCluster {
                    centroid: updated_centroid(prev[j].centroid, v, prev[j].members.len() + 1int),
                    members: prev[j].members.push(name),
                };
                lemma_all_members_update(prev, j, c, name);
            },
        }
        assert(all_members(spec_clusters(names, vecs, bp, n)) =~= names.take(n).to_multiset());
    }
}

/// A best-match index always refers to one of the first `n` clusters.
pub proof fn lemma_best_upto_in_range(v: Seq<int>, cs: Seq<SpecCluster>, bp: int, n: int)
    ensures
        best_upto(v, cs, bp, n) is Some ==> 0 <= best_upto(v, cs, bp, n)->0 < n,
    decreases n,
{
    if n > 0 {
        lemma_best_upto_in_range(v, cs, bp, n - 1);
    }
}

proof fn lemma_in_one_cluster(cs: Seq<SpecCluster>, j: int, x: Seq<char>)
    requires
        0 <= j < cs.len(),
        cs[j].members.contains(x),
    ensures
        all_members(cs).count(x) >= 1,
    decreases cs.len(),
{
    broadcast use vstd::multiset::group_multiset_axioms;

    cs[j].members.to_multiset_ensures();
    if j == cs.len() - 1 {
        assert(cs.last().members.to_multiset().count(x) > 0);
    } else {
        assert(cs.drop_last()[j] == cs[j]);
        lemma_in_one_cluster(cs.drop_last(), j, x);
    }
}

proof fn lemma_in_some_cluster(cs: Seq<SpecCluster>, x: Seq<char>)
    requires
        all_members(cs).count(x) >= 1,
    ensures
        exists|j: int| 0 <= j < cs.len() && (#[trigger] cs[j].members).contains(x),
    decreases cs.len(),
{
    broadcast use vstd::multiset::group_multiset_axioms;

    assert(cs.len() > 0);
    cs.last().members.to_multiset_ensures();
    if cs.last().members.to_multiset().count(x) > 0 {
        assert(cs[cs.len() - 1].members.contains(x));
    } else {
        lemma_in_some_cluster(cs.drop_last(), x);
        let j = choose|j: int|
            0 <= j < cs.drop_last().len() && (#[trigger] cs.drop_last()[j].members).contains(x);
        assert(cs[j].members.contains(x));
    }
}

/// The clusters after every document has been processed.
pub open spec fn final_clusters(names: Seq<Seq<char>>, vecs: Seq<Seq<int>>, bp: int) -> Seq<
    SpecCluster,
> {
    spec_clusters(names, vecs, bp, names.len() as int)
}

/// Partition law, set form: under unique input filenames, a filename lies in
/// some cluster exactly when it was an input, and never in two clusters.
pub proof fn lemma_partition_covers_and_disjoint(
    names: Seq<Seq<char>>,
    vecs: Seq<Seq<int>>,
    bp: int,
)
    requires
        forall|i: int, j: int| 0 <= i < j < names.len() ==> names[i] != names[j],
    ensures
        forall|x: Seq<char>|
            #[trigger] names.contains(x) <==> exists|j: int|
                0 <= j < final_clusters(names, vecs, bp).len() && #[trigger] final_clusters(
                    names,
                    vecs,
                    bp,
                )[j].members.contains(x),
        forall|j1: int, j2: int, x: Seq<char>|
            (0 <= j1 < final_clusters(names, vecs, bp).len() && 0 <= j2 < final_clusters(
                names,
                vecs,
                bp,
            ).len() && #[trigger] final_clusters(names, vecs, bp)[j1].members.contains(x)
                && #[trigger] final_clusters(names, vecs, bp)[j2].members.contains(x)) ==> j1
                == j2,
{
    broadcast use vstd::multiset::group_multiset_axioms;

    let cs = final_clusters(names, vecs, bp);
    lemma_cluster_partition(names, vecs, bp, names.len() as int);
    assert(names.take(names.len() as int) =~= names);
    names.to_multiset_ensures();
    assert(names.no_duplicates());
    names.lemma_multiset_has_no_duplicates();
    assert forall|x: Seq<char>| #[trigger] names.contains(x) implies exists|j: int|
        0 <= j < cs.len() && (#[trigger] cs[j].members).contains(x) by {
        assert(all_members(cs).count(x) >= 1);
        lemma_in_some_cluster(cs, x);
    }
    assert forall|x: Seq<char>|
        exists|j: int| 0 <= j < cs.len() && (#[trigger] cs[j].members).contains(
            x,
        ) implies #[trigger] names.contains(x) by {
        let j = choose|j: int| 0 <= j < cs.len() && (#[trigger] cs[j].members).contains(x);
        lemma_in_one_cluster(cs, j, x);
        assert(names.to_multiset().count(x) >= 1);
    }
    assert forall|j1: int, j2: int, x: Seq<char>|
        0 <= j1 < cs.len() && 0 <= j2 < cs.len() && #[trigger] cs[j1].members.contains(x)
        && #[trigger] cs[j2].members.contains(x) implies j1 == j2 by {
        if j1 != j2 {
            lemma_in_two_clusters(cs, if j1 < j2 {
                j1
            } else {
                j2
            }, if j1 < j2 {
                j2
            } else {
                j1
            }, x);
            assert(names.to_multiset().count(x) >= 2);
            assert(names.contains(x));
        }
    }
}

proof fn lemma_in_two_clusters(cs: Seq<SpecCluster>, j1: int, j2: int, x: Seq<char>)
    requires
        0 <= j1 < j2 < cs.len(),
        cs[j1].members.contains(x),
        cs[j2].members.contains(x),
    ensures
        all_members(cs).count(x) >= 2,
    decreases cs.len(),
{
    broadcast use vstd::multiset::group_multiset_axioms;

    cs[j2].members.to_multiset_ensures();
    if j2 == cs.len() - 1 {
        assert(cs.drop_last()[j1] == cs[j1]);
        lemma_in_one_cluster(cs.drop_last(), j1, x);
        assert(cs.last().members.to_multiset().count(x) >= 1);
    } else {
        assert(cs.drop_last()[j1] == cs[j1]);
        assert(cs.drop_last()[j2] == cs[j2]);
        lemma_in_two_clusters(cs.drop_last(), j1, j2, x);
    }
}

proof fn lemma_zero_vector_dot(v: Seq<int>, c: Seq<int>)
    requires
        forall|i: int| 0 <= i < v.len() ==> v[i] == 0,
    ensures
        dot(v, c) == 0,
    decreases v.len(),
{
    if v.len() > 0 && c.len() > 0 {
        assert(forall|i: int|
            0 <= i < v.drop_last().len() ==> #[trigger] v.drop_last()[i] == v[i] && v[i] == 0);
        lemma_zero_vector_dot(v.drop_last(), c.drop_last());
    }
}

/// Zero-vector law: a document whose vector is all zeros has similarity zero
/// with every cluster, so it always starts a cluster of its own, whatever
/// the threshold.
pub proof fn lemma_zero_vector_starts_new_cluster(
    cs: Seq<SpecCluster>,
    name: Seq<char>,
    v: Seq<int>,
    bp: int,
)
    requires
        forall|i: int| 0 <= i < v.len() ==> v[i] == 0,
    ensures
        spec_step(cs, name, v, bp) == cs.push(
            (SpecCluster { centroid: v, members: seq![name] }),
        ),
{
    lemma_zero_vector_dot(v, v);
    lemma_best_upto_none(cs, v, bp, cs.len() as int);
}

proof fn lemma_best_upto_none(cs: Seq<SpecCluster>, v: Seq<int>, bp: int, n: int)
    requires
        norm_sq(v) == 0,
    ensures
        best_upto(v, cs, bp, n) is None,
    decreases n,
{
    if n > 0 {
        lemma_best_upto_none(cs, v, bp, n - 1);
    }
}

/// Identical-vector law: two documents with the same nonzero feature vector
/// always share a cluster, for every threshold up to one. The first starts
/// the cluster; the second joins it, since their cosine similarity is
/// exactly one, and the running-mean centroid update leaves the centroid
/// unchanged.
pub proof fn lemma_identical_vectors_share_cluster(
    n1: Seq<char>,
    n2: Seq<char>,
    v: Seq<int>,
    bp: int,
)
    requires
        norm_sq(v) > 0,
        0 <= bp <= THRESHOLD_DEN,
    ensures
        ({
            let cs = spec_clusters(seq![n1, n2], seq![v, v], bp, 2);
            cs.len() == 1 && cs[0].members == seq![n1, n2] && cs[0].centroid == v
        }),
{
    let names = seq![n1, n2];
    let vecs = seq![v, v];
    let cs0 = spec_clusters(names, vecs, bp, 0);
    assert(cs0 =~= Seq::<SpecCluster>::empty());
    let cs1 = spec_clusters(names, vecs, bp, 1);
    assert(best_upto(v, cs0, bp, 0) is None);
    assert(cs1 =~= cs0.push((SpecCluster { centroid: v, members: seq![n1] })));
    let d = dot(v, v);
    assert(cs1.len() == 1);
    assert(cs1[0] == (SpecCluster { centroid: v, members: seq![n1] }));
    assert((d * 10000) * (d * 10000) >= bp * bp * d * d) by (nonlinear_arith)
        requires
            d > 0,
            0 <= bp <= 10000,
    ;
    assert(THRESHOLD_DEN == 10000);
    assert(accepts(v, cs1[0].centroid, bp));
    assert(best_upto(v, cs1, bp, 0) is None);
    assert(best_upto(v, cs1, bp, 1) == Some(0int));
    let cs2 = spec_clusters(names, vecs, bp, 2);
    let up = updated_centroid(v, v, 2);
    assert forall|i: int| 0 <= i < v.len() implies up[i] == v[i] by {
        vstd::arithmetic::div_mod::lemma_div_multiples_vanish(v[i], 2);
        assert(v[i] * (2 - 1) + v[i] == 2 * v[i]);
    }
    assert(up =~= v);
    assert(cs1[0].members.push(n2) =~= seq![n1, n2]);
    assert(cs2 =~= cs1.update(0, (SpecCluster { centroid: v, members: seq![n1, n2] })));
}

/// Vocabulary order-invariance law: two document lists holding the same
/// texts, in any orders, induce the same vocabulary.
pub proof fn lemma_vocabulary_order_invariant(
    docs1: Seq<Document>,
    docs2: Seq<Document>,
    stops: Seq<Seq<char>>,
    v1: Seq<Seq<char>>,
    v2: Seq<Seq<char>>,
)
    requires
        is_vocabulary(docs1, stops, v1),
        is_vocabulary(docs2, stops, v2),
        docs1.map_values(|d: Document| d.text@).to_multiset() == docs2.map_values(
            |d: Document| d.text@,
        ).to_multiset(),
    ensures
        v1 == v2,
{
    let t1 = docs1.map_values(|d: Document| d.text@);
    let t2 = docs2.map_values(|d: Document| d.text@);
    t1.to_multiset_ensures();
    t2.to_multiset_ensures();
    assert forall|w: Seq<char>| #[trigger] v1.contains(w) implies v2.contains(w) by {
        lemma_same_texts_same_vocab_membership(docs1, docs2, stops, w);
    }
    assert forall|w: Seq<char>| #[trigger] v2.contains(w) implies v1.contains(w) by {
        lemma_same_texts_same_vocab_membership(docs2, docs1, stops, w);
    }
    lemma_strict_sorted_unique(v1, v2);
}

proof fn lemma_same_texts_same_vocab_membership(
    docs1: Seq<Document>,
    docs2: Seq<Document>,
    stops: Seq<Seq<char>>,
    w: Seq<char>,
)
    requires
        docs1.map_values(|d: Document| d.text@).to_multiset() == docs2.map_values(
            |d: Document| d.text@,
        ).to_multiset(),
        crate::vocabulary::in_vocab(docs1, stops, w),
    ensures
        crate::vocabulary::in_vocab(docs2, stops, w),
{
    let t1 = docs1.map_values(|d: Document| d.text@);
    let t2 = docs2.map_values(|d: Document| d.text@);
    t1.to_multiset_ensures();
    t2.to_multiset_ensures();
    let i = choose|i: int|
        0 <= i < docs1.len() && crate::tokenizer::tokens_of(docs1[i].text@).contains(w);
    assert(t1[i] == docs1[i].text@);
    assert(t1.contains(t1[i]));
    assert(t1.to_multiset().count(t1[i]) > 0);
    assert(t2.to_multiset().count(t1[i]) > 0);
    assert(t2.contains(t1[i]));
    let j = choose|j: int| 0 <= j < t2.len() && t2[j] == t1[i];
    assert(docs2[j].text@ == docs1[i].text@);
    assert(crate::tokenizer::tokens_of(docs2[j].text@).contains(w));
}

} // verus!
