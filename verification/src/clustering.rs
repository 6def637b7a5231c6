//! Greedy single-pass clustering of documents by cosine similarity.
//!
//! Documents are processed strictly in input order. Each one either joins the
//! existing cluster whose centroid it resembles most — provided that cosine
//! similarity meets the threshold and strictly beats every earlier cluster's,
//! ties keeping the earliest cluster — or starts a new cluster. A joined
//! cluster's centroid becomes the running mean of its member vectors, updated
//! online as `(centroid * (n - 1) + v) / n` in fixed point.
//!
//! No similarity value is ever materialized: every comparison against the
//! threshold `bp / 10000` or against the best cluster so far is decided
//! exactly on integers by cross-multiplying the squared cosine terms, which
//! is sound because every quantity involved is non-negative. Similarity with
//! an all-zero vector counts as zero, so such documents always start their
//! own cluster.

use vstd::arithmetic::div_mod::{lemma_div_is_ordered, lemma_div_multiples_vanish};
use vstd::prelude::*;
use crate::loader::Document;
use crate::tokenizer::views_of;
use crate::vectorizer::{bounded, int_view, TextFeatures, SCALE};

verus! {

/// Most dimensions a feature vector may have here: keeps every
/// cross-multiplied similarity comparison inside `u128`.
pub const MAX_DIM: usize = 1048576;

/// Largest possible dot product of two bounded vectors of at most `MAX_DIM`
/// entries: `MAX_DIM * SCALE * SCALE`.
pub const MAX_DOT: u128 = 1048576000000;

/// The denominator of the similarity threshold: a threshold of `bp` means
/// `bp / 10000`.
pub const THRESHOLD_DEN: u32 = 10000;

/// A cluster as the specification sees it: the fixed-point centroid and the
/// member filenames in the order they were assigned.
pub struct SpecCluster {
    pub centroid: Seq<int>,
    pub members: Seq<Seq<char>>,
}

/// Dot product of two equally long integer vectors.
pub open spec fn dot(a: Seq<int>, b: Seq<int>) -> int
    decreases a.len(),
{
    if a.len() == 0 || b.len() == 0 {
        0
    } else {
        dot(a.drop_last(), b.drop_last()) + a.last() * b.last()
    }
}

/// Squared Euclidean norm of a vector.
pub open spec fn norm_sq(a: Seq<int>) -> int {
    dot(a, a)
}

/// Cosine similarity of `v` and `c` is positive and at least `bp / 10000`.
/// With `d = v . c`, the comparison `d / (|v| * |c|) >= bp / 10000` is taken
/// to squares — `(d * 10000)^2 >= bp^2 * |v|^2 * |c|^2` — which is exact
/// because both sides are non-negative.
pub open spec fn accepts(v: Seq<int>, c: Seq<int>, bp: int) -> bool {
    let d = dot(v, c);
    let nv = norm_sq(v);
    let nc = norm_sq(c);
    d > 0 && nv > 0 && nc > 0 && (d * THRESHOLD_DEN) * (d * THRESHOLD_DEN) >= bp * bp * nv * nc
}

/// Cosine similarity of `v` and `c` is positive and strictly greater than
/// that of `v` and `prev`: `d / |c|` against `dp / |prev|` taken to squares,
/// with the common factor `|v|` cancelled.
pub open spec fn improves(v: Seq<int>, c: Seq<int>, prev: Seq<int>) -> bool {
    let d = dot(v, c);
    let dp = dot(v, prev);
    d > 0 && norm_sq(v) > 0 && norm_sq(c) > 0 && d * d * norm_sq(prev) > dp * dp * norm_sq(c)
}

/// The index of the cluster among the first `n` whose centroid is most
/// similar to `v`, counting only clusters meeting the threshold; a tie keeps
/// the earliest cluster, and `None` means none qualifies.
pub open spec fn best_upto(v: Seq<int>, cs: Seq<SpecCluster>, bp: int, n: int) -> Option<int>
    decreases n,
{
    if n <= 0 {
        None
    } else {
        match best_upto(v, cs, bp, n - 1) {
            None => if accepts(v, cs[n - 1].centroid, bp) {
                Some(n - 1)
            } else {
                None
            },
            Some(j) => if accepts(v, cs[n - 1].centroid, bp) && improves(
                v,
                cs[n - 1].centroid,
                cs[j].centroid,
            ) {
                Some(n - 1)
            } else {
                Some(j)
            },
        }
    }
}

/// The running-mean centroid after a cluster of `n - 1` members with
/// centroid `c` takes in vector `v`: `(c * (n - 1) + v) / n` entry by entry,
/// rounded down.
pub open spec fn updated_centroid(c: Seq<int>, v: Seq<int>, n: int) -> Seq<int> {
    Seq::new(c.len(), |i: int| (c[i] * (n - 1) + v[i]) / n)
}

/// One clustering step: document `name` with vector `v` joins the best
/// qualifying cluster, or starts a new one holding exactly itself.
pub open spec fn spec_step(
    cs: Seq<SpecCluster>,
    name: Seq<char>,
    v: Seq<int>,
    bp: int,
) -> Seq<SpecCluster> {
    match best_upto(v, cs, bp, cs.len() as int) {
        None => cs.push(
            (SpecCluster {
                centroid: v,
                members: seq![name],
            }),
        ),
        Some(j) => cs.update(
            j,
            (SpecCluster {
                centroid: updated_centroid(cs[j].centroid, v, cs[j].members.len() + 1int),
                members: cs[j].members.push(name),
            }),
        ),
    }
}

/// The clusters after the first `n` documents have been processed in order.
pub open spec fn spec_clusters(
    names: Seq<Seq<char>>,
    vecs: Seq<Seq<int>>,
    bp: int,
    n: int,
) -> Seq<SpecCluster>
    decreases n,
{
    if n <= 0 {
        Seq::empty()
    } else {
        spec_step(spec_clusters(names, vecs, bp, n - 1), names[n - 1], vecs[n - 1], bp)
    }
}

/// The final partition: every cluster reduced to its member filenames.
pub open spec fn spec_cluster_documents(
    names: Seq<Seq<char>>,
    vecs: Seq<Seq<int>>,
    bp: int,
) -> Seq<Seq<Seq<char>>> {
    spec_clusters(names, vecs, bp, names.len() as int).map_values(|c: SpecCluster| c.members)
}

/// The filenames of a document list, in order.
pub open spec fn doc_names(docs: Seq<Document>) -> Seq<Seq<char>> {
    docs.map_values(|d: Document| d.filename@)
}

/// The integer feature vectors of a feature list, in order.
pub open spec fn feature_views(fs: Seq<TextFeatures>) -> Seq<Seq<int>> {
    fs.map_values(|f: TextFeatures| int_view(f.tfidf_vector@))
}

/// The member views of the returned partition.
pub open spec fn member_views(r: Seq<Vec<String>>) -> Seq<Seq<Seq<char>>> {
    r.map_values(|m: Vec<String>| views_of(m@))
}

/// A growing cluster: fixed-point centroid plus member filenames in
/// assignment order.
struct Cluster {
    centroid: Vec<u32>,
    members: Vec<String>,
}

spec fn abs_cluster(c: Cluster) -> SpecCluster {
    SpecCluster { centroid: int_view(c.centroid@), members: views_of(c.members@) }
}

spec fn abs_clusters(cs: Seq<Cluster>) -> Seq<SpecCluster> {
    cs.map_values(|c: Cluster| abs_cluster(c))
}

/// Dot product in `u128`, exact for bounded vectors of at most `MAX_DIM`
/// entries.
fn dot_u128(a: &Vec<u32>, b: &Vec<u32>) -> (r: u128)
    requires
        a@.len() == b@.len() <= MAX_DIM,
        bounded(int_view(a@), SCALE as int),
        bounded(int_view(b@), SCALE as int),
    ensures
        r == dot(int_view(a@), int_view(b@)),
        r <= a@.len() * 1000000,
{
    let ghost ia: Seq<int> = int_view(a@);
    let ghost ib: Seq<int> = int_view(b@);
    let n = a.len();
    let mut acc: u128 = 0;
    proof {
        assert(ia.take(0) =~= Seq::<int>::empty());
        assert(ib.take(0) =~= Seq::<int>::empty());
    }
    for i in 0..n
        invariant
            n == a@.len() == b@.len(),
            n <= MAX_DIM,
            ia == int_view(a@),
            ib == int_view(b@),
            bounded(ia, SCALE as int),
            bounded(ib, SCALE as int),
            acc == dot(ia.take(i as int), ib.take(i as int)),
            acc <= i * 1000000,
    {
        let x: u128 = a[i] as u128;
        let y: u128 = b[i] as u128;
        proof {
            assert(ia[i as int] == a@[i as int] as int);
            assert(ib[i as int] == b@[i as int] as int);
            assert(0 <= ia[i as int] <= SCALE as int);
            assert(0 <= ib[i as int] <= SCALE as int);
            assert(x <= 1000 && y <= 1000);
            assert(x * y <= 1000000) by (nonlinear_arith)
                requires
                    0 <= x <= 1000,
                    0 <= y <= 1000,
            ;
            assert(ia.take(i + 1).drop_last() =~= ia.take(i as int));
            assert(ib.take(i + 1).drop_last() =~= ib.take(i as int));
            assert(ia.take(i + 1).last() == ia[i as int]);
            assert(ib.take(i + 1).last() == ib[i as int]);
        }
        acc = acc + x * y;
    }
    proof {
        assert(ia.take(n as int) =~= ia);
        assert(ib.take(n as int) =~= ib);
    }
    acc
}

/// Whether `d / sqrt(nv * nc) >= bp / 10000`, decided exactly on squares.
fn meets_threshold(d: u128, nv: u128, nc: u128, bp: u32) -> (r: bool)
    requires
        d <= MAX_DOT,
        nv <= MAX_DOT,
        nc <= MAX_DOT,
        bp <= THRESHOLD_DEN,
    ensures
        r == ((d * THRESHOLD_DEN) * (d * THRESHOLD_DEN) >= bp * bp * nv * nc),
{
    let lb: u128 = d * (THRESHOLD_DEN as u128);
    proof {
        assert(lb <= 10485760000000000);
        assert(lb * lb <= 10485760000000000 * 10485760000000000) by (nonlinear_arith)
            requires
                0 <= lb <= 10485760000000000,
        ;
        assert((bp as u128) * (bp as u128) <= 100000000) by (nonlinear_arith)
            requires
                0 <= bp as u128 <= 10000,
        ;
        assert(nv * nc <= MAX_DOT * MAX_DOT) by (nonlinear_arith)
            requires
                0 <= nv <= MAX_DOT,
                0 <= nc <= MAX_DOT,
        ;
        assert(100000000u128 * (MAX_DOT * MAX_DOT) < u128::MAX);
        assert((bp as u128) * (bp as u128) * nv * nc <= 100000000u128 * (MAX_DOT * MAX_DOT))
            by (nonlinear_arith)
            requires
                0 <= (bp as u128) * (bp as u128) <= 100000000u128,
                0 <= nv * nc <= MAX_DOT * MAX_DOT,
        ;
    }
    let lhs: u128 = lb * lb;
    let b2: u128 = (bp as u128) * (bp as u128);
    proof {
        assert(b2 * nv <= 100000000u128 * MAX_DOT) by (nonlinear_arith)
            requires
                0 <= b2 <= 100000000u128,
                0 <= nv <= MAX_DOT,
        ;
        assert((b2 * nv) * nc <= (100000000u128 * MAX_DOT) * MAX_DOT) by (nonlinear_arith)
            requires
                0 <= b2 * nv <= 100000000u128 * MAX_DOT,
                0 <= nc <= MAX_DOT,
        ;
    }
    let rhs1: u128 = b2 * nv;
    let rhs: u128 = rhs1 * nc;
    lhs >= rhs
}

/// Whether `d / sqrt(nc)` strictly exceeds `db / sqrt(ncb)`, decided exactly
/// on squares.
fn strictly_better(d: u128, nc: u128, db: u128, ncb: u128) -> (r: bool)
    requires
        d <= MAX_DOT,
        nc <= MAX_DOT,
        db <= MAX_DOT,
        ncb <= MAX_DOT,
    ensures
        r == (d * d * ncb > db * db * nc),
{
    proof {
        assert(d * d <= MAX_DOT * MAX_DOT) by (nonlinear_arith)
            requires
                0 <= d <= MAX_DOT,
        ;
        assert((d * d) * ncb <= (MAX_DOT * MAX_DOT) * MAX_DOT) by (nonlinear_arith)
            requires
                0 <= d * d <= MAX_DOT * MAX_DOT,
                0 <= ncb <= MAX_DOT,
        ;
        assert(db * db <= MAX_DOT * MAX_DOT) by (nonlinear_arith)
            requires
                0 <= db <= MAX_DOT,
        ;
        assert((db * db) * nc <= (MAX_DOT * MAX_DOT) * MAX_DOT) by (nonlinear_arith)
            requires
                0 <= db * db <= MAX_DOT * MAX_DOT,
                0 <= nc <= MAX_DOT,
        ;
    }
    let l1: u128 = d * d;
    let l: u128 = l1 * ncb;
    let r1: u128 = db * db;
    let rr: u128 = r1 * nc;
    l > rr
}

/// The running-mean centroid update in fixed point: entries stay bounded by
/// `SCALE`, since the mean of values at most `SCALE` is at most `SCALE`.
fn updated_centroid_vec(c: &Vec<u32>, v: &Vec<u32>, n: usize) -> (r: Vec<u32>)
    requires
        n >= 1,
        c@.len() == v@.len(),
        bounded(int_view(c@), SCALE as int),
        bounded(int_view(v@), SCALE as int),
    ensures
        r@.len() == c@.len(),
        bounded(int_view(r@), SCALE as int),
        int_view(r@) == updated_centroid(int_view(c@), int_view(v@), n as int),
{
    let ghost ic: Seq<int> = int_view(c@);
    let ghost iv: Seq<int> = int_view(v@);
    let len = c.len();
    let mut r: Vec<u32> = Vec::new();
    for i in 0..len
        invariant
            len == c@.len() == v@.len(),
            n >= 1,
            ic == int_view(c@),
            iv == int_view(v@),
            bounded(ic, SCALE as int),
            bounded(iv, SCALE as int),
            r@.len() == i,
            forall|k: int|
                0 <= k < i ==> #[trigger] r@[k] as int == (ic[k] * (n - 1) + iv[k]) / (n as int),
            forall|k: int| 0 <= k < i ==> 0 <= #[trigger] r@[k] <= SCALE,
    {
        let ci: u128 = c[i] as u128;
        let vi: u128 = v[i] as u128;
        let nm1: u128 = (n - 1) as u128;
        proof {
            assert(ic[i as int] == c@[i as int] as int);
            assert(iv[i as int] == v@[i as int] as int);
            assert(0 <= ic[i as int] <= SCALE as int);
            assert(0 <= iv[i as int] <= SCALE as int);
            assert(ci <= 1000 && vi <= 1000);
            assert(ci * nm1 <= 1000 * nm1) by (nonlinear_arith)
                requires
                    0 <= ci <= 1000,
                    0 <= nm1,
            ;
            assert(1000 * nm1 + 1000 == 1000 * (nm1 + 1)) by (nonlinear_arith);
            lemma_div_is_ordered(
                ci as int * nm1 as int + vi as int,
                1000 * (nm1 as int + 1),
                nm1 as int + 1,
            );
            lemma_div_multiples_vanish(1000, nm1 as int + 1);
        }
        let e: u128 = (ci * nm1 + vi) / (n as u128);
        proof {
            assert(e <= 1000);
        }
        r.push(e as u32);
    }
    proof {
        assert(int_view(r@) =~= updated_centroid(ic, iv, n as int));
    }
    r
}

/// Assigns each document, strictly in input order, to the most similar
/// existing cluster whose cosine similarity to the document's vector meets
/// `threshold_bp / 10000`, or starts a new cluster; returns each cluster's
/// member filenames in assignment order.
pub fn cluster_documents(
    docs: &Vec<Document>,
    text_features: &Vec<TextFeatures>,
    threshold_bp: u32,
) -> (r: Vec<Vec<String>>)
    requires
        docs@.len() == text_features@.len(),
        threshold_bp <= THRESHOLD_DEN,
        forall|i: int, j: int|
            0 <= i < text_features@.len() && 0 <= j < text_features@.len()
                ==> #[trigger] text_features@[i].tfidf_vector@.len()
                == #[trigger] text_features@[j].tfidf_vector@.len(),
        forall|i: int|
            0 <= i < text_features@.len() ==> #[trigger] text_features@[i].tfidf_vector@.len()
                <= MAX_DIM,
        forall|i: int|
            0 <= i < text_features@.len() ==> bounded(
                #[trigger] int_view(text_features@[i].tfidf_vector@),
                SCALE as int,
            ),
    ensures
        member_views(r@) == spec_cluster_documents(
            doc_names(docs@),
            feature_views(text_features@),
            threshold_bp as int,
        ),
{
    let ghost names: Seq<Seq<char>> = doc_names(docs@);
    let ghost vecs: Seq<Seq<int>> = feature_views(text_features@);
    let ghost bp: int = threshold_bp as int;
    let ghost dim: int = if text_features@.len() > 0 {
        text_features@[0].tfidf_vector@.len() as int
    } else {
        0
    };
    let ndocs = docs.len();
    let mut clusters: Vec<Cluster> = Vec::new();
    proof {
        assert(abs_clusters(clusters@) =~= spec_clusters(names, vecs, bp, 0));
    }
    for d in 0..ndocs
        invariant
            ndocs == docs@.len() == text_features@.len(),
            names == doc_names(docs@),
            vecs == feature_views(text_features@),
            bp == threshold_bp as int,
            threshold_bp <= THRESHOLD_DEN,
            dim == if text_features@.len() > 0 {
                text_features@[0].tfidf_vector@.len() as int
            } else {
                0
            },
            forall|i: int, j: int|
                0 <= i < text_features@.len() && 0 <= j < text_features@.len()
                    ==> #[trigger] text_features@[i].tfidf_vector@.len()
                    == #[trigger] text_features@[j].tfidf_vector@.len(),
            forall|i: int|
                0 <= i < text_features@.len() ==> #[trigger] text_features@[i].tfidf_vector@.len()
                    <= MAX_DIM,
            forall|i: int|
                0 <= i < text_features@.len() ==> bounded(
                    #[trigger] int_view(text_features@[i].tfidf_vector@),
                    SCALE as int,
                ),
            abs_clusters(clusters@) == spec_clusters(names, vecs, bp, d as int),
            forall|k: int|
                0 <= k < clusters@.len() ==> #[trigger] clusters@[k].centroid@.len() == dim,
            forall|k: int|
                0 <= k < clusters@.len() ==> bounded(
                    #[trigger] int_view(clusters@[k].centroid@),
                    SCALE as int,
                ),
            forall|k: int| 0 <= k < clusters@.len() ==> #[trigger] clusters@[k].members@.len() >= 1,
    {
        let v: &Vec<u32> = &text_features[d].tfidf_vector;
        let ghost vv: Seq<int> = int_view(v@);
        proof {
            assert(vecs[d as int] == vv);
            assert(names[d as int] == docs@[d as int].filename@);
        }
        let nv: u128 = dot_u128(v, v);
        let ghost pcs: Seq<SpecCluster> = abs_clusters(clusters@);
        let nclusters = clusters.len();
        let mut best: Option<(usize, u128, u128)> = None;
        for k in 0..nclusters
            invariant
                nclusters == clusters@.len(),
                pcs == abs_clusters(clusters@),
                bp == threshold_bp as int,
                threshold_bp <= THRESHOLD_DEN,
                vv == int_view(v@),
                v@.len() == dim,
                dim <= MAX_DIM,
                bounded(vv, SCALE as int),
                nv == norm_sq(vv),
                nv <= MAX_DOT,
                forall|q: int|
                    0 <= q < clusters@.len() ==> #[trigger] clusters@[q].centroid@.len() == dim,
                forall|q: int|
                    0 <= q < clusters@.len() ==> bounded(
                        #[trigger] int_view(clusters@[q].centroid@),
                        SCALE as int,
                    ),
                best is None ==> best_upto(vv, pcs, bp, k as int) is None,
                best is Some ==> {
                    let (j, db, ncb) = best->0;
                    &&& best_upto(vv, pcs, bp, k as int) == Some(j as int)
                    &&& j < k
                    &&& db == dot(vv, pcs[j as int].centroid)
                    &&& ncb == norm_sq(pcs[j as int].centroid)
                    &&& db <= MAX_DOT
                    &&& ncb <= MAX_DOT
                },
        {
            let ck: &Vec<u32> = &clusters[k].centroid;
            proof {
                assert(pcs[k as int] == abs_cluster(clusters@[k as int]));
                assert(pcs[k as int].centroid == int_view(ck@));
            }
            let dk: u128 = dot_u128(v, ck);
            let nck: u128 = dot_u128(ck, ck);
            let qualifies: bool = dk > 0 && nv > 0 && nck > 0 && meets_threshold(
                dk,
                nv,
                nck,
                threshold_bp,
            );
            proof {
                assert(qualifies == accepts(vv, pcs[k as int].centroid, bp));
            }
            let take_it: bool = match best {
                None => qualifies,
                Some((_j, db, ncb)) => qualifies && strictly_better(dk, nck, db, ncb),
            };
            proof {
                if best is Some {
                    let (j, _db2, _ncb2) = best->0;
                    assert(take_it == (accepts(vv, pcs[k as int].centroid, bp) && improves(
                        vv,
                        pcs[k as int].centroid,
                        pcs[j as int].centroid,
                    )));
                }
            }
            if take_it {
                best = Some((k, dk, nck));
            }
        }
        match best {
            None => {
                let centroid_copy: Vec<u32> = v.clone();
                proof {
                    assert(int_view(centroid_copy@) =~= vv);
                }
                let fname: String = docs[d].filename.clone();
                let members: Vec<String> = vec![fname];
                let ghost oldc: Seq<Cluster> = clusters@;
                clusters.push(Cluster { centroid: centroid_copy, members });
                proof {
                    let newc = clusters@.last();
                    assert(abs_cluster(newc).centroid == vv);
                    assert(abs_cluster(newc).members =~= seq![names[d as int]]);
                    assert(abs_clusters(clusters@) =~= abs_clusters(oldc).push(abs_cluster(newc)));
                    assert(abs_clusters(clusters@) =~= spec_step(pcs, names[d as int], vv, bp));
                    assert(abs_clusters(clusters@) == spec_clusters(names, vecs, bp, d + 1));
                }
            },
            Some((j, _db, _ncb)) => {
                let ghost oldc: Seq<Cluster> = clusters@;
                let mut cl: Cluster = clusters.remove(j);
                let fname: String = docs[d].filename.clone();
                cl.members.push(fname);
                let n: usize = cl.members.len();
                let newcent: Vec<u32> = updated_centroid_vec(&cl.centroid, v, n);
                proof {
                    assert(int_view(newcent@) == updated_centroid(
                        pcs[j as int].centroid,
                        vv,
                        pcs[j as int].members.len() + 1int,
                    ));
                }
                cl.centroid = newcent;
                clusters.insert(j, cl);
                proof {
                    assert(clusters@ =~= oldc.update(j as int, clusters@[j as int]));
                    let sc = abs_cluster(clusters@[j as int]);
                    assert(sc.members =~= pcs[j as int].members.push(names[d as int]));
                    assert(abs_clusters(clusters@) =~= pcs.update(j as int, sc));
                    assert(abs_clusters(clusters@) =~= spec_step(pcs, names[d as int], vv, bp));
                    assert(abs_clusters(clusters@) == spec_clusters(names, vecs, bp, d + 1));
                }
            },
        }
    }
    let mut out: Vec<Vec<String>> = Vec::new();
    let nclusters = clusters.len();
    for k in 0..nclusters
        invariant
            nclusters == clusters@.len(),
            abs_clusters(clusters@) == spec_clusters(names, vecs, bp, ndocs as int),
            ndocs == names.len(),
            out@.len() == k,
            forall|q: int|
                0 <= q < k ==> #[trigger] views_of(out@[q]@) == abs_clusters(
                    clusters@,
                )[q].members,
    {
        let m: Vec<String> = clusters[k].members.clone();
        proof {
            assert forall|q: int| 0 <= q < m@.len() implies m@[q]@ == clusters@[k as int].members@[q]@ by {
                assert(cloned::<String>(clusters@[k as int].members@[q], m@[q]));
            }
            assert(views_of(m@) =~= views_of(clusters@[k as int].members@));
            assert(abs_clusters(clusters@)[k as int] == abs_cluster(clusters@[k as int]));
        }
        out.push(m);
    }
    proof {
        assert(member_views(out@) =~= spec_cluster_documents(names, vecs, bp));
    }
    out
}

} // verus!
