use doc_cluster::clustering::cluster_documents;
use doc_cluster::loader::Document;
use doc_cluster::vectorizer::TextFeatures;

fn doc(filename: &str, text: &str) -> Document {
    Document { filename: filename.to_string(), text: text.to_string() }
}

fn features(docs: &Vec<Document>, vocab: &Vec<String>) -> Vec<TextFeatures> {
    docs.iter().map(|d| TextFeatures::from_document(d, vocab)).collect()
}

#[test]
fn vector_is_aligned_to_vocabulary() {
    let vocab = vec!["bird".to_string(), "cat".to_string(), "dog".to_string()];
    let d = doc("a", "cat dog cat");
    let f = TextFeatures::from_document(&d, &vocab);
    // Frequencies in thousandths, rounded down: 0, 2/3 and 1/3.
    assert_eq!(f.tfidf_vector, vec![0, 666, 333]);
    assert_eq!(f.tfidf_vector.len(), vocab.len());
}

#[test]
fn empty_document_yields_zero_vector() {
    let vocab = vec!["bird".to_string(), "cat".to_string()];
    let d = doc("a", "...");
    let f = TextFeatures::from_document(&d, &vocab);
    assert_eq!(f.tfidf_vector, vec![0, 0]);
}

#[test]
fn near_identical_documents_share_a_cluster() {
    // Identical term-frequency vectors have cosine similarity one, which
    // meets a threshold of 0.99.
    let vocab = vec!["apple".to_string(), "banana".to_string()];
    let docs = vec![doc("one", "apple banana apple"), doc("two", "apple banana apple")];
    let feats = features(&docs, &vocab);
    let clusters = cluster_documents(&docs, &feats, 9900);
    assert_eq!(clusters, vec![vec!["one".to_string(), "two".to_string()]]);
}

#[test]
fn dissimilar_documents_stay_apart() {
    // Cosine similarity of the two vectors is 0.4, well under 0.94.
    let vocab = vec!["bird".to_string(), "cat".to_string(), "dog".to_string()];
    let docs = vec![doc("a", "cat dog cat"), doc("b", "dog bird dog")];
    let feats = features(&docs, &vocab);
    let clusters = cluster_documents(&docs, &feats, 9400);
    assert_eq!(clusters, vec![vec!["a".to_string()], vec!["b".to_string()]]);
}

#[test]
fn zero_vector_starts_its_own_cluster() {
    // A document with no tokens has similarity zero with every cluster, so
    // it stays alone even at threshold zero.
    let vocab = vec!["cat".to_string()];
    let docs = vec![doc("full", "cat cat"), doc("blank", "???")];
    let feats = features(&docs, &vocab);
    let clusters = cluster_documents(&docs, &feats, 0);
    assert_eq!(clusters, vec![vec!["full".to_string()], vec!["blank".to_string()]]);
}

#[test]
fn clustering_same_order_twice_is_identical() {
    let vocab = vec!["ant".to_string(), "bee".to_string(), "cow".to_string()];
    let docs = vec![
        doc("a", "ant bee ant"),
        doc("b", "ant bee ant bee"),
        doc("c", "cow cow bee"),
        doc("d", "ant ant bee"),
    ];
    let feats = features(&docs, &vocab);
    let first = cluster_documents(&docs, &feats, 9400);
    let second = cluster_documents(&docs, &feats, 9400);
    assert_eq!(first, second);
}

#[test]
fn centroid_tracks_running_mean() {
    // Three equal documents: after each join the centroid stays the shared
    // vector, so all three land in one cluster at any threshold.
    let vocab = vec!["ant".to_string(), "bee".to_string()];
    let docs = vec![doc("a", "ant bee"), doc("b", "ant bee"), doc("c", "ant bee")];
    let feats = features(&docs, &vocab);
    let clusters = cluster_documents(&docs, &feats, 10000);
    assert_eq!(
        clusters,
        vec![vec!["a".to_string(), "b".to_string(), "c".to_string()]]
    );
}

#[test]
fn tie_keeps_earliest_cluster() {
    // Two identical clusters would match equally well; the document joins
    // the first one, created earlier.
    let vocab = vec!["ant".to_string(), "bee".to_string()];
    let docs = vec![doc("a", "ant"), doc("b", "bee"), doc("c", "ant")];
    let feats = features(&docs, &vocab);
    let clusters = cluster_documents(&docs, &feats, 9400);
    assert_eq!(
        clusters,
        vec![vec!["a".to_string(), "c".to_string()], vec!["b".to_string()]]
    );
}
