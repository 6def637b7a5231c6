use doc_cluster::loader::Document;
use doc_cluster::vocabulary::build_vocabulary;

fn doc(filename: &str, text: &str) -> Document {
    Document { filename: filename.to_string(), text: text.to_string() }
}

#[test]
fn vocabulary_is_sorted_and_deduplicated() {
    let docs = vec![doc("a", "zebra apple zebra"), doc("b", "mango apple")];
    let vocab = build_vocabulary(&docs);
    assert_eq!(vocab, vec!["apple".to_string(), "mango".to_string(), "zebra".to_string()]);
}

#[test]
fn vocabulary_excludes_stop_words() {
    let docs = vec![doc("a", "the cat and the dog")];
    let vocab = build_vocabulary(&docs);
    assert!(!vocab.contains(&"the".to_string()));
    assert!(!vocab.contains(&"and".to_string()));
    assert!(vocab.contains(&"cat".to_string()));
    assert!(vocab.contains(&"dog".to_string()));
}

#[test]
fn vocabulary_invariant_to_document_order() {
    let forward = vec![doc("a", "delta echo"), doc("b", "alpha bravo"), doc("c", "charlie")];
    let backward = vec![doc("c", "charlie"), doc("b", "alpha bravo"), doc("a", "delta echo")];
    assert_eq!(build_vocabulary(&forward), build_vocabulary(&backward));
}

#[test]
fn vocabulary_of_empty_corpus_is_empty() {
    let docs: Vec<Document> = Vec::new();
    let vocab = build_vocabulary(&docs);
    assert!(vocab.is_empty());
}

#[test]
fn vocabulary_lowercases_before_filtering() {
    // "The" must be filtered out like "the": matching is on lower-cased tokens.
    let docs = vec![doc("a", "The Bird")];
    let vocab = build_vocabulary(&docs);
    assert_eq!(vocab, vec!["bird".to_string()]);
}

#[test]
fn vocabulary_sorts_by_code_point() {
    // 'z' (U+007A) sorts before 'á' (U+00E1): order is by code point, which
    // agrees with byte order of the UTF-8 encoding.
    let docs = vec![doc("a", "ápple zebra")];
    let vocab = build_vocabulary(&docs);
    assert_eq!(vocab, vec!["zebra".to_string(), "ápple".to_string()]);
}
