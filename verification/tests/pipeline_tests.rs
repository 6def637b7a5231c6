use doc_cluster::loader::{validate_documents, Document, LoaderError};
use doc_cluster::pipeline::{process_tier, process_tiers, DEFAULT_THRESHOLD};

fn doc(filename: &str, text: &str) -> Document {
    Document { filename: filename.to_string(), text: text.to_string() }
}

#[test]
fn process_tier_end_to_end() {
    let docs = vec![
        doc("a.html", "fresh apple pie recipe apple"),
        doc("b.html", "fresh apple pie recipe apple"),
        doc("c.html", "stock market crash report"),
    ];
    let clusters = process_tier(&docs, DEFAULT_THRESHOLD).unwrap();
    assert_eq!(
        clusters,
        vec![
            vec!["a.html".to_string(), "b.html".to_string()],
            vec!["c.html".to_string()],
        ]
    );
}

#[test]
fn process_tiers_keeps_tiers_independent() {
    let tiers = vec![
        ("gold".to_string(), vec![doc("g1", "lion lion tiger"), doc("g2", "lion lion tiger")]),
        ("silver".to_string(), vec![doc("s1", "whale whale shark")]),
    ];
    let out = process_tiers(&tiers, DEFAULT_THRESHOLD).unwrap();
    assert_eq!(out.len(), 2);
    assert_eq!(out[0].0, "gold");
    assert_eq!(out[0].1, vec![vec!["g1".to_string(), "g2".to_string()]]);
    assert_eq!(out[1].0, "silver");
    assert_eq!(out[1].1, vec![vec!["s1".to_string()]]);
}

#[test]
fn process_tier_partitions_every_document() {
    let docs = vec![
        doc("a", "red green blue"),
        doc("b", "red red green"),
        doc("c", "????"),
        doc("d", "violet violet"),
    ];
    let clusters = process_tier(&docs, DEFAULT_THRESHOLD).unwrap();
    let mut seen: Vec<String> = clusters.into_iter().flatten().collect();
    seen.sort();
    assert_eq!(seen, vec!["a".to_string(), "b".to_string(), "c".to_string(), "d".to_string()]);
}

#[test]
fn empty_filename_fails_validation() {
    let tiers = vec![("tier1".to_string(), vec![doc("ok", "text"), doc("", "text")])];
    match validate_documents(&tiers) {
        Err(LoaderError::MissingField(field)) => assert_eq!(field, "filename"),
        Ok(()) => panic!("validation must reject an empty filename"),
    }
}

#[test]
fn nonempty_filenames_pass_validation() {
    let tiers = vec![
        ("tier1".to_string(), vec![doc("a", ""), doc("b", "x")]),
        ("tier2".to_string(), Vec::new()),
    ];
    assert!(validate_documents(&tiers).is_ok());
}

#[test]
fn loader_error_message_names_the_field() {
    let err = LoaderError::MissingField("filename".to_string());
    assert_eq!(err.message(), "missing required field: filename");
}
