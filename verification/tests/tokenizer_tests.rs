use doc_cluster::tokenizer::tokenize;

#[test]
fn tokenize_mixed_punctuation() {
    let toks = tokenize("Hello, World! 2024");
    assert_eq!(toks, vec!["hello".to_string(), "world".to_string(), "2024".to_string()]);
}

#[test]
fn tokenize_empty_input() {
    let toks = tokenize("");
    assert!(toks.is_empty());
}

#[test]
fn tokenize_only_separators() {
    let toks = tokenize(" \t?!.,;--  ");
    assert!(toks.is_empty());
}

#[test]
fn tokenize_keeps_duplicates_in_order() {
    let toks = tokenize("cat dog cat");
    assert_eq!(toks, vec!["cat".to_string(), "dog".to_string(), "cat".to_string()]);
}

#[test]
fn tokenize_lowercases_unicode() {
    let toks = tokenize("Árvíztűrő Tükörfúrógép");
    assert_eq!(toks, vec!["árvíztűrő".to_string(), "tükörfúrógép".to_string()]);
}

#[test]
fn tokenize_splits_on_every_nonalnum() {
    let toks = tokenize("a1-b2_c3");
    assert_eq!(toks, vec!["a1".to_string(), "b2".to_string(), "c3".to_string()]);
}
