use doc_search::search::{search_chunks, search_files};

fn documents(pairs: &[(&str, &str)]) -> Vec<(String, String)> {
    pairs.iter().map(|(name, content)| (name.to_string(), content.to_string())).collect()
}

#[test]
fn test_search_chunks_vs_search_files() {
    // Create test data that demonstrates the difference between line and chunk search
    let files = vec![(
        "test.txt".to_string(),
        "This is a long paragraph about Rust programming. \
         It contains multiple sentences and spans several lines. \
         The word 'programming' appears here and provides good context \
         for understanding what this text is about."
            .to_string(),
    )];

    // Search for 'programming' using both methods
    let line_results = search_files("programming", &files);
    let chunk_results = search_chunks("programming", &files);

    // Line search finds the specific line
    assert_eq!(line_results.len(), 1);

    // Chunk search finds the chunk with more context
    assert_eq!(chunk_results.len(), 1);
    assert_eq!(chunk_results[0].text.len(), line_results[0].1[0].len());
    assert!(chunk_results[0].text.contains("Rust programming"));
    assert!(chunk_results[0].text.contains("context"));
}

#[test]
fn line_search_returns_name_and_line() {
    let files = documents(&[("a.txt", "nothing here\nRust programming is fun\nnor here")]);
    let found = search_files("programming", &files);
    assert_eq!(found, vec![("a.txt".to_string(), vec!["Rust programming is fun".to_string()])]);
}

#[test]
fn line_search_ignores_case() {
    let files = documents(&[("a.txt", "Hello WORLD\nhello world\nHELLO\n")]);
    let found = search_files("World", &files);
    assert_eq!(found.len(), 1);
    assert_eq!(found[0].1, vec!["Hello WORLD".to_string(), "hello world".to_string()]);
    let upper = search_files("ÉCOLE", &documents(&[("b.txt", "une école\nune ecole")]));
    assert_eq!(upper, vec![("b.txt".to_string(), vec!["une école".to_string()])]);
}

#[test]
fn line_search_leaves_out_documents_without_a_match() {
    let files = documents(&[
        ("a.txt", "apple\nbanana"),
        ("b.txt", "cherry"),
        ("c.txt", "pineapple\r\ngrape\r\napple pie"),
    ]);
    let found = search_files("apple", &files);
    assert_eq!(
        found,
        vec![
            ("a.txt".to_string(), vec!["apple".to_string()]),
            ("c.txt".to_string(), vec!["pineapple".to_string(), "apple pie".to_string()]),
        ]
    );
    assert!(search_files("kiwi", &files).is_empty());
    assert!(search_files("apple", &[]).is_empty());
}

#[test]
fn line_search_matches_substrings() {
    let files = documents(&[("a.txt", "programmer\nprogram\ngram")]);
    let found = search_files("gram", &files);
    assert_eq!(found[0].1.len(), 3);
}

#[test]
fn chunk_search_cuts_at_500_bytes() {
    let mut content = "a".repeat(499);
    content.push_str("Needle");
    content.push_str(&"b".repeat(600));
    let files = documents(&[("big.txt", &content)]);
    // "n" ends the first chunk and "eedle" begins the second.
    assert!(search_chunks("needle", &files).is_empty());
    let found = search_chunks("eedle", &files);
    assert_eq!(found.len(), 1);
    assert_eq!(found[0].index, 1);
    assert_eq!(found[0].text.len(), 500);
    assert_eq!(found[0].file, "big.txt");
    let all = search_chunks("b", &files);
    assert_eq!(all.len(), 2);
    assert_eq!(all[0].index, 1);
    assert_eq!(all[1].index, 2);
    assert_eq!(all[1].text.len(), 105);
}

#[test]
fn chunk_search_keeps_document_order_and_ignores_case() {
    let files = documents(&[
        ("one.txt", "The Quick brown fox"),
        ("two.txt", "lazy dog"),
        ("three.txt", "QUICK silver"),
    ]);
    let found = search_chunks("quick", &files);
    assert_eq!(found.len(), 2);
    assert_eq!(found[0].file, "one.txt");
    assert_eq!(found[0].index, 0);
    assert_eq!(found[1].file, "three.txt");
    assert!(search_chunks("cat", &files).is_empty());
    assert!(search_chunks("quick", &[]).is_empty());
}

#[test]
fn empty_query_matches_everything() {
    let files = documents(&[("a.txt", "x\ny"), ("b.txt", "")]);
    assert_eq!(search_chunks("", &files).len(), 1);
    let lines = search_files("", &files);
    assert_eq!(lines, vec![("a.txt".to_string(), vec!["x".to_string(), "y".to_string()])]);
}
