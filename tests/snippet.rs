use skills_index::snippet::{extract_snippet, extract_snippets};

#[test]
fn test_extract_snippet_basic() {
    let content = "This is a test of the snippet extraction function.";
    let snippet = extract_snippet(content, "snippet", 10).unwrap();

    assert!(snippet.contains("snippet"));
    assert!(snippet.len() < content.len() + 6);
}

#[test]
fn test_extract_snippet_at_start() {
    let content = "Test content here with more words";
    let snippet = extract_snippet(content, "Test", 10).unwrap();

    assert!(snippet.starts_with("Test"));
    assert!(snippet.ends_with("..."));
}

#[test]
fn test_extract_snippet_at_end() {
    let content = "Some content here ending with target";
    let snippet = extract_snippet(content, "target", 10).unwrap();

    assert!(snippet.ends_with("target"));
    assert!(snippet.starts_with("..."));
}

#[test]
fn test_extract_snippet_not_found() {
    let content = "This content doesn't have the search term";
    let snippet = extract_snippet(content, "missing", 10);

    assert!(snippet.is_none());
}

#[test]
fn test_extract_snippet_case_insensitive() {
    let content = "This has a TERM in it";
    let snippet = extract_snippet(content, "term", 10).unwrap();

    assert!(snippet.to_lowercase().contains("term"));
}

#[test]
fn snippet_exact_window() {
    let content = "alpha beta gamma delta epsilon zeta";
    assert_eq!(extract_snippet(content, "delta", 3).unwrap(), "...gamma delta epsilon...");
    assert_eq!(extract_snippet(content, "alpha", 100).unwrap(), content);
}

#[test]
fn snippet_collapses_line_breaks() {
    let content = "one\n\n  two three  \r\nfour";
    assert_eq!(extract_snippet(content, "three", 50).unwrap(), "one two three four");
}

#[test]
fn snippets_for_each_found_term() {
    let terms = vec!["alpha".to_string(), "nope".to_string(), "zeta".to_string()];
    let s = extract_snippets("alpha beta zeta", &terms, 0);
    assert_eq!(s, vec!["alpha...", "...zeta"]);
}

#[test]
fn snippet_when_folding_changes_length() {
    let s = extract_snippet("İstanbul hook", "hook", 0).unwrap();
    assert_eq!(s, "...hook");
    let whole = extract_snippet("İstanbul hook", "HOOK", 20).unwrap();
    assert_eq!(whole, "i\u{307}stanbul hook");
}
