use memo_search::llm::{escape_xml, extract_decomposition_xml, is_valid_dimension, is_valid_query};
use memo_search::text::normalize_for_embedding;

#[test]
fn escape_replaces_all_special_characters() {
    assert_eq!(escape_xml("a&b<c>d\"e'f"), "a&amp;b&lt;c&gt;d&quot;e&apos;f");
}

#[test]
fn escape_leaves_plain_text_alone() {
    assert_eq!(escape_xml("cats purr loudly"), "cats purr loudly");
    assert_eq!(escape_xml(""), "");
}

#[test]
fn normalize_trims_and_collapses_whitespace() {
    assert_eq!(normalize_for_embedding("  hello   world \n"), "hello world");
    assert_eq!(normalize_for_embedding("\t\n  "), "");
    assert_eq!(normalize_for_embedding("one two"), "one two");
}

#[test]
fn valid_query_needs_five_to_three_hundred_characters() {
    assert!(!is_valid_query("hey"));
    assert!(!is_valid_query("  abcd  "));
    assert!(is_valid_query("abcde"));
    assert!(is_valid_query("  abcde  "));
    let long = "x".repeat(300);
    assert!(is_valid_query(&long));
    let too_long = "x".repeat(301);
    assert!(!is_valid_query(&too_long));
}

#[test]
fn valid_dimensions_are_the_five_facets() {
    for d in ["core", "why", "how", "case", "note"] {
        assert!(is_valid_dimension(d));
    }
    assert!(!is_valid_dimension("Core"));
    assert!(!is_valid_dimension("misc"));
    assert!(!is_valid_dimension(""));
}

#[test]
fn extract_cuts_the_queries_region() {
    let output = "chatter before <queries><query>x</query></queries> chatter after";
    let region = extract_decomposition_xml(output).unwrap();
    assert_eq!(region, "<queries><query>x</query></queries>");
}

#[test]
fn extract_rejects_missing_delimiters() {
    assert!(extract_decomposition_xml("no xml here").is_err());
    assert!(extract_decomposition_xml("<queries> unterminated").is_err());
    assert!(extract_decomposition_xml("</queries> only closing").is_err());
}
