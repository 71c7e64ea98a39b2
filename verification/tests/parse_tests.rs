use memo_search::error::SearchError;
use memo_search::parse::parse_decomposition_xml;

#[test]
fn parses_well_formed_entries_in_order() {
    let xml = "<queries>\
        <query><dimension>core</dimension><question>what are cats</question><need_expand>false</need_expand></query>\
        <query><dimension>why</dimension><question>why do cats purr</question><need_expand>true</need_expand></query>\
        </queries>";
    let subs = parse_decomposition_xml(xml).unwrap();
    assert_eq!(subs.len(), 2);
    assert_eq!(subs[0].dimension, "core");
    assert_eq!(subs[0].query, "what are cats");
    assert!(!subs[0].need_expand);
    assert_eq!(subs[1].dimension, "why");
    assert_eq!(subs[1].query, "why do cats purr");
    assert!(subs[1].need_expand);
}

#[test]
fn tolerates_whitespace_and_missing_dimension() {
    let xml = "<queries>\n  <query>\n    <question>how do cats sleep</question>\n    <need_expand> true </need_expand>\n  </query>\n</queries>";
    let subs = parse_decomposition_xml(xml).unwrap();
    assert_eq!(subs.len(), 1);
    assert_eq!(subs[0].dimension, "");
    assert_eq!(subs[0].query, "how do cats sleep");
    assert!(subs[0].need_expand);
}

#[test]
fn drops_entries_with_invalid_question_length() {
    let xml = "<queries>\
        <query><question>hey</question><need_expand>false</need_expand></query>\
        <query><question>a question long enough</question><need_expand>false</need_expand></query>\
        </queries>";
    let subs = parse_decomposition_xml(xml).unwrap();
    assert_eq!(subs.len(), 1);
    assert_eq!(subs[0].query, "a question long enough");
}

#[test]
fn anything_but_true_means_no_expansion() {
    let xml = "<queries>\
        <query><question>a question long enough</question><need_expand>TRUE</need_expand></query>\
        </queries>";
    let subs = parse_decomposition_xml(xml).unwrap();
    assert!(!subs[0].need_expand);
}

#[test]
fn empty_region_is_an_empty_decomposition() {
    let err = parse_decomposition_xml("<queries></queries>").unwrap_err();
    assert_eq!(err, SearchError::DecompositionEmpty);
    let err = parse_decomposition_xml("no entries at all").unwrap_err();
    assert_eq!(err, SearchError::DecompositionEmpty);
}

#[test]
fn unterminated_entry_ends_the_walk() {
    let xml = "<queries>\
        <query><question>a question long enough</question><need_expand>false</need_expand></query>\
        <query><question>an unterminated question</question>";
    let subs = parse_decomposition_xml(xml).unwrap();
    assert_eq!(subs.len(), 1);
}
