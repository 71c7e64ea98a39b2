use memo_search::config::{
    default_candidates_per_query, default_max_children, default_max_level,
    default_max_total_leaves, default_max_total_results, default_min_per_leaf,
    default_search_limit, default_similarity_threshold, default_top_n_per_leaf, ConfigScope,
    DecompositionConfig, MultiQueryConfig, RetrievalConfig,
};

#[test]
fn default_values_match_the_documented_table() {
    assert_eq!(default_search_limit(), 10);
    assert_eq!(default_similarity_threshold(), 3500);
    assert_eq!(default_max_level(), 3);
    assert_eq!(default_max_total_leaves(), 12);
    assert_eq!(default_max_children(), 4);
    assert_eq!(default_candidates_per_query(), 50);
    assert_eq!(default_top_n_per_leaf(), 5);
    assert_eq!(default_min_per_leaf(), 3);
    assert_eq!(default_max_total_results(), 20);
}

#[test]
fn default_structs_take_the_defaults() {
    let d = DecompositionConfig::default();
    assert_eq!(d.max_level, 3);
    assert_eq!(d.max_total_leaves, 12);
    assert_eq!(d.max_children, 4);
    let m = MultiQueryConfig::default();
    assert_eq!(m.candidates_per_query, 50);
    assert_eq!(m.top_n_per_leaf, 5);
    assert_eq!(m.min_per_leaf, 3);
    assert_eq!(m.max_total_results, 20);
    let r = RetrievalConfig::default();
    assert_eq!(r.search_limit, 10);
    assert_eq!(r.similarity_threshold, 3500);
}

#[test]
fn contradictory_scope_flags_are_rejected() {
    assert_eq!(ConfigScope::from_flags(false, false), Some(ConfigScope::Auto));
    assert_eq!(ConfigScope::from_flags(true, false), Some(ConfigScope::Local));
    assert_eq!(ConfigScope::from_flags(false, true), Some(ConfigScope::Global));
    assert_eq!(ConfigScope::from_flags(true, true), None);
}
