use memo_search::config::MultiQueryConfig;
use memo_search::merge::{
    collapse_results, finalize_results, leaf_outcome, merge_results, sort_merged,
};
use memo_search::types::{QueryResult, ScoreType, SubQueryResult};

fn result(id: &str, score: u32) -> QueryResult {
    QueryResult {
        id: id.to_string(),
        content: format!("content of {}", id),
        tags: vec![],
        updated_at: 0,
        score: Some(score),
        score_type: Some(ScoreType::Vector),
    }
}

fn leaf(node_id: &str, results: Vec<QueryResult>) -> SubQueryResult {
    SubQueryResult { node_id: node_id.to_string(), results }
}

fn config(min_per_leaf: usize, max_total_results: usize) -> MultiQueryConfig {
    MultiQueryConfig {
        candidates_per_query: 50,
        top_n_per_leaf: 5,
        min_per_leaf,
        max_total_results,
        dedup_threshold: 9800,
    }
}

#[test]
fn collapse_keeps_the_best_score_and_both_sources() {
    let subs = vec![
        leaf("node_0", vec![result("m", 4000)]),
        leaf("node_1", vec![result("m", 7000)]),
    ];
    let merged = collapse_results(&subs);
    assert_eq!(merged.len(), 1);
    assert_eq!(merged[0].max_score, 7000);
    assert_eq!(merged[0].memory.score, Some(7000));
    assert!(merged[0].sources.contains(&"node_0".to_string()));
    assert!(merged[0].sources.contains(&"node_1".to_string()));
    assert_eq!(merged[0].sources.len(), 2);
}

#[test]
fn collapse_does_not_downgrade_on_a_lower_later_score() {
    let subs = vec![
        leaf("node_0", vec![result("m", 7000)]),
        leaf("node_1", vec![result("m", 4000)]),
    ];
    let merged = collapse_results(&subs);
    assert_eq!(merged.len(), 1);
    assert_eq!(merged[0].max_score, 7000);
    assert_eq!(merged[0].memory.score, Some(7000));
}

#[test]
fn sorting_is_by_best_score_descending() {
    let subs = vec![leaf("node_0", vec![result("low", 2000), result("high", 9000), result("mid", 5000)])];
    let sorted = sort_merged(collapse_results(&subs));
    let ids: Vec<&str> = sorted.iter().map(|m| m.memory.id.as_str()).collect();
    assert_eq!(ids, vec!["high", "mid", "low"]);
}

#[test]
fn fairness_guarantees_three_per_leaf() {
    // leaf one answers 0.90 down to 0.81, leaf two 0.70 down to 0.61; the
    // cap of eight keeps both top threes plus the next two of leaf one
    let l1: Vec<QueryResult> = (0..10).map(|i| result(&format!("a{}", i), 9000 - 100 * i as u32)).collect();
    let l2: Vec<QueryResult> = (0..10).map(|i| result(&format!("b{}", i), 7000 - 100 * i as u32)).collect();
    let subs = vec![leaf("node_0", l1), leaf("node_1", l2)];
    let merged = merge_results(&subs, &config(3, 8));
    let ids: Vec<&str> = merged.iter().map(|m| m.memory.id.as_str()).collect();
    assert_eq!(ids, vec!["a0", "a1", "a2", "b0", "b1", "b2", "a3", "a4"]);
}

#[test]
fn merge_caps_the_total_and_never_duplicates() {
    let l1: Vec<QueryResult> = (0..30).map(|i| result(&format!("a{}", i), 9000 - 10 * i as u32)).collect();
    let subs = vec![leaf("node_0", l1)];
    let merged = merge_results(&subs, &config(3, 20));
    assert_eq!(merged.len(), 20);
    let mut ids: Vec<String> = merged.iter().map(|m| m.memory.id.clone()).collect();
    ids.sort();
    ids.dedup();
    assert_eq!(ids.len(), 20);
}

#[test]
fn merging_the_same_results_twice_changes_nothing_here() {
    // the same leaf results re-merged under fresh node ids: collapse and
    // sort see the same memories at the same best scores, and with the
    // caps loose the final list is identical
    let l1: Vec<QueryResult> = (0..5).map(|i| result(&format!("a{}", i), 9000 - 100 * i as u32)).collect();
    let l1_copy = l1.clone();
    let once = merge_results(&vec![leaf("node_0", l1.clone())], &config(3, 20));
    let twice = merge_results(
        &vec![leaf("node_0", l1), leaf("node_7", l1_copy)],
        &config(3, 20),
    );
    let once_ids: Vec<String> = once.iter().map(|m| m.memory.id.clone()).collect();
    let twice_ids: Vec<String> = twice.iter().map(|m| m.memory.id.clone()).collect();
    assert_eq!(once_ids, twice_ids);
    for (a, b) in once.iter().zip(twice.iter()) {
        assert_eq!(a.max_score, b.max_score);
        assert_eq!(a.memory.score, b.memory.score);
    }
}

#[test]
fn finalize_caps_at_limit_and_max_total() {
    let l1: Vec<QueryResult> = (0..10).map(|i| result(&format!("a{}", i), 9000 - 100 * i as u32)).collect();
    let merged = merge_results(&vec![leaf("node_0", l1)], &config(3, 20));
    let capped = finalize_results(merged, 4, 20);
    assert_eq!(capped.len(), 4);
    assert_eq!(capped[0].id, "a0");
    let l2: Vec<QueryResult> = (0..10).map(|i| result(&format!("b{}", i), 9000 - 100 * i as u32)).collect();
    let merged = merge_results(&vec![leaf("node_0", l2)], &config(3, 20));
    let capped = finalize_results(merged, 50, 6);
    assert_eq!(capped.len(), 6);
}

#[test]
fn leaf_outcome_trims_and_drops_empty_leaves() {
    // an empty leaf contributes nothing to the merge
    assert!(leaf_outcome("node_0".to_string(), Vec::new(), 5).is_none());
    // a productive leaf is trimmed to its top entries
    let ranked: Vec<QueryResult> =
        (0..8).map(|i| result(&format!("a{}", i), 9000 - 100 * i as u32)).collect();
    let sub = leaf_outcome("node_1".to_string(), ranked, 5).unwrap();
    assert_eq!(sub.node_id, "node_1");
    assert_eq!(sub.results.len(), 5);
    assert_eq!(sub.results[0].id, "a0");
    assert_eq!(sub.results[4].id, "a4");
}

#[test]
fn empty_leaves_merge_to_an_empty_list() {
    let merged = merge_results(&Vec::new(), &config(3, 20));
    assert_eq!(merged.len(), 0);
    let capped = finalize_results(merged, 10, 20);
    assert_eq!(capped.len(), 0);
}
