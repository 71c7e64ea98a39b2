use memo_search::expand::{filter_branch, ExpandParams, Expansion};
use memo_search::types::{Memory, QueryResult, ScoreType};

fn result_with_tags(id: &str, score: u32, tags: &[&str]) -> QueryResult {
    QueryResult {
        id: id.to_string(),
        content: format!("content of {}", id),
        tags: tags.iter().map(|t| t.to_string()).collect(),
        updated_at: 0,
        score: Some(score),
        score_type: Some(ScoreType::Vector),
    }
}

fn result(id: &str, score: u32) -> QueryResult {
    result_with_tags(id, score, &[])
}

fn memory(id: &str, tags: &[&str]) -> Memory {
    Memory {
        id: id.to_string(),
        content: format!("content of {}", id),
        tags: tags.iter().map(|t| t.to_string()).collect(),
        source_file: None,
        created_at: 0,
        updated_at: 0,
    }
}

#[test]
fn params_derive_budget_fanout_and_schedule() {
    let p = ExpandParams::new(5, 3500);
    assert_eq!(p.max_nodes, 50);
    assert_eq!(p.branch_limit, 9);
    assert_eq!(p.max_depth, 3);
    assert!(p.require_tag_overlap);
    assert_eq!(p.thresholds, vec![3500, 4000, 4500]);

    let p = ExpandParams::new(20, 3500);
    assert_eq!(p.max_nodes, 200);
    assert_eq!(p.branch_limit, 34);
}

#[test]
fn threshold_schedule_clamps_at_the_ceiling() {
    let p = ExpandParams::new(5, 9300);
    assert_eq!(p.thresholds, vec![9300, 9500, 9500]);
}

#[test]
fn empty_first_layer_finishes_the_expansion() {
    // layer one empty: the remaining layers are skipped and the leaf
    // yields nothing
    let mut e = Expansion::start(ExpandParams::new(5, 3500));
    e.absorb_layer_one(Vec::new());
    assert!(!e.wants_next_layer());
    assert_eq!(e.candidates.len(), 0);
}

#[test]
fn layer_one_deduplicates_by_id() {
    let mut e = Expansion::start(ExpandParams::new(5, 3500));
    e.absorb_layer_one(vec![result("m1", 9000), result("m2", 8000), result("m1", 7000)]);
    assert_eq!(e.candidates.len(), 2);
    assert_eq!(e.candidates[0].id, "m1");
    assert_eq!(e.candidates[0].score, Some(9000));
    assert_eq!(e.candidates[1].id, "m2");
    assert!(e.wants_next_layer());
    assert_eq!(e.next_threshold(), 4000);
}

#[test]
fn tag_gate_admits_only_overlapping_neighbors() {
    // the expanded memory carries tags a and b; a neighbor with tag a
    // stays, a neighbor with only tag c falls
    let m = memory("m", &["a", "b"]);
    let related = vec![
        result_with_tags("n1", 8000, &["a"]),
        result_with_tags("n2", 7000, &["c"]),
    ];
    let kept = filter_branch(&m, related, true, 10);
    assert_eq!(kept.len(), 1);
    assert_eq!(kept[0].id, "n1");
}

#[test]
fn tag_gate_off_keeps_everything_up_to_the_branch_limit() {
    let m = memory("m", &["a"]);
    let related = vec![
        result_with_tags("n1", 8000, &["c"]),
        result_with_tags("n2", 7000, &["d"]),
        result_with_tags("n3", 6000, &["e"]),
    ];
    let kept = filter_branch(&m, related, false, 2);
    assert_eq!(kept.len(), 2);
    assert_eq!(kept[0].id, "n1");
    assert_eq!(kept[1].id, "n2");
}

#[test]
fn absorbing_respects_the_visited_set_and_budget() {
    let params = ExpandParams {
        max_nodes: 3,
        branch_limit: 5,
        max_depth: 3,
        require_tag_overlap: true,
        thresholds: vec![3500, 4000, 4500],
    };
    let mut e = Expansion::start(params);
    e.absorb_layer_one(vec![result("m1", 9000)]);
    let branches = vec![
        vec![result("m1", 8000), result("m2", 7000)],
        vec![result("m3", 6000), result("m4", 5000)],
    ];
    e.absorb_next_layer(branches);
    // m1 was already visited; m4 falls past the three-node budget
    let ids: Vec<&str> = e.candidates.iter().map(|r| r.id.as_str()).collect();
    assert_eq!(ids, vec!["m1", "m2", "m3"]);
    let frontier: Vec<&str> = e.frontier.iter().map(|r| r.id.as_str()).collect();
    assert_eq!(frontier, vec!["m2", "m3"]);
    // the budget is spent, so no further layer runs
    assert!(!e.wants_next_layer());
}

#[test]
fn depth_cap_ends_the_walk() {
    let mut e = Expansion::start(ExpandParams::new(5, 3500));
    e.absorb_layer_one(vec![result("m1", 9000)]);
    e.absorb_next_layer(vec![vec![result("m2", 8000)]]);
    assert_eq!(e.layer, 2);
    assert!(e.wants_next_layer());
    e.absorb_next_layer(vec![vec![result("m3", 7000)]]);
    assert_eq!(e.layer, 3);
    assert!(!e.wants_next_layer());
    assert_eq!(e.candidates.len(), 3);
}
