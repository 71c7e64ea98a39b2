use memo_search::config::DecompositionConfig;
use memo_search::tree::{limit_children, DecompositionTree, SearchDimension, TreeBuilder, TreeNode};
use memo_search::types::SubQuery;

fn sub(query: &str, need_expand: bool) -> SubQuery {
    SubQuery { dimension: "core".to_string(), query: query.to_string(), need_expand }
}

fn seven_subs() -> Vec<SubQuery> {
    (0..7).map(|i| sub(&format!("sub-question number {}", i), true)).collect()
}

#[test]
fn dimensions_round_trip_through_their_labels() {
    for name in ["core", "why", "how", "case", "note"] {
        assert_eq!(SearchDimension::from_str(name).as_str(), name);
    }
    let other = SearchDimension::from_str("weird");
    assert_eq!(other.as_str(), "weird");
}

#[test]
fn minted_ids_count_up() {
    let mut tree = DecompositionTree::new();
    assert_eq!(tree.alloc_id(), "node_0");
    assert_eq!(tree.alloc_id(), "node_1");
    assert_eq!(tree.alloc_id(), "node_2");
    assert_eq!(tree.node_count(), 0);
}

#[test]
fn leaves_are_the_childless_nodes() {
    let mut tree = DecompositionTree::new();
    let id0 = tree.alloc_id();
    let id1 = tree.alloc_id();
    tree.add_node(TreeNode {
        id: id0.clone(),
        dimension: SearchDimension::Core,
        query: "parent".to_string(),
        children: vec![id1.clone()],
    });
    tree.add_node(TreeNode {
        id: id1.clone(),
        dimension: SearchDimension::Why,
        query: "child".to_string(),
        children: vec![],
    });
    assert_eq!(tree.node_count(), 2);
    assert_eq!(tree.leaf_count(), 1);
    let leaves = tree.get_leaves();
    assert_eq!(leaves.len(), 1);
    assert_eq!(leaves[0].id, id1);
}

#[test]
fn limit_children_truncates() {
    let limited = limit_children(seven_subs(), 4);
    assert_eq!(limited.len(), 4);
    assert_eq!(limited[0].query, "sub-question number 0");
    assert_eq!(limited[3].query, "sub-question number 3");
}

#[test]
fn decomposition_overflow_is_capped() {
    // the model answers seven expandable sub-questions at both levels;
    // with four children per call, two levels and twelve leaves at most,
    // the first level keeps four nodes and the second level's outputs
    // fill the tree up to twelve leaves
    let config = DecompositionConfig { max_level: 2, max_total_leaves: 12, max_children: 4 };
    let mut b = TreeBuilder::start("the original question".to_string(), config);
    assert!(b.active());
    assert_eq!(b.pending_queries().len(), 1);
    b.apply_level(vec![Some(seven_subs())]);
    assert_eq!(b.tree.node_count(), 4);
    assert_eq!(b.tree.leaf_count(), 4);
    assert!(b.active());
    let pending = b.pending_queries();
    assert_eq!(pending.len(), 4);
    let responses = (0..4).map(|_| Some(seven_subs())).collect();
    b.apply_level(responses);
    assert_eq!(b.tree.leaf_count(), 12);
    // the depth cap leaves nothing queued
    assert!(!b.active());
    assert_eq!(b.pending_queries().len(), 0);
    let tree = b.finish();
    assert_eq!(tree.get_leaves().len(), 12);
}

#[test]
fn a_single_leaf_cap_degenerates_to_one_query() {
    let config = DecompositionConfig { max_level: 3, max_total_leaves: 1, max_children: 4 };
    let mut b = TreeBuilder::start("the original question".to_string(), config);
    b.apply_level(vec![Some(seven_subs())]);
    assert_eq!(b.tree.leaf_count(), 1);
    assert!(!b.active());
}

#[test]
fn failed_decomposition_leaves_the_node_alone() {
    let config = DecompositionConfig { max_level: 3, max_total_leaves: 12, max_children: 4 };
    let mut b = TreeBuilder::start("the original question".to_string(), config);
    b.apply_level(vec![None]);
    assert_eq!(b.tree.node_count(), 0);
    assert!(!b.active());
}

#[test]
fn unexpanded_sub_questions_stay_leaves() {
    let config = DecompositionConfig { max_level: 3, max_total_leaves: 12, max_children: 4 };
    let mut b = TreeBuilder::start("the original question".to_string(), config);
    b.apply_level(vec![Some(vec![sub("a focused question", false), sub("a broad question", true)])]);
    assert_eq!(b.tree.leaf_count(), 2);
    // only the broad question is queued for the next level
    assert_eq!(b.pending_queries(), vec!["a broad question".to_string()]);
}
