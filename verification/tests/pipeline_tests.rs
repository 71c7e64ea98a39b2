use memo_search::config::MultiQueryConfig;
use memo_search::error::SearchError;
use memo_search::expand::{ExpandParams, Expansion};
use memo_search::merge::{finalize_results, merge_results};
use memo_search::prompt::{summarize_request, SummarizeStep, NO_MEMORIES_MESSAGE};
use memo_search::rerank::{rank_by_vector, should_use_rerank};
use memo_search::types::{QueryResult, ScoreType, SubQueryResult};

fn result(id: &str, content: &str, score: u32) -> QueryResult {
    QueryResult {
        id: id.to_string(),
        content: content.to_string(),
        tags: vec![],
        updated_at: 0,
        score: Some(score),
        score_type: Some(ScoreType::Vector),
    }
}

#[test]
fn trivial_match_returns_the_single_memory() {
    // storage holds one memory; the first layer finds it, the second
    // finds nothing new, no rerank is owed, and the merge surfaces it
    let mut e = Expansion::start(ExpandParams::new(5, 3000));
    e.absorb_layer_one(vec![result("m", "cats purr", 9200)]);
    assert!(e.wants_next_layer());
    e.absorb_next_layer(vec![Vec::new()]);
    assert!(!e.wants_next_layer());
    let candidates = e.candidates;

    assert!(!should_use_rerank(&candidates, 5));
    let ranked = rank_by_vector(candidates, 5);

    let subs = vec![SubQueryResult { node_id: "node_0".to_string(), results: ranked }];
    let merged = merge_results(&subs, &MultiQueryConfig::default());
    let capped = finalize_results(merged, 5, 20);

    assert_eq!(capped.len(), 1);
    assert_eq!(capped[0].id, "m");
    assert_eq!(capped[0].content, "cats purr");
    assert_eq!(capped[0].score_type, Some(ScoreType::Vector));

    match summarize_request("cats purr loudly", &capped, None) {
        SummarizeStep::Ask(p) => assert!(p.contains("cats purr")),
        SummarizeStep::Reply(_) => panic!("one memory was surfaced, a prompt is owed"),
    }
}

#[test]
fn empty_storage_yields_an_empty_list_and_no_summary_call() {
    let mut e = Expansion::start(ExpandParams::new(5, 3500));
    e.absorb_layer_one(Vec::new());
    assert!(!e.wants_next_layer());
    let candidates = e.candidates;
    let ranked = rank_by_vector(candidates, 5);
    assert_eq!(ranked.len(), 0);

    let merged = merge_results(&Vec::new(), &MultiQueryConfig::default());
    let capped = finalize_results(merged, 5, 20);
    assert_eq!(capped.len(), 0);

    match summarize_request("anything", &capped, None) {
        SummarizeStep::Reply(m) => assert_eq!(m, NO_MEMORIES_MESSAGE),
        SummarizeStep::Ask(_) => panic!("nothing was surfaced, no chat call is owed"),
    }
}

#[test]
fn error_descriptions_are_nonempty() {
    let errors = [
        SearchError::DimensionMismatch,
        SearchError::StorageUnavailable,
        SearchError::ProviderTransport,
        SearchError::ProviderProtocol,
        SearchError::DecompositionEmpty,
        SearchError::Cancelled,
        SearchError::InvalidDateFormat,
    ];
    for e in errors {
        assert!(!e.describe().is_empty());
    }
}
