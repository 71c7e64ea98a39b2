use memo_search::rerank::{
    apply_rerank_scores, rank_by_vector, rerank_outcome, should_use_rerank, RerankItem,
};
use memo_search::types::{QueryResult, ScoreType};

fn result(id: &str, score: Option<u32>) -> QueryResult {
    QueryResult {
        id: id.to_string(),
        content: format!("content of {}", id),
        tags: vec![],
        updated_at: 0,
        score,
        score_type: Some(ScoreType::Vector),
    }
}

fn batch(n: usize, score: u32) -> Vec<QueryResult> {
    (0..n).map(|i| result(&format!("m{}", i), Some(score))).collect()
}

#[test]
fn few_candidates_skip_rerank() {
    // four candidates under a limit of five: no rerank call, whatever the scores
    let candidates = batch(4, 1000);
    assert!(!should_use_rerank(&candidates, 5));
}

#[test]
fn many_mediocre_candidates_want_rerank() {
    // thirty candidates with a mean of 0.55 and a limit of five
    let candidates = batch(30, 5500);
    assert!(should_use_rerank(&candidates, 5));
}

#[test]
fn small_high_quality_set_skips_rerank() {
    let candidates = batch(15, 8100);
    assert!(!should_use_rerank(&candidates, 5));
    // at exactly 0.80 the mean is not above the bar
    let candidates = batch(15, 8000);
    assert!(should_use_rerank(&candidates, 5));
}

#[test]
fn medium_set_needs_a_higher_mean() {
    let candidates = batch(25, 8600);
    assert!(!should_use_rerank(&candidates, 5));
    let candidates = batch(25, 8100);
    assert!(should_use_rerank(&candidates, 5));
    // past 25 candidates the rerank always runs
    let candidates = batch(26, 9900);
    assert!(should_use_rerank(&candidates, 5));
}

#[test]
fn missing_scores_count_as_zero_for_the_mean() {
    // ten scored at 0.9 and five unscored: mean over the scored ten is 0.9
    let mut candidates = batch(10, 9000);
    for i in 0..5 {
        candidates.push(result(&format!("u{}", i), None));
    }
    assert!(!should_use_rerank(&candidates, 5));
}

#[test]
fn vector_ranking_sorts_and_truncates() {
    let candidates = vec![
        result("a", Some(3000)),
        result("b", Some(9000)),
        result("c", None),
        result("d", Some(5000)),
    ];
    let ranked = rank_by_vector(candidates, 3);
    let ids: Vec<&str> = ranked.iter().map(|r| r.id.as_str()).collect();
    assert_eq!(ids, vec!["b", "d", "a"]);
}

#[test]
fn skipping_rerank_keeps_scores_untouched() {
    // rerank-skip safety: the returned entries carry the original vector
    // scores and the Vector score type
    let candidates = vec![result("a", Some(3000)), result("b", Some(9000))];
    let ranked = rank_by_vector(candidates, 5);
    assert_eq!(ranked.len(), 2);
    assert_eq!(ranked[0].id, "b");
    assert_eq!(ranked[0].score, Some(9000));
    assert_eq!(ranked[0].score_type, Some(ScoreType::Vector));
    assert_eq!(ranked[1].id, "a");
    assert_eq!(ranked[1].score, Some(3000));
    assert_eq!(ranked[1].score_type, Some(ScoreType::Vector));
}

#[test]
fn ties_keep_their_arrival_order() {
    let candidates = vec![
        result("first", Some(5000)),
        result("second", Some(5000)),
        result("third", Some(7000)),
    ];
    let ranked = rank_by_vector(candidates, 3);
    let ids: Vec<&str> = ranked.iter().map(|r| r.id.as_str()).collect();
    assert_eq!(ids, vec!["third", "first", "second"]);
}

#[test]
fn rerank_scores_are_mapped_back_by_index() {
    let candidates = batch(30, 5500);
    let reranked = vec![
        RerankItem { index: 7, score: 9800 },
        RerankItem { index: 2, score: 9100 },
        RerankItem { index: 99, score: 5000 }, // out of range, dropped
        RerankItem { index: 0, score: 100 },
    ];
    let out = apply_rerank_scores(&candidates, &reranked, 5);
    assert_eq!(out.len(), 3);
    assert_eq!(out[0].id, "m7");
    assert_eq!(out[0].score, Some(9800));
    assert_eq!(out[0].score_type, Some(ScoreType::Rerank));
    assert_eq!(out[1].id, "m2");
    assert_eq!(out[1].score, Some(9100));
    assert_eq!(out[2].id, "m0");
    assert_eq!(out[2].score, Some(100));
    assert_eq!(out[2].score_type, Some(ScoreType::Rerank));
}

#[test]
fn rerank_answers_are_truncated_to_the_limit() {
    let candidates = batch(30, 5500);
    let reranked: Vec<RerankItem> = (0..10)
        .map(|i| RerankItem { index: i, score: 9000 - 100 * i as u32 })
        .collect();
    let out = apply_rerank_scores(&candidates, &reranked, 5);
    assert_eq!(out.len(), 5);
    assert_eq!(out[0].id, "m0");
    assert_eq!(out[4].id, "m4");
}

#[test]
fn a_failed_or_malformed_rerank_falls_back_to_vector_sort() {
    // a missing answer degrades to the vector sort
    let candidates = vec![result("a", Some(3000)), result("b", Some(9000))];
    let out = rerank_outcome(candidates, None, 5);
    assert_eq!(out[0].id, "b");
    assert_eq!(out[0].score_type, Some(ScoreType::Vector));
    // an answer with a score outside the unit interval does too
    let candidates = vec![result("a", Some(3000)), result("b", Some(9000))];
    let bad = vec![RerankItem { index: 0, score: 20000 }];
    let out = rerank_outcome(candidates, Some(bad), 5);
    assert_eq!(out[0].id, "b");
    assert_eq!(out[0].score_type, Some(ScoreType::Vector));
    // a clean answer is applied
    let candidates = vec![result("a", Some(3000)), result("b", Some(9000))];
    let good = vec![RerankItem { index: 0, score: 9900 }];
    let out = rerank_outcome(candidates, Some(good), 5);
    assert_eq!(out.len(), 1);
    assert_eq!(out[0].id, "a");
    assert_eq!(out[0].score, Some(9900));
    assert_eq!(out[0].score_type, Some(ScoreType::Rerank));
}
