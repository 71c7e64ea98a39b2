use memo_search::prompt::{
    build_decompose_prompt, build_memories_text, summarize_request, SummarizeStep,
    DECOMPOSE_PROMPT_PREFIX, DECOMPOSE_PROMPT_SUFFIX, DEFAULT_SUMMARIZE_STRATEGY,
    NO_MEMORIES_MESSAGE, SUMMARIZE_PROMPT_A, SUMMARIZE_PROMPT_B, SUMMARIZE_PROMPT_C,
    SUMMARIZE_PROMPT_D,
};
use memo_search::types::{QueryResult, ScoreType};

fn result(id: &str, content: &str, score: Option<u32>, score_type: Option<ScoreType>) -> QueryResult {
    QueryResult {
        id: id.to_string(),
        content: content.to_string(),
        tags: vec![],
        updated_at: 0,
        score,
        score_type,
    }
}

#[test]
fn decompose_prompt_frames_the_escaped_query() {
    let p = build_decompose_prompt("why do cats purr?");
    assert_eq!(p, format!("{}why do cats purr?{}", DECOMPOSE_PROMPT_PREFIX, DECOMPOSE_PROMPT_SUFFIX));
}

#[test]
fn memories_text_numbers_labels_and_scores() {
    let results = vec![
        result("a", "cats purr", Some(8700), Some(ScoreType::Vector)),
        result("b", "dogs bark", Some(9150), Some(ScoreType::Rerank)),
        result("c", "fish swim", None, None),
    ];
    let text = build_memories_text(&results);
    assert_eq!(
        text,
        "[1] (similarity: 0.87)\ncats purr\n\n---\n\n[2] (rerank: 0.91)\ndogs bark\n\n---\n\n[3] (similarity: 0.00)\nfish swim"
    );
}

#[test]
fn empty_results_answer_without_a_chat_call() {
    // all leaves empty: no summarize call is owed, only the fixed message
    match summarize_request("anything", &Vec::new(), None) {
        SummarizeStep::Reply(m) => assert_eq!(m, NO_MEMORIES_MESSAGE),
        SummarizeStep::Ask(_) => panic!("an empty result list must not reach the chat provider"),
    }
}

#[test]
fn nonempty_results_build_the_exact_prompt() {
    let results = vec![result("a", "cats purr", Some(8700), Some(ScoreType::Vector))];
    let step = summarize_request("why <cats>?", &results, None);
    match step {
        SummarizeStep::Ask(p) => {
            let expected = format!(
                "{}{}{}why &lt;cats&gt;?{}[1] (similarity: 0.87)\ncats purr{}",
                SUMMARIZE_PROMPT_A,
                DEFAULT_SUMMARIZE_STRATEGY,
                SUMMARIZE_PROMPT_B,
                SUMMARIZE_PROMPT_C,
                SUMMARIZE_PROMPT_D
            );
            assert_eq!(p, expected);
        },
        SummarizeStep::Reply(_) => panic!("results were handed in, a prompt is owed"),
    }
}

#[test]
fn a_custom_strategy_replaces_the_default() {
    let results = vec![result("a", "cats purr", Some(8700), Some(ScoreType::Vector))];
    match summarize_request("query text", &results, Some("answer in one line")) {
        SummarizeStep::Ask(p) => assert!(p.contains("answer in one line")),
        SummarizeStep::Reply(_) => panic!("results were handed in, a prompt is owed"),
    }
}
