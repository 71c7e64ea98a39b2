//! Prompt construction for the decomposer and the summarizer.
//!
//! Both prompts interpolate the (already escaped) user query into fixed
//! frames; the summarizer also renders the surfaced memories as a numbered
//! list.  The exact text handed to the chat provider is pinned down by the
//! contracts, so a test can hold the prompts to the byte.

use vstd::prelude::*;
use vstd::string::StringExecFns;

use crate::text::{chars_to_string, decimal_chars, decimal_spec, str_to_chars};
use crate::types::{QueryResult, QueryResultView, ScoreType};
use crate::score::score_or_zero;

verus! {

/// Frame that precedes the user query in the decomposition prompt.
pub const DECOMPOSE_PROMPT_PREFIX: &'static str = "You are a search query analyst. Break the given question into focused sub-questions along the five facets of the memo model.\n\nFacets:\n- core: the central question\n- why: causes and principles\n- how: methods and steps\n- case: examples and practice\n- note: caveats and pitfalls\n\nRules:\n1. Pick the 3-5 most relevant facets, not necessarily all of them.\n2. Write one complete natural-language sub-question per chosen facet.\n3. Set need_expand to true only when the sub-question is still too broad to search directly, else false.\n\nAnswer with XML only, from <queries> to </queries>, without code fences:\n\n<queries>\n  <query>\n    <dimension>core</dimension>\n    <question>a complete question</question>\n    <need_expand>false</need_expand>\n  </query>\n</queries>\n\nThe question:\n<user_query>\n";

/// Frame that follows the user query in the decomposition prompt.
pub const DECOMPOSE_PROMPT_SUFFIX: &'static str = "\n</user_query>\n";

/// Build the decomposition prompt around an escaped user query.
pub fn build_decompose_prompt(escaped_query: &str) -> (r: String)
    ensures
        r@ == DECOMPOSE_PROMPT_PREFIX@ + escaped_query@ + DECOMPOSE_PROMPT_SUFFIX@,
{
    let mut p = String::new();
    p.append(DECOMPOSE_PROMPT_PREFIX);
    p.append(escaped_query);
    p.append(DECOMPOSE_PROMPT_SUFFIX);
    p
}

/// Opening of the summarization frame, up to the integration strategy.
pub const SUMMARIZE_PROMPT_A: &'static str = "You are a knowledge integrator. Your task is to answer the user's question by weaving the relevant memories into one coherent reply.\n\nIntegration strategy:\n<strategy>\n";

/// Between the strategy and the user query.
pub const SUMMARIZE_PROMPT_B: &'static str = "\n</strategy>\n\nThe question:\n<user_query>\n";

/// Between the user query and the memory list.
pub const SUMMARIZE_PROMPT_C: &'static str = "\n</user_query>\n\nRelevant memories:\n<memories>\n";

/// Closing of the summarization frame.
pub const SUMMARIZE_PROMPT_D: &'static str = "\n</memories>\n\nWrite the integrated answer.";

/// Strategy used when the configuration provides none.
pub const DEFAULT_SUMMARIZE_STRATEGY: &'static str = "Match the answer's shape to the question: factual lookups get a direct answer, how-to requests get the core method plus key details, why questions get the conclusion plus its reasons, and broad questions get a what-why-how-case-notes structure. Prefer the highest-scoring memories and keep the wording natural and brief.";

/// The fixed reply when there is nothing to summarize.
pub const NO_MEMORIES_MESSAGE: &'static str = "no relevant memories found";

/// Label printed for a vector-similarity score.
pub open spec fn similarity_label() -> Seq<char> {
    seq!['s', 'i', 'm', 'i', 'l', 'a', 'r', 'i', 't', 'y']
}

/// Label printed for a rerank score.
pub open spec fn rerank_label() -> Seq<char> {
    seq!['r', 'e', 'r', 'a', 'n', 'k']
}

/// Label of a result's score type.
pub open spec fn label_of(t: Option<ScoreType>) -> Seq<char> {
    match t {
        Some(ScoreType::Rerank) => rerank_label(),
        _ => similarity_label(),
    }
}

/// A fixed-point score rendered with two decimals, `0.87` for `8700`.
pub open spec fn score_text(s: Option<u32>) -> Seq<char> {
    let v = score_or_zero(s);
    seq![crate::text::digit_char(v / 10000)] + seq!['.'] + seq![
        crate::text::digit_char((v / 1000) % 10),
        crate::text::digit_char((v / 100) % 10),
    ]
}

/// One numbered entry of the memory list: `[idx] (label: score)` then the
/// content on its own line.
pub open spec fn entry_text(idx: int, r: QueryResultView) -> Seq<char> {
    seq!['['] + decimal_spec(idx) + seq![']', ' ', '('] + label_of(r.score_type) + seq![
        ':',
        ' ',
    ] + score_text(r.score) + seq![')', '\n'] + r.content
}

/// Separator between two entries of the memory list.
pub open spec fn entry_separator() -> Seq<char> {
    seq!['\n', '\n', '-', '-', '-', '\n', '\n']
}

/// The rendered memory list from entry `k` on; entries after the first are
/// preceded by the separator.
pub open spec fn memories_from(rs: Seq<QueryResultView>, k: int) -> Seq<char>
    decreases rs.len() - k,
{
    if k < 0 || k >= rs.len() {
        Seq::empty()
    } else {
        (if k > 0 {
            entry_separator()
        } else {
            Seq::empty()
        }) + entry_text(k + 1, rs[k]) + memories_from(rs, k + 1)
    }
}

/// The rendered memory list of the summarization prompt.
pub open spec fn memories_text_spec(rs: Seq<QueryResultView>) -> Seq<char> {
    memories_from(rs, 0)
}

/// Append the characters of `src` to `dst`.
fn push_chars(dst: &mut Vec<char>, src: &Vec<char>)
    ensures
        final(dst)@ == old(dst)@ + src@,
{
    let n = src.len();
    let mut i: usize = 0;
    while i < n
        invariant
            n == src@.len(),
            i <= n,
            dst@ == old(dst)@ + src@.subrange(0, i as int),
        decreases n - i,
    {
        dst.push(src[i]);
        proof {
            assert(dst@ =~= old(dst)@ + src@.subrange(0, i + 1));
        }
        i = i + 1;
    }
    proof {
        assert(dst@ =~= old(dst)@ + src@);
    }
}

/// Render one entry of the memory list.
#[verifier::rlimit(30)]
fn build_entry(r: &QueryResult, idx: u64) -> (entry: Vec<char>)
    ensures
        entry@ == entry_text(idx as int, r@),
{
    let sim = str_to_chars("similarity");
    let rer = str_to_chars("rerank");
    proof {
        reveal_strlit("similarity");
        reveal_strlit("rerank");
        assert(sim@ =~= similarity_label());
        assert(rer@ =~= rerank_label());
    }
    let mut entry: Vec<char> = Vec::new();
    entry.push('[');
    let num = decimal_chars(idx);
    push_chars(&mut entry, &num);
    entry.push(']');
    entry.push(' ');
    entry.push('(');
    let is_rerank = match r.score_type {
        Some(ScoreType::Rerank) => true,
        _ => false,
    };
    if is_rerank {
        push_chars(&mut entry, &rer);
    } else {
        push_chars(&mut entry, &sim);
    }
    entry.push(':');
    entry.push(' ');
    let v = crate::score::score_value(&r.score);
    entry.push(crate::text::digit_exec(v / 10000));
    entry.push('.');
    entry.push(crate::text::digit_exec((v / 1000) % 10));
    entry.push(crate::text::digit_exec((v / 100) % 10));
    entry.push(')');
    entry.push('\n');
    let content = str_to_chars(r.content.as_str());
    push_chars(&mut entry, &content);
    proof {
        assert(entry@ =~= entry_text(idx as int, r@));
    }
    entry
}

/// Render the numbered memory list for the summarization prompt.
pub fn build_memories_text(results: &Vec<QueryResult>) -> (r: String)
    ensures
        r@ == memories_text_spec(results@.map_values(|q: QueryResult| q@)),
{
    let ghost rs = results@.map_values(|q: QueryResult| q@);
    let n = results.len();
    let mut out: Vec<char> = Vec::new();
    let sep = str_to_chars("\n\n---\n\n");
    let sim = str_to_chars("similarity");
    let rer = str_to_chars("rerank");
    proof {
        reveal_strlit("\n\n---\n\n");
        reveal_strlit("similarity");
        reveal_strlit("rerank");
        assert(sep@ =~= entry_separator());
        assert(sim@ =~= similarity_label());
        assert(rer@ =~= rerank_label());
    }
    let mut i: usize = 0;
    while i < n
        invariant
            n == results@.len(),
            rs == results@.map_values(|q: QueryResult| q@),
            rs.len() == n,
            i <= n,
            sep@ == entry_separator(),
            sim@ == similarity_label(),
            rer@ == rerank_label(),
            memories_text_spec(rs) == out@ + memories_from(rs, i as int),
        decreases n - i,
    {
        let ghost out0 = out@;
        if i > 0 {
            push_chars(&mut out, &sep);
        }
        let entry = build_entry(&results[i], (i as u64) + 1);
        push_chars(&mut out, &entry);
        proof {
            assert(rs[i as int] == results@[i as int]@);
            assert(out@ =~= out0 + (if i > 0 {
                entry_separator()
            } else {
                Seq::<char>::empty()
            }) + entry_text(i + 1, rs[i as int]));
            assert(memories_text_spec(rs) == out@ + memories_from(rs, i + 1));
        }
        i = i + 1;
    }
    proof {
        assert(out@ =~= out@ + memories_from(rs, n as int));
    }
    chars_to_string(&out)
}

/// What the summarization stage should do next: hand `Reply` back to the
/// user as the summary without any provider call, or send `Ask` to the
/// chat provider and return its answer verbatim.
#[derive(Debug)]
pub enum SummarizeStep {
    Reply(String),
    Ask(String),
}

/// Decide the summarization step for a final result list.  An empty list
/// is answered with the fixed no-memories message and no chat call;
/// otherwise the prompt interpolates the strategy, the escaped query and
/// the rendered memory list into the summarization frame.
pub fn summarize_request(original_query: &str, results: &Vec<QueryResult>, strategy: Option<&str>) -> (r:
    SummarizeStep)
    ensures
        results@.len() == 0 ==> (r matches SummarizeStep::Reply(m) && m@
            == NO_MEMORIES_MESSAGE@),
        results@.len() > 0 ==> (r matches SummarizeStep::Ask(p) && p@ == SUMMARIZE_PROMPT_A@ + (
        match strategy {
            Some(s) => s@,
            None => DEFAULT_SUMMARIZE_STRATEGY@,
        }) + SUMMARIZE_PROMPT_B@ + crate::llm::escape_spec(original_query@) + SUMMARIZE_PROMPT_C@
            + memories_text_spec(results@.map_values(|q: QueryResult| q@)) + SUMMARIZE_PROMPT_D@),
{
    if results.len() == 0 {
        let mut m = String::new();
        m.append(NO_MEMORIES_MESSAGE);
        return SummarizeStep::Reply(m);
    }
    let memories = build_memories_text(results);
    let escaped = crate::llm::escape_xml(original_query);
    let mut p = String::new();
    p.append(SUMMARIZE_PROMPT_A);
    match strategy {
        Some(s) => p.append(s),
        None => p.append(DEFAULT_SUMMARIZE_STRATEGY),
    }
    p.append(SUMMARIZE_PROMPT_B);
    p.append(escaped.as_str());
    p.append(SUMMARIZE_PROMPT_C);
    p.append(memories.as_str());
    p.append(SUMMARIZE_PROMPT_D);
    SummarizeStep::Ask(p)
}

} // verus!
