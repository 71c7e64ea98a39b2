//! The rerank selector: decide between cross-encoder reranking and a plain
//! vector sort, and carry out both halves.
//!
//! Rerank calls are paid and slow, so small candidate sets that are already
//! similar enough skip them.  When rerank is skipped, the candidates are
//! sorted by their vector scores untouched; when it runs, the provider's
//! `(index, score)` pairs are mapped back onto the candidate list.

use vstd::prelude::*;
use vstd::seq_lib::group_to_multiset_ensures;
use vstd::math::min;
use vstd::multiset::Multiset;

use crate::score::{score_or_zero, score_value};
use crate::types::{QueryResult, QueryResultView, ScoreType};

verus! {

broadcast use group_to_multiset_ensures;

/// Sum of the scores present in `s`.
pub open spec fn score_sum(s: Seq<QueryResultView>) -> int
    decreases s.len(),
{
    if s.len() == 0 {
        0
    } else {
        score_sum(s.drop_last()) + match s.last().score {
            Some(v) => v as int,
            None => 0,
        }
    }
}

/// Number of entries of `s` that carry a score.
pub open spec fn scored_count(s: Seq<QueryResultView>) -> int
    decreases s.len(),
{
    if s.len() == 0 {
        0
    } else {
        scored_count(s.drop_last()) + match s.last().score {
            Some(_) => 1int,
            None => 0int,
        }
    }
}

/// Whether the mean of the present scores exceeds `bar` (fixed-point).
/// With no score present the mean counts as zero.
pub open spec fn mean_above(s: Seq<QueryResultView>, bar: int) -> bool {
    score_sum(s) > bar * scored_count(s)
}

/// The selector skips rerank when the candidates already fit the limit, or
/// when a small set is already very similar: up to 15 candidates above a
/// mean of 0.80, or 16 to 25 candidates above a mean of 0.85.
pub open spec fn skip_rerank(s: Seq<QueryResultView>, limit: int) -> bool {
    ||| s.len() <= limit
    ||| (1 <= s.len() <= 15 && mean_above(s, 8000))
    ||| (16 <= s.len() <= 25 && mean_above(s, 8500))
}

/// Decide whether to invoke the rerank provider for these candidates.
pub fn should_use_rerank(candidates: &Vec<QueryResult>, limit: usize) -> (r: bool)
    ensures
        r == !skip_rerank(candidates@.map_values(|q: QueryResult| q@), limit as int),
{
    let ghost s = candidates@.map_values(|q: QueryResult| q@);
    let n = candidates.len();
    if n <= limit {
        return false;
    }
    let mut sum: u128 = 0;
    let mut scored: usize = 0;
    let mut i: usize = 0;
    while i < n
        invariant
            n == candidates@.len(),
            s == candidates@.map_values(|q: QueryResult| q@),
            s.len() == n,
            i <= n,
            scored <= i,
            sum == score_sum(s.subrange(0, i as int)),
            scored == scored_count(s.subrange(0, i as int)),
            sum <= i * 0x1_0000_0000,
        decreases n - i,
    {
        let ghost pre = s.subrange(0, i as int);
        match candidates[i].score {
            Some(v) => {
                proof {
                    assert((i + 1) * 0x1_0000_0000 == i * 0x1_0000_0000 + 0x1_0000_0000)
                        by (nonlinear_arith);
                }
                sum = sum + (v as u128);
                scored = scored + 1;
            },
            None => {
                proof {
                    assert((i + 1) * 0x1_0000_0000 >= i * 0x1_0000_0000) by (nonlinear_arith);
                }
            },
        }
        proof {
            assert(s.subrange(0, i + 1).drop_last() =~= pre);
            assert(s.subrange(0, i + 1).last() == s[i as int]);
        }
        i = i + 1;
    }
    proof {
        assert(s.subrange(0, n as int) =~= s);
    }
    let skip = if n >= 1 && n <= 15 {
        sum > 8000u128 * (scored as u128)
    } else if n >= 16 && n <= 25 {
        sum > 8500u128 * (scored as u128)
    } else {
        false
    };
    !skip
}

/// Candidates ordered by descending score, missing scores counting as
/// zero.
pub open spec fn sorted_by_score_desc(s: Seq<QueryResult>) -> bool {
    forall|i: int, j: int|
        0 <= i < j < s.len() ==> score_or_zero(s[i].score) >= score_or_zero(s[j].score)
}

/// The subsequence of candidates whose score is exactly `v`.  A stable
/// sort preserves it for every score, which pins the order of ties.
pub open spec fn with_score(s: Seq<QueryResult>, v: int) -> Seq<QueryResult>
    decreases s.len(),
{
    if s.len() == 0 {
        Seq::empty()
    } else {
        with_score(s.drop_last(), v) + (if score_or_zero(s.last().score) == v {
            seq![s.last()]
        } else {
            Seq::<QueryResult>::empty()
        })
    }
}

proof fn lemma_with_score_distributes(a: Seq<QueryResult>, b: Seq<QueryResult>, v: int)
    ensures
        with_score(a + b, v) == with_score(a, v) + with_score(b, v),
    decreases b.len(),
{
    if b.len() == 0 {
        assert(a + b =~= a);
        assert(with_score(a, v) + with_score(b, v) =~= with_score(a, v));
    } else {
        lemma_with_score_distributes(a, b.drop_last(), v);
        assert((a + b).drop_last() =~= a + b.drop_last());
        assert((a + b).last() == b.last());
        assert(with_score(a + b, v) =~= with_score(a, v) + with_score(b, v));
    }
}

proof fn lemma_with_score_absent(a: Seq<QueryResult>, v: int)
    requires
        forall|i: int| 0 <= i < a.len() ==> score_or_zero((#[trigger] a[i]).score) != v,
    ensures
        with_score(a, v).len() == 0,
    decreases a.len(),
{
    if a.len() > 0 {
        assert(forall|i: int|
            0 <= i < a.drop_last().len() ==> score_or_zero(
                (#[trigger] a.drop_last()[i]).score,
            ) != v) by {
            assert(forall|i: int| 0 <= i < a.len() - 1 ==> a.drop_last()[i] == a[i]);
        }
        lemma_with_score_absent(a.drop_last(), v);
        assert(a.last() == a[a.len() - 1]);
    }
}

/// Index of the first highest-scoring entry of `v`.
fn find_max_index(v: &Vec<QueryResult>) -> (r: usize)
    requires
        v@.len() > 0,
    ensures
        0 <= r < v@.len(),
        forall|j: int|
            0 <= j < v@.len() ==> score_or_zero(v@[r as int].score) >= score_or_zero(v@[j].score),
        forall|j: int|
            0 <= j < r ==> score_or_zero(v@[j].score) < score_or_zero(v@[r as int].score),
{
    let n = v.len();
    let mut best: usize = 0;
    let mut best_score = score_value(&v[0].score);
    let mut i: usize = 1;
    while i < n
        invariant
            n == v@.len(),
            0 < n,
            best < i <= n,
            best_score as int == score_or_zero(v@[best as int].score),
            forall|j: int| 0 <= j < i ==> best_score as int >= score_or_zero(v@[j].score),
            forall|j: int| 0 <= j < best ==> score_or_zero(v@[j].score) < best_score as int,
        decreases n - i,
    {
        let s = score_value(&v[i].score);
        if s > best_score {
            best = i;
            best_score = s;
        }
        i = i + 1;
    }
    best
}

/// Sort candidates by descending score.  The answer is a permutation of
/// the input: every returned entry is one of the given candidates, value
/// for value.  The sort is stable: for every score, the candidates
/// carrying it keep their relative order.
pub fn sort_by_score_desc(input: Vec<QueryResult>) -> (r: Vec<QueryResult>)
    ensures
        sorted_by_score_desc(r@),
        r@.to_multiset() == input@.to_multiset(),
        r@.len() == input@.len(),
        forall|v: int| with_score(r@, v) == with_score(input@, v),
{
    let ghost orig = input@;
    let mut rest = input;
    let mut out: Vec<QueryResult> = Vec::new();
    while rest.len() > 0
        invariant
            out@.to_multiset().add(rest@.to_multiset()) == orig.to_multiset(),
            out@.len() + rest@.len() == orig.len(),
            sorted_by_score_desc(out@),
            forall|i: int, j: int|
                0 <= i < out@.len() && 0 <= j < rest@.len() ==> score_or_zero(out@[i].score)
                    >= score_or_zero(rest@[j].score),
            forall|v: int|
                #[trigger] with_score(out@, v) + with_score(rest@, v) == with_score(orig, v),
        decreases rest@.len(),
    {
        let ghost out0 = out@;
        let ghost rest0 = rest@;
        let k = find_max_index(&rest);
        let x = rest.remove(k);
        proof {
            assert(rest@ =~= rest0.remove(k as int));
            assert(rest0.remove(k as int).to_multiset() =~= rest0.to_multiset().remove(
                rest0[k as int],
            ));
            assert(forall|j: int|
                0 <= j < rest@.len() ==> rest0.contains(#[trigger] rest@[j]) && score_or_zero(
                    rest@[j].score,
                ) <= score_or_zero(x.score)) by {
                assert(forall|j: int|
                    0 <= j < rest@.len() ==> rest@[j] == (if j < k {
                        rest0[j]
                    } else {
                        rest0[j + 1]
                    }));
            }
        }
        out.push(x);
        proof {
            assert(out@.to_multiset().add(rest@.to_multiset()) =~= out0.to_multiset().add(
                rest0.to_multiset(),
            ));
            let m = score_or_zero(x.score);
            let front = rest0.take(k as int);
            let back = rest0.skip(k + 1);
            assert(rest0 =~= front + (seq![x] + back));
            assert(rest@ =~= front + back);
            assert forall|v: int|
                #[trigger] with_score(out@, v) + with_score(rest@, v) == with_score(orig, v) by {
                lemma_with_score_distributes(front, seq![x] + back, v);
                lemma_with_score_distributes(seq![x], back, v);
                lemma_with_score_distributes(front, back, v);
                assert(seq![x].drop_last() =~= Seq::<QueryResult>::empty());
                assert(seq![x].last() == x);
                assert(with_score(Seq::<QueryResult>::empty(), v) == Seq::<QueryResult>::empty());
                assert(with_score(seq![x], v) == with_score(seq![x].drop_last(), v) + (
                if score_or_zero(x.score) == v {
                    seq![x]
                } else {
                    Seq::<QueryResult>::empty()
                }));
                assert(out@ =~= out0.push(x));
                assert(out@.drop_last() =~= out0);
                if v == m {
                    assert(forall|j: int|
                        0 <= j < front.len() ==> score_or_zero((#[trigger] front[j]).score) != v)
                        by {
                        assert(forall|j: int| 0 <= j < k ==> front[j] == rest0[j]);
                    }
                    lemma_with_score_absent(front, v);
                    assert(with_score(seq![x], v) =~= seq![x]);
                    assert(with_score(out@, v) =~= with_score(out0, v) + seq![x]);
                    assert(with_score(out@, v) + with_score(rest@, v) =~= with_score(out0, v)
                        + with_score(rest0, v));
                } else {
                    assert(with_score(seq![x], v) =~= Seq::<QueryResult>::empty());
                    assert(with_score(out@, v) =~= with_score(out0, v));
                    assert(with_score(rest@, v) =~= with_score(rest0, v));
                }
            }
        }
    }
    proof {
        assert(rest@.to_multiset() =~= Multiset::<QueryResult>::empty());
        assert(out@.to_multiset() =~= orig.to_multiset());
        assert forall|v: int| with_score(out@, v) == with_score(orig, v) by {
            assert(with_score(rest@, v) =~= Seq::<QueryResult>::empty());
            assert(with_score(out@, v) =~= with_score(out@, v) + with_score(rest@, v));
        }
    }
    out
}

/// Sort by vector score and keep at most `limit` entries, as the selector
/// does when it skips rerank.
///
/// Rerank-skip safety: every returned entry is one of the given
/// candidates, its score and score type untouched, so a skipped rerank can
/// never manufacture a score.
pub fn rank_by_vector(candidates: Vec<QueryResult>, limit: usize) -> (r: Vec<QueryResult>)
    ensures
        sorted_by_score_desc(r@),
        r@.len() == min(limit as int, candidates@.len() as int),
        forall|i: int| 0 <= i < r@.len() ==> candidates@.contains(#[trigger] r@[i]),
        exists|s: Seq<QueryResult>|
            {
                &&& s.to_multiset() == candidates@.to_multiset()
                &&& sorted_by_score_desc(s)
                &&& forall|v: int| with_score(s, v) == with_score(candidates@, v)
                &&& r@ == s.take(min(limit as int, candidates@.len() as int))
            },
{
    let ghost orig = candidates@;
    let mut sorted = sort_by_score_desc(candidates);
    let ghost full = sorted@;
    sorted.truncate(limit);
    proof {
        if limit as int <= full.len() {
            assert(sorted@ =~= full.take(min(limit as int, orig.len() as int)));
        } else {
            assert(sorted@ =~= full.take(min(limit as int, orig.len() as int)));
        }
        assert forall|i: int| 0 <= i < sorted@.len() implies orig.contains(#[trigger] sorted@[i]) by {
            assert(full.contains(sorted@[i]));
            assert(full.to_multiset().contains(sorted@[i]));
        }
    }
    sorted
}

/// One answer of the rerank provider: the position of a document in the
/// candidate list and the cross-encoder's relevance for it.
#[derive(Clone, Copy, PartialEq, Eq, Structural, Debug)]
pub struct RerankItem {
    pub index: usize,
    pub score: u32,
}

/// A candidate re-tagged with a rerank score.
pub open spec fn retagged(q: QueryResultView, s: u32) -> QueryResultView {
    QueryResultView {
        score: Some(s),
        score_type: Some(ScoreType::Rerank),
        ..q
    }
}

/// The rerank provider's answers mapped back onto the candidates, from
/// item `k` on: each in-range index picks its candidate, re-tagged with
/// the rerank score; out-of-range indexes are dropped.
pub open spec fn apply_from(cands: Seq<QueryResultView>, items: Seq<RerankItem>, k: int) -> Seq<
    QueryResultView,
>
    decreases items.len() - k,
{
    if k < 0 || k >= items.len() {
        Seq::empty()
    } else {
        let rest = apply_from(cands, items, k + 1);
        if items[k].index < cands.len() {
            seq![retagged(cands[items[k].index as int], items[k].score)] + rest
        } else {
            rest
        }
    }
}

/// Map the rerank provider's `(index, score)` answers back onto the
/// candidate list, in the provider's order, and keep at most `limit` of
/// them.  Each selected result carries the rerank score and the `Rerank`
/// score type.
pub fn apply_rerank_scores(
    candidates: &Vec<QueryResult>,
    reranked: &Vec<RerankItem>,
    limit: usize,
) -> (r: Vec<QueryResult>)
    ensures
        r@.map_values(|q: QueryResult| q@) == apply_from(
            candidates@.map_values(|q: QueryResult| q@),
            reranked@,
            0,
        ).take(
            min(
                limit as int,
                apply_from(
                    candidates@.map_values(|q: QueryResult| q@),
                    reranked@,
                    0,
                ).len() as int,
            ),
        ),
        r@.len() <= limit,
{
    let ghost cands = candidates@.map_values(|q: QueryResult| q@);
    let n = reranked.len();
    let cn = candidates.len();
    let mut out: Vec<QueryResult> = Vec::new();
    let mut k: usize = 0;
    while k < n
        invariant
            n == reranked@.len(),
            cn == candidates@.len(),
            cands == candidates@.map_values(|q: QueryResult| q@),
            cands.len() == cn,
            k <= n,
            apply_from(cands, reranked@, 0) == out@.map_values(|q: QueryResult| q@) + apply_from(
                cands,
                reranked@,
                k as int,
            ),
        decreases n - k,
    {
        let item = reranked[k];
        if item.index < cn {
            let mut picked = candidates[item.index].clone();
            picked.score = Some(item.score);
            picked.score_type = Some(ScoreType::Rerank);
            let ghost out0 = out@;
            out.push(picked);
            proof {
                assert(picked@ =~= retagged(cands[item.index as int], item.score));
                assert(out@.map_values(|q: QueryResult| q@) =~= out0.map_values(
                    |q: QueryResult| q@,
                ).push(picked@));
            }
        }
        k = k + 1;
    }
    proof {
        assert(out@.map_values(|q: QueryResult| q@) =~= out@.map_values(|q: QueryResult| q@)
            + apply_from(cands, reranked@, n as int));
    }
    let ghost full = out@.map_values(|q: QueryResult| q@);
    let ghost before = out@;
    out.truncate(limit);
    proof {
        let cut = min(limit as int, full.len() as int);
        assert(out@ =~= before.take(cut));
        assert(out@.map_values(|q: QueryResult| q@) =~= full.take(cut)) by {
            assert(forall|i: int|
                0 <= i < out@.len() ==> out@.map_values(|q: QueryResult| q@)[i] == (
                #[trigger] out@[i])@);
            assert(forall|i: int|
                0 <= i < before.len() ==> full[i] == (#[trigger] before[i])@);
        }
    }
    out
}

/// Whether every provider score lies in the unit interval.
fn all_scores_valid(items: &Vec<RerankItem>) -> (r: bool)
    ensures
        r == forall|i: int|
            0 <= i < items@.len() ==> crate::score::valid_score((#[trigger] items@[i]).score),
{
    let n = items.len();
    let mut i: usize = 0;
    while i < n
        invariant
            n == items@.len(),
            i <= n,
            forall|j: int|
                0 <= j < i ==> crate::score::valid_score((#[trigger] items@[j]).score),
        decreases n - i,
    {
        if items[i].score > crate::score::SCORE_SCALE {
            return false;
        }
        i = i + 1;
    }
    true
}

/// Settle one leaf's ranking after the provider answered (or failed):
/// a usable answer, every score in the unit interval, is mapped back
/// onto the candidates and truncated; a missing or malformed answer
/// falls back to the plain vector sort, as a rerank failure degrades to.
pub fn rerank_outcome(
    candidates: Vec<QueryResult>,
    answer: Option<Vec<RerankItem>>,
    limit: usize,
) -> (r: Vec<QueryResult>)
    ensures
        r@.len() <= limit,
        match answer {
            Some(items) => {
                if forall|i: int|
                    0 <= i < items@.len() ==> crate::score::valid_score(
                        (#[trigger] items@[i]).score,
                    ) {
                    r@.map_values(|q: QueryResult| q@) == apply_from(
                        candidates@.map_values(|q: QueryResult| q@),
                        items@,
                        0,
                    ).take(
                        min(
                            limit as int,
                            apply_from(
                                candidates@.map_values(|q: QueryResult| q@),
                                items@,
                                0,
                            ).len() as int,
                        ),
                    )
                } else {
                    vector_ranked(candidates@, limit as int, r@)
                }
            },
            None => vector_ranked(candidates@, limit as int, r@),
        },
{
    match answer {
        Some(items) => {
            if all_scores_valid(&items) {
                apply_rerank_scores(&candidates, &items, limit)
            } else {
                rank_by_vector(candidates, limit)
            }
        },
        None => rank_by_vector(candidates, limit),
    }
}

/// What the vector-sort path promises: the stable descending sort of the
/// candidates, truncated to the limit.
pub open spec fn vector_ranked(cands: Seq<QueryResult>, limit: int, r: Seq<QueryResult>) -> bool {
    exists|s: Seq<QueryResult>|
        {
            &&& s.to_multiset() == cands.to_multiset()
            &&& sorted_by_score_desc(s)
            &&& forall|v: int| with_score(s, v) == with_score(cands, v)
            &&& r == s.take(min(limit, cands.len() as int))
        }
}

/// Scores handed back by the rerank provider stay in the unit interval:
/// with valid item scores, every re-tagged result is well formed.
pub proof fn lemma_reranked_scores_in_unit(
    cands: Seq<QueryResultView>,
    items: Seq<RerankItem>,
    k: int,
)
    requires
        forall|i: int| 0 <= i < items.len() ==> crate::score::valid_score((#[trigger] items[i]).score),
    ensures
        crate::types::wf_results(apply_from(cands, items, k)),
    decreases items.len() - k,
{
    if 0 <= k < items.len() {
        lemma_reranked_scores_in_unit(cands, items, k + 1);
        let rest = apply_from(cands, items, k + 1);
        if items[k].index < cands.len() {
            let whole = apply_from(cands, items, k);
            assert forall|i: int| 0 <= i < whole.len() implies (#[trigger] whole[i]).wf() by {
                if i == 0 {
                    assert(whole[0] == retagged(cands[items[k].index as int], items[k].score));
                } else {
                    assert(whole[i] == rest[i - 1]);
                }
            }
        }
    }
}

} // verus!
