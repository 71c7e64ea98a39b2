//! Cross-leaf merge of the per-leaf search results.
//!
//! Stage A collapses all leaf results by memory id, keeping the best score
//! any leaf gave a memory and the set of leaves that surfaced it.  Stage B
//! sorts by that best score.  Stage C marks a fairness floor: up to
//! `min_per_leaf` memories per productive leaf.  Stage D emits the marked
//! memories first, then fills with the rest in score order, capped at
//! `max_total_results`.
//!
//! The appearances of the leaf results are modelled as a flat sequence of
//! `(leaf id, result)` pairs, and every stage's contract is stated against
//! that model.

use vstd::prelude::*;
use vstd::math::min;
use vstd::multiset::Multiset;
use vstd::seq_lib::group_to_multiset_ensures;

use crate::score::score_value;
use crate::text::str_eq;
use crate::types::{MergedResult, QueryResult, SubQueryResult, SubQueryResultView};

verus! {

broadcast use group_to_multiset_ensures;

/// One appearance of a memory: the leaf that surfaced it and the result.
pub type Appearance = (Seq<char>, crate::types::QueryResultView);

/// The appearances of one leaf, in result order.
pub open spec fn pairs_of(sub: SubQueryResultView) -> Seq<Appearance> {
    sub.results.map_values(|r: crate::types::QueryResultView| (sub.node_id, r))
}

/// All appearances of all leaves, leaf by leaf.
pub open spec fn flat_of(subs: Seq<SubQueryResultView>) -> Seq<Appearance>
    decreases subs.len(),
{
    if subs.len() == 0 {
        Seq::empty()
    } else {
        flat_of(subs.drop_last()) + pairs_of(subs.last())
    }
}

/// The flat appearance model of a sub-result list.
pub open spec fn appearance_model(subs: Seq<SubQueryResult>) -> Seq<Appearance> {
    flat_of(subs.map_values(|s: SubQueryResult| s@))
}

/// Best score any appearance gives to `id`; zero when `id` never appears
/// or appears only without a score.
pub open spec fn best_of(flat: Seq<Appearance>, id: Seq<char>) -> int
    decreases flat.len(),
{
    if flat.len() == 0 {
        0
    } else {
        let b = best_of(flat.drop_last(), id);
        if flat.last().1.id == id && flat.last().1.score_or() > b {
            flat.last().1.score_or()
        } else {
            b
        }
    }
}

/// Whether some appearance of `id` comes from leaf `n`.
pub open spec fn has_source(flat: Seq<Appearance>, id: Seq<char>, n: Seq<char>) -> bool {
    exists|k: int| 0 <= k < flat.len() && (#[trigger] flat[k]).1.id == id && flat[k].0 == n
}

/// The memory ids of the appearances, in order.
pub open spec fn flat_ids(flat: Seq<Appearance>) -> Seq<Seq<char>> {
    flat.map_values(|p: Appearance| p.1.id)
}

/// The sequence with every repeated element dropped: only the first
/// occurrence of each element stays, in order.
pub open spec fn dedup_first(s: Seq<Seq<char>>) -> Seq<Seq<char>>
    decreases s.len(),
{
    if s.len() == 0 {
        Seq::empty()
    } else {
        dedup_first(s.drop_last()) + (if s.drop_last().contains(s.last()) {
            Seq::<Seq<char>>::empty()
        } else {
            seq![s.last()]
        })
    }
}

/// Deduplication keeps exactly the elements of the input.
pub proof fn lemma_dedup_first_membership(s: Seq<Seq<char>>, x: Seq<char>)
    ensures
        dedup_first(s).contains(x) <==> s.contains(x),
    decreases s.len(),
{
    if s.len() > 0 {
        lemma_dedup_first_membership(s.drop_last(), x);
        assert(s.contains(x) <==> (s.drop_last().contains(x) || s.last() == x)) by {
            if s.contains(x) {
                let k = choose|k: int| 0 <= k < s.len() && s[k] == x;
                if k < s.len() - 1 {
                    assert(s.drop_last()[k] == x);
                }
            }
            if s.drop_last().contains(x) {
                let k = choose|k: int| 0 <= k < s.drop_last().len() && s.drop_last()[k] == x;
                assert(s[k] == x);
            }
        }
        let d = dedup_first(s.drop_last());
        if s.drop_last().contains(s.last()) {
            assert(dedup_first(s) =~= d);
        } else {
            assert(dedup_first(s) =~= d.push(s.last()));
            if d.contains(x) {
                let k = choose|k: int| 0 <= k < d.len() && d[k] == x;
                assert(dedup_first(s)[k] == x);
            }
            if x == s.last() {
                assert(dedup_first(s).last() == x);
            }
            if dedup_first(s).contains(x) {
                let k = choose|k: int| 0 <= k < dedup_first(s).len() && dedup_first(s)[k] == x;
                if k < d.len() {
                    assert(d[k] == x);
                } else {
                    assert(x == s.last());
                }
            }
        }
    }
}

/// Deduplication leaves no duplicates.
pub proof fn lemma_dedup_first_distinct(s: Seq<Seq<char>>)
    ensures
        forall|i: int, j: int|
            0 <= i < j < dedup_first(s).len() ==> dedup_first(s)[i] != dedup_first(s)[j],
    decreases s.len(),
{
    if s.len() > 0 {
        lemma_dedup_first_distinct(s.drop_last());
        if !s.drop_last().contains(s.last()) {
            lemma_dedup_first_membership(s.drop_last(), s.last());
            assert(!dedup_first(s.drop_last()).contains(s.last()));
            assert forall|i: int, j: int|
                0 <= i < j < dedup_first(s).len() implies dedup_first(s)[i] != dedup_first(
                s,
            )[j] by {
                if j < dedup_first(s).len() - 1 {
                    assert(dedup_first(s)[i] == dedup_first(s.drop_last())[i]);
                    assert(dedup_first(s)[j] == dedup_first(s.drop_last())[j]);
                } else {
                    assert(dedup_first(s)[j] == s.last());
                    assert(dedup_first(s)[i] == dedup_first(s.drop_last())[i]);
                    assert(dedup_first(s.drop_last()).contains(dedup_first(s.drop_last())[i]));
                }
            }
        }
    }
}

/// The memory ids of a merged list, in order.
pub open spec fn merged_ids_of(s: Seq<MergedResult>) -> Seq<Seq<char>> {
    s.map_values(|m: MergedResult| m.memory.id@)
}

/// The leaf labels of a source list, in order.
pub open spec fn source_ids_of(s: Seq<String>) -> Seq<Seq<char>> {
    s.map_values(|x: String| x@)
}

/// Everything stage A promises of one merged entry, against the
/// appearance model `flat`.
pub open spec fn collapsed_entry_ok(flat: Seq<Appearance>, m: crate::types::MergedResultView) -> bool {
    let id = m.memory.id;
    &&& m.max_score as int == best_of(flat, id)
    &&& m.memory.score_or() == best_of(flat, id)
    &&& exists|p: int|
        0 <= p < flat.len() && (#[trigger] flat[p]).1.id == id && flat[p].1.score_or() == best_of(
            flat,
            id,
        ) && m.memory.score_type == flat[p].1.score_type
    &&& exists|p: int|
        0 <= p < flat.len() && (#[trigger] flat[p]).1.id == id && m.memory.content
            == flat[p].1.content && m.memory.tags == flat[p].1.tags && m.memory.updated_at
            == flat[p].1.updated_at
    &&& forall|n: Seq<char>| m.sources.contains(n) <==> has_source(flat, id, n)
    &&& forall|a: int, b: int| 0 <= a < b < m.sources.len() ==> m.sources[a] != m.sources[b]
}

/// Stage A holds of a whole merged list.
pub open spec fn collapsed_ok(flat: Seq<Appearance>, out: Seq<MergedResult>) -> bool {
    &&& merged_ids_of(out) == dedup_first(flat_ids(flat))
    &&& forall|k: int| 0 <= k < out.len() ==> collapsed_entry_ok(flat, (#[trigger] out[k])@)
}

/// A memory that never appears has no score.
proof fn lemma_best_absent(flat: Seq<Appearance>, id: Seq<char>)
    requires
        !flat_ids(flat).contains(id),
    ensures
        best_of(flat, id) == 0,
    decreases flat.len(),
{
    if flat.len() > 0 {
        assert(!flat_ids(flat.drop_last()).contains(id)) by {
            if flat_ids(flat.drop_last()).contains(id) {
                let k = choose|k: int|
                    0 <= k < flat.drop_last().len() && flat_ids(flat.drop_last())[k] == id;
                assert(flat_ids(flat)[k] == id);
            }
        }
        lemma_best_absent(flat.drop_last(), id);
        assert(flat.last().1.id != id) by {
            if flat.last().1.id == id {
                assert(flat_ids(flat)[flat.len() - 1] == id);
            }
        }
    }
}

/// A pair about a different memory changes nothing for this entry.
proof fn lemma_entry_ok_extend(flat: Seq<Appearance>, m: crate::types::MergedResultView)
    requires
        flat.len() > 0,
        collapsed_entry_ok(flat.drop_last(), m),
        flat.last().1.id != m.memory.id,
    ensures
        collapsed_entry_ok(flat, m),
{
    let id = m.memory.id;
    let fp = flat.drop_last();
    assert(best_of(flat, id) == best_of(fp, id));
    assert forall|n: Seq<char>| m.sources.contains(n) <==> has_source(flat, id, n) by {
        if has_source(flat, id, n) {
            let k = choose|k: int|
                0 <= k < flat.len() && (#[trigger] flat[k]).1.id == id && flat[k].0 == n;
            assert(k < flat.len() - 1);
            assert(fp[k] == flat[k]);
            assert(has_source(fp, id, n));
        }
        if has_source(fp, id, n) {
            let k = choose|k: int|
                0 <= k < fp.len() && (#[trigger] fp[k]).1.id == id && fp[k].0 == n;
            assert(flat[k] == fp[k]);
            assert(has_source(flat, id, n));
        }
    }
    let p1 = choose|p: int|
        0 <= p < fp.len() && (#[trigger] fp[p]).1.id == id && fp[p].1.score_or() == best_of(fp, id)
            && m.memory.score_type == fp[p].1.score_type;
    assert(flat[p1] == fp[p1]);
    let p2 = choose|p: int|
        0 <= p < fp.len() && (#[trigger] fp[p]).1.id == id && m.memory.content == fp[p].1.content
            && m.memory.tags == fp[p].1.tags && m.memory.updated_at == fp[p].1.updated_at;
    assert(flat[p2] == fp[p2]);
}

/// Collapse all leaf results by memory id (stage A).  Each memory keeps
/// the best score any leaf gave it, the metadata of one of its
/// appearances, the score type of an appearance that reached the best
/// score, and the deduplicated set of leaves that surfaced it; the entries
/// stand in order of first appearance.
pub fn collapse_results(subs: &Vec<SubQueryResult>) -> (out: Vec<MergedResult>)
    ensures
        collapsed_ok(appearance_model(subs@), out@),
{
    let flat = flatten_appearances(subs);
    let ghost f = appearance_model(subs@);
    let n = flat.len();
    let mut out: Vec<MergedResult> = Vec::new();
    proof {
        assert(f.take(0) =~= Seq::<Appearance>::empty());
        assert(merged_ids_of(out@) =~= dedup_first(flat_ids(f.take(0))));
    }
    let mut p: usize = 0;
    while p < n
        invariant
            n == flat@.len(),
            flat@.map_values(|pr: (String, QueryResult)| (pr.0@, pr.1@)) == f,
            f.len() == n,
            p <= n,
            collapsed_ok(f.take(p as int), out@),
        decreases n - p,
    {
        let ghost fp = f.take(p as int);
        let ghost fp1 = f.take(p + 1);
        proof {
            assert(fp1.drop_last() =~= fp);
            assert(fp1.last() == f[p as int]);
            assert(flat_ids(fp1) =~= flat_ids(fp).push(f[p as int].1.id));
            assert(flat_ids(fp1).drop_last() =~= flat_ids(fp));
            lemma_dedup_first_distinct(flat_ids(fp));
        }
        let node = &flat[p].0;
        let q = &flat[p].1;
        proof {
            assert((node@, q@) == f[p as int]);
        }
        let s = score_value(&q.score);
        let ghost out0 = out@;
        match find_by_id(&out, q.id.as_str()) {
            None => {
                proof {
                    // the id is new: it cannot be among the processed pairs
                    assert(!flat_ids(fp).contains(q.id@)) by {
                        if flat_ids(fp).contains(q.id@) {
                            lemma_dedup_first_membership(flat_ids(fp), q.id@);
                            let k = choose|k: int|
                                0 <= k < dedup_first(flat_ids(fp)).len() && dedup_first(
                                    flat_ids(fp),
                                )[k] == q.id@;
                            assert(merged_ids_of(out0)[k] == q.id@);
                            assert(out0[k].memory.id@ == q.id@);
                        }
                    }
                    lemma_best_absent(fp, q.id@);
                }
                let memory = q.clone();
                let mut sources: Vec<String> = Vec::new();
                sources.push(node.clone());
                let entry = MergedResult { memory, sources, max_score: s };
                out.push(entry);
                proof {
                    assert(merged_ids_of(out@) =~= merged_ids_of(out0).push(q.id@));
                    assert(merged_ids_of(out@) =~= dedup_first(flat_ids(fp1)));
                    let m = out@.last()@;
                    assert(m.sources =~= seq![node@]);
                    assert(collapsed_entry_ok(fp1, m)) by {
                        assert(fp1[p as int] == f[p as int]);
                        assert(best_of(fp1, q.id@) == m.memory.score_or());
                        assert forall|nn: Seq<char>| m.sources.contains(nn) <==> has_source(
                            fp1,
                            q.id@,
                            nn,
                        ) by {
                            if m.sources.contains(nn) {
                                assert(nn == node@);
                                assert(has_source(fp1, q.id@, nn));
                            }
                            if has_source(fp1, q.id@, nn) {
                                let k = choose|k: int|
                                    0 <= k < fp1.len() && (#[trigger] fp1[k]).1.id == q.id@
                                        && fp1[k].0 == nn;
                                if k < p {
                                    assert(fp[k] == fp1[k]);
                                    assert(flat_ids(fp)[k] == q.id@);
                                } else {
                                    assert(nn == node@);
                                    assert(m.sources[0] == nn);
                                }
                            }
                        }
                    }
                    assert forall|k: int| 0 <= k < out@.len() implies collapsed_entry_ok(
                        fp1,
                        (#[trigger] out@[k])@,
                    ) by {
                        if k < out@.len() - 1 {
                            assert(out@[k] == out0[k]);
                            assert(collapsed_entry_ok(fp, out0[k]@));
                            assert(out0[k].memory.id@ != q.id@);
                            lemma_entry_ok_extend(fp1, out0[k]@);
                        }
                    }
                }
            },
            Some(e) => {
                proof {
                    // the id is already merged, so it is among the processed ids
                    lemma_dedup_first_membership(flat_ids(fp), q.id@);
                    assert(merged_ids_of(out0)[e as int] == q.id@);
                    assert(dedup_first(flat_ids(fp)).contains(q.id@));
                    assert(merged_ids_of(out0) =~= dedup_first(flat_ids(fp1)));
                }
                let mut entry = out[e].clone();
                proof {
                    assert(entry@ == out0[e as int]@);
                    assert(entry.memory.id@ == q.id@);
                    assert(collapsed_entry_ok(fp, entry@));
                }
                if s > entry.max_score {
                    entry.max_score = s;
                    entry.memory.score = Some(s);
                    entry.memory.score_type = q.score_type;
                }
                let ghost scored = entry@;
                proof {
                    assert(scored.sources == out0[e as int]@.sources);
                }
                if !sources_contain(&entry.sources, node.as_str()) {
                    entry.sources.push(node.clone());
                    proof {
                        assert(entry@.sources =~= scored.sources.push(node@));
                    }
                }
                out.set(e, entry);
                proof {
                    assert(merged_ids_of(out@) =~= merged_ids_of(out0));
                    let m = out@[e as int]@;
                    let old_m = out0[e as int]@;
                    let id = q.id@;
                    assert(collapsed_entry_ok(fp1, m)) by {
                        assert(best_of(fp1, id) == if q@.score_or() > best_of(fp, id) {
                            q@.score_or()
                        } else {
                            best_of(fp, id)
                        });
                        if s as int > best_of(fp, id) {
                            assert(fp1[p as int] == f[p as int]);
                            assert(m.memory.score_type == fp1[p as int].1.score_type);
                        } else {
                            assert(m.memory.score_type == old_m.memory.score_type);
                            assert(m.memory.score_or() == old_m.memory.score_or());
                            let p1 = choose|pp: int|
                                0 <= pp < fp.len() && (#[trigger] fp[pp]).1.id == id
                                    && fp[pp].1.score_or() == best_of(fp, id)
                                    && old_m.memory.score_type == fp[pp].1.score_type;
                            assert(fp1[p1] == fp[p1]);
                        }
                        assert(m.memory.content == old_m.memory.content && m.memory.tags
                            == old_m.memory.tags && m.memory.updated_at == old_m.memory.updated_at);
                        let p2 = choose|pp: int|
                            0 <= pp < fp.len() && (#[trigger] fp[pp]).1.id == id
                                && old_m.memory.content == fp[pp].1.content && old_m.memory.tags
                                == fp[pp].1.tags && old_m.memory.updated_at == fp[pp].1.updated_at;
                        assert(fp1[p2] == fp[p2]);
                        assert forall|nn: Seq<char>| m.sources.contains(nn) <==> has_source(
                            fp1,
                            id,
                            nn,
                        ) by {
                            assert(m.sources.contains(nn) <==> (old_m.sources.contains(nn) || nn
                                == node@)) by {
                                if m.sources.len() == old_m.sources.len() {
                                    assert(m.sources == old_m.sources);
                                    if nn == node@ {
                                        assert(old_m.sources.contains(node@));
                                    }
                                } else {
                                    assert(m.sources =~= old_m.sources.push(node@));
                                    if m.sources.contains(nn) {
                                        let k = choose|k: int|
                                            0 <= k < m.sources.len() && m.sources[k] == nn;
                                        if k < old_m.sources.len() {
                                            assert(old_m.sources[k] == nn);
                                        }
                                    }
                                    if old_m.sources.contains(nn) {
                                        let k = choose|k: int|
                                            0 <= k < old_m.sources.len() && old_m.sources[k] == nn;
                                        assert(m.sources[k] == nn);
                                    }
                                    if nn == node@ {
                                        assert(m.sources.last() == nn);
                                    }
                                }
                            }
                            if has_source(fp1, id, nn) {
                                let k = choose|k: int|
                                    0 <= k < fp1.len() && (#[trigger] fp1[k]).1.id == id
                                        && fp1[k].0 == nn;
                                if k < p {
                                    assert(fp[k] == fp1[k]);
                                    assert(has_source(fp, id, nn));
                                } else {
                                    assert(nn == node@);
                                }
                            }
                            if old_m.sources.contains(nn) {
                                assert(has_source(fp, id, nn));
                                let k = choose|k: int|
                                    0 <= k < fp.len() && (#[trigger] fp[k]).1.id == id
                                        && fp[k].0 == nn;
                                assert(fp1[k] == fp[k]);
                                assert(has_source(fp1, id, nn));
                            }
                            if nn == node@ {
                                assert(fp1[p as int].1.id == id && fp1[p as int].0 == nn);
                                assert(has_source(fp1, id, nn));
                            }
                        }
                    }
                    assert forall|k: int| 0 <= k < out@.len() implies collapsed_entry_ok(
                        fp1,
                        (#[trigger] out@[k])@,
                    ) by {
                        if k != e {
                            assert(out@[k] == out0[k]);
                            assert(collapsed_entry_ok(fp, out0[k]@));
                            assert(merged_ids_of(out0)[k] != merged_ids_of(out0)[e as int]) by {
                                lemma_dedup_first_distinct(flat_ids(fp));
                            }
                            assert(out0[k].memory.id@ != q.id@);
                            lemma_entry_ok_extend(fp1, out0[k]@);
                        }
                    }
                }
            },
        }
        p = p + 1;
    }
    proof {
        assert(f.take(n as int) =~= f);
    }
    out
}


/// Find the entry holding `id`, if any.
fn find_by_id(out: &Vec<MergedResult>, id: &str) -> (r: Option<usize>)
    ensures
        match r {
            Some(e) => e < out@.len() && out@[e as int].memory.id@ == id@,
            None => forall|k: int| 0 <= k < out@.len() ==> (#[trigger] out@[k]).memory.id@ != id@,
        },
{
    let n = out.len();
    let mut k: usize = 0;
    while k < n
        invariant
            n == out@.len(),
            k <= n,
            forall|j: int| 0 <= j < k ==> (#[trigger] out@[j]).memory.id@ != id@,
        decreases n - k,
    {
        if str_eq(out[k].memory.id.as_str(), id) {
            return Some(k);
        }
        k = k + 1;
    }
    None
}

/// Whether a source list already names leaf `n`.
fn sources_contain(sources: &Vec<String>, n: &str) -> (r: bool)
    ensures
        r == source_ids_of(sources@).contains(n@),
{
    let len = sources.len();
    let mut k: usize = 0;
    while k < len
        invariant
            len == sources@.len(),
            k <= len,
            forall|j: int| 0 <= j < k ==> (#[trigger] sources@[j])@ != n@,
        decreases len - k,
    {
        if str_eq(sources[k].as_str(), n) {
            proof {
                assert(source_ids_of(sources@)[k as int] == n@);
            }
            return true;
        }
        k = k + 1;
    }
    proof {
        if source_ids_of(sources@).contains(n@) {
            let j = choose|j: int|
                0 <= j < source_ids_of(sources@).len() && source_ids_of(sources@)[j] == n@;
            assert(sources@[j]@ == n@);
        }
    }
    false
}

/// A merged list ordered by descending best score.
pub open spec fn sorted_merged_desc(s: Seq<MergedResult>) -> bool {
    forall|i: int, j: int| 0 <= i < j < s.len() ==> s[i].max_score >= s[j].max_score
}

/// The subsequence of entries whose best score is exactly `v`.  A stable
/// sort preserves it for every score, which pins the order of ties.
pub open spec fn merged_with_score(s: Seq<MergedResult>, v: int) -> Seq<MergedResult>
    decreases s.len(),
{
    if s.len() == 0 {
        Seq::empty()
    } else {
        merged_with_score(s.drop_last(), v) + (if s.last().max_score == v {
            seq![s.last()]
        } else {
            Seq::<MergedResult>::empty()
        })
    }
}

proof fn lemma_merged_with_score_distributes(a: Seq<MergedResult>, b: Seq<MergedResult>, v: int)
    ensures
        merged_with_score(a + b, v) == merged_with_score(a, v) + merged_with_score(b, v),
    decreases b.len(),
{
    if b.len() == 0 {
        assert(a + b =~= a);
        assert(merged_with_score(a, v) + merged_with_score(b, v) =~= merged_with_score(a, v));
    } else {
        lemma_merged_with_score_distributes(a, b.drop_last(), v);
        assert((a + b).drop_last() =~= a + b.drop_last());
        assert((a + b).last() == b.last());
        assert(merged_with_score(a + b, v) =~= merged_with_score(a, v) + merged_with_score(b, v));
    }
}

proof fn lemma_merged_with_score_absent(a: Seq<MergedResult>, v: int)
    requires
        forall|i: int| 0 <= i < a.len() ==> (#[trigger] a[i]).max_score != v,
    ensures
        merged_with_score(a, v).len() == 0,
    decreases a.len(),
{
    if a.len() > 0 {
        assert(forall|i: int|
            0 <= i < a.drop_last().len() ==> (#[trigger] a.drop_last()[i]).max_score != v) by {
            assert(forall|i: int| 0 <= i < a.len() - 1 ==> a.drop_last()[i] == a[i]);
        }
        lemma_merged_with_score_absent(a.drop_last(), v);
        assert(a.last() == a[a.len() - 1]);
    }
}

/// Index of the first best-scoring entry of `v`.
fn find_max_merged(v: &Vec<MergedResult>) -> (r: usize)
    requires
        v@.len() > 0,
    ensures
        0 <= r < v@.len(),
        forall|j: int| 0 <= j < v@.len() ==> v@[r as int].max_score >= v@[j].max_score,
        forall|j: int| 0 <= j < r ==> v@[j].max_score < v@[r as int].max_score,
{
    let n = v.len();
    let mut best: usize = 0;
    let mut best_score = v[0].max_score;
    let mut i: usize = 1;
    while i < n
        invariant
            n == v@.len(),
            0 < n,
            best < i <= n,
            best_score == v@[best as int].max_score,
            forall|j: int| 0 <= j < i ==> best_score >= v@[j].max_score,
            forall|j: int| 0 <= j < best ==> v@[j].max_score < best_score,
        decreases n - i,
    {
        if v[i].max_score > best_score {
            best = i;
            best_score = v[i].max_score;
        }
        i = i + 1;
    }
    best
}

/// Sort merged entries by descending best score (stage B).  The answer
/// is a permutation of the input, and the sort is stable: for every best
/// score, the entries carrying it keep their relative order.
pub fn sort_merged(input: Vec<MergedResult>) -> (r: Vec<MergedResult>)
    ensures
        sorted_merged_desc(r@),
        r@.to_multiset() == input@.to_multiset(),
        r@.len() == input@.len(),
        forall|v: int| merged_with_score(r@, v) == merged_with_score(input@, v),
{
    let ghost orig = input@;
    let mut rest = input;
    let mut out: Vec<MergedResult> = Vec::new();
    while rest.len() > 0
        invariant
            out@.to_multiset().add(rest@.to_multiset()) == orig.to_multiset(),
            out@.len() + rest@.len() == orig.len(),
            sorted_merged_desc(out@),
            forall|i: int, j: int|
                0 <= i < out@.len() && 0 <= j < rest@.len() ==> out@[i].max_score
                    >= rest@[j].max_score,
            forall|v: int|
                #[trigger] merged_with_score(out@, v) + merged_with_score(rest@, v)
                    == merged_with_score(orig, v),
        decreases rest@.len(),
    {
        let ghost out0 = out@;
        let ghost rest0 = rest@;
        let k = find_max_merged(&rest);
        let x = rest.remove(k);
        proof {
            assert(rest@ =~= rest0.remove(k as int));
            assert(rest0.remove(k as int).to_multiset() =~= rest0.to_multiset().remove(
                rest0[k as int],
            ));
            assert(forall|j: int|
                0 <= j < rest@.len() ==> (#[trigger] rest@[j]).max_score <= x.max_score) by {
                assert(forall|j: int|
                    0 <= j < rest@.len() ==> rest@[j] == (if j < k {
                        rest0[j]
                    } else {
                        rest0[j + 1]
                    }));
            }
        }
        out.push(x);
        proof {
            assert(out@.to_multiset().add(rest@.to_multiset()) =~= out0.to_multiset().add(
                rest0.to_multiset(),
            ));
            let m = x.max_score as int;
            let front = rest0.take(k as int);
            let back = rest0.skip(k + 1);
            assert(rest0 =~= front + (seq![x] + back));
            assert(rest@ =~= front + back);
            assert forall|v: int|
                #[trigger] merged_with_score(out@, v) + merged_with_score(rest@, v)
                == merged_with_score(orig, v) by {
                lemma_merged_with_score_distributes(front, seq![x] + back, v);
                lemma_merged_with_score_distributes(seq![x], back, v);
                lemma_merged_with_score_distributes(front, back, v);
                assert(seq![x].drop_last() =~= Seq::<MergedResult>::empty());
                assert(seq![x].last() == x);
                assert(merged_with_score(Seq::<MergedResult>::empty(), v) == Seq::<
                    MergedResult,
                >::empty());
                assert(merged_with_score(seq![x], v) == merged_with_score(
                    seq![x].drop_last(),
                    v,
                ) + (if x.max_score == v {
                    seq![x]
                } else {
                    Seq::<MergedResult>::empty()
                }));
                assert(out@ =~= out0.push(x));
                assert(out@.drop_last() =~= out0);
                if v == m {
                    assert(forall|j: int|
                        0 <= j < front.len() ==> (#[trigger] front[j]).max_score != v) by {
                        assert(forall|j: int| 0 <= j < k ==> front[j] == rest0[j]);
                    }
                    lemma_merged_with_score_absent(front, v);
                    assert(merged_with_score(seq![x], v) =~= seq![x]);
                    assert(merged_with_score(out@, v) =~= merged_with_score(out0, v) + seq![x]);
                    assert(merged_with_score(out@, v) + merged_with_score(rest@, v)
                        =~= merged_with_score(out0, v) + merged_with_score(rest0, v));
                } else {
                    assert(merged_with_score(seq![x], v) =~= Seq::<MergedResult>::empty());
                    assert(merged_with_score(out@, v) =~= merged_with_score(out0, v));
                    assert(merged_with_score(rest@, v) =~= merged_with_score(rest0, v));
                }
            }
        }
    }
    proof {
        assert(rest@.to_multiset() =~= Multiset::<MergedResult>::empty());
        assert(out@.to_multiset() =~= orig.to_multiset());
        assert forall|v: int| merged_with_score(out@, v) == merged_with_score(orig, v) by {
            assert(merged_with_score(rest@, v) =~= Seq::<MergedResult>::empty());
            assert(merged_with_score(out@, v) =~= merged_with_score(out@, v) + merged_with_score(
                rest@,
                v,
            ));
        }
    }
    out
}

/// A permutation of a merged list with distinct memory ids again has
/// distinct memory ids.
pub proof fn lemma_perm_distinct_ids(a: Seq<MergedResult>, b: Seq<MergedResult>)
    requires
        a.to_multiset() == b.to_multiset(),
        forall|i: int, j: int|
            0 <= i < j < a.len() ==> (#[trigger] a[i]).memory.id@ != (#[trigger] a[j]).memory.id@,
    ensures
        forall|i: int, j: int|
            0 <= i < j < b.len() ==> (#[trigger] b[i]).memory.id@ != (#[trigger] b[j]).memory.id@,
{
    assert forall|i: int, j: int|
        0 <= i < j < b.len() implies (#[trigger] b[i]).memory.id@ != (#[trigger] b[j]).memory.id@ by {
        if b[i].memory.id@ == b[j].memory.id@ {
            if b[i] == b[j] {
                assert(b.remove(j).to_multiset() =~= b.to_multiset().remove(b[j]));
                assert(b.remove(j)[i] == b[i]);
                assert(b.remove(j).to_multiset().contains(b[i]));
                assert(b.to_multiset().count(b[i]) >= 2);
                assert(a.to_multiset().count(b[i]) >= 2);
                lemma_count_le_one(a, b[i]);
            } else {
                assert(b.to_multiset().contains(b[i]));
                assert(b.to_multiset().contains(b[j]));
                assert(a.to_multiset().contains(b[i]));
                assert(a.to_multiset().contains(b[j]));
                let ki = choose|k: int| 0 <= k < a.len() && a[k] == b[i];
                let kj = choose|k: int| 0 <= k < a.len() && a[k] == b[j];
                assert(ki != kj);
                if ki < kj {
                    assert(a[ki].memory.id@ != a[kj].memory.id@);
                } else {
                    assert(a[kj].memory.id@ != a[ki].memory.id@);
                }
            }
        }
    }
}

/// With distinct ids no value can occur twice.
proof fn lemma_count_le_one(a: Seq<MergedResult>, x: MergedResult)
    requires
        forall|i: int, j: int|
            0 <= i < j < a.len() ==> (#[trigger] a[i]).memory.id@ != (#[trigger] a[j]).memory.id@,
    ensures
        a.to_multiset().count(x) <= 1,
{
    if a.to_multiset().count(x) >= 2 {
        assert(a.to_multiset().contains(x));
        let i = choose|i: int| 0 <= i < a.len() && a[i] == x;
        assert(a.remove(i).to_multiset() =~= a.to_multiset().remove(x));
        assert(a.remove(i).to_multiset().count(x) >= 1);
        assert(a.remove(i).to_multiset().contains(x));
        let j = choose|j: int| 0 <= j < a.remove(i).len() && a.remove(i)[j] == x;
        if j < i {
            assert(a[j] == x);
            assert(a[j].memory.id@ != a[i].memory.id@);
        } else {
            assert(a[j + 1] == x);
            assert(a[i].memory.id@ != a[j + 1].memory.id@);
        }
    }
}

/// Entries of `s` whose memory id is in the group `g`, in order.
pub open spec fn keep_in(s: Seq<MergedResult>, g: Seq<Seq<char>>) -> Seq<MergedResult>
    decreases s.len(),
{
    if s.len() == 0 {
        Seq::empty()
    } else {
        keep_in(s.drop_last(), g) + (if g.contains(s.last().memory.id@) {
            seq![s.last()]
        } else {
            Seq::<MergedResult>::empty()
        })
    }
}

/// Entries of `s` whose memory id is not in the group `g`, in order.
pub open spec fn keep_out(s: Seq<MergedResult>, g: Seq<Seq<char>>) -> Seq<MergedResult>
    decreases s.len(),
{
    if s.len() == 0 {
        Seq::empty()
    } else {
        keep_out(s.drop_last(), g) + (if !g.contains(s.last().memory.id@) {
            seq![s.last()]
        } else {
            Seq::<MergedResult>::empty()
        })
    }
}

/// The two groups partition the list.
pub proof fn lemma_keep_partition(s: Seq<MergedResult>, g: Seq<Seq<char>>)
    ensures
        keep_in(s, g).len() + keep_out(s, g).len() == s.len(),
    decreases s.len(),
{
    if s.len() > 0 {
        lemma_keep_partition(s.drop_last(), g);
    }
}

/// Number of entries whose sources name the leaf `n`.
pub open spec fn count_leaf_entries(s: Seq<MergedResult>, n: Seq<char>) -> int
    decreases s.len(),
{
    if s.len() == 0 {
        0
    } else {
        count_leaf_entries(s.drop_last(), n) + (if s.last()@.sources.contains(n) {
            1int
        } else {
            0int
        })
    }
}

/// Number of entries whose sources name the leaf `n` and whose id is in
/// the guaranteed group `g`.
pub open spec fn count_guaranteed(s: Seq<MergedResult>, g: Seq<Seq<char>>, n: Seq<char>) -> int
    decreases s.len(),
{
    if s.len() == 0 {
        0
    } else {
        count_guaranteed(s.drop_last(), g, n) + (if s.last()@.sources.contains(n) && g.contains(
            s.last().memory.id@,
        ) {
            1int
        } else {
            0int
        })
    }
}

proof fn lemma_counts_nonneg(s: Seq<MergedResult>, g: Seq<Seq<char>>, n: Seq<char>)
    ensures
        0 <= count_guaranteed(s, g, n) <= count_leaf_entries(s, n) <= s.len(),
    decreases s.len(),
{
    if s.len() > 0 {
        lemma_counts_nonneg(s.drop_last(), g, n);
    }
}

/// Growing the guaranteed group can only raise the guaranteed count.
proof fn lemma_count_guaranteed_mono(
    s: Seq<MergedResult>,
    g1: Seq<Seq<char>>,
    g2: Seq<Seq<char>>,
    n: Seq<char>,
)
    requires
        forall|x: Seq<char>| g1.contains(x) ==> g2.contains(x),
    ensures
        count_guaranteed(s, g1, n) <= count_guaranteed(s, g2, n),
    decreases s.len(),
{
    if s.len() > 0 {
        lemma_count_guaranteed_mono(s.drop_last(), g1, g2, n);
    }
}

/// The guaranteed count of a prefix bounds the whole list's from below.
proof fn lemma_count_guaranteed_prefix(
    s: Seq<MergedResult>,
    k: int,
    g: Seq<Seq<char>>,
    n: Seq<char>,
)
    requires
        0 <= k <= s.len(),
    ensures
        count_guaranteed(s.take(k), g, n) <= count_guaranteed(s, g, n),
    decreases s.len(),
{
    if k < s.len() {
        assert(s.take(k) =~= s.drop_last().take(k));
        lemma_count_guaranteed_prefix(s.drop_last(), k, g, n);
        lemma_counts_nonneg(s, g, n);
        assert(count_guaranteed(s.drop_last(), g, n) <= count_guaranteed(s, g, n));
    } else {
        assert(s.take(k) =~= s);
    }
}

/// When every entry naming the leaf is guaranteed, the two counts agree.
proof fn lemma_count_guaranteed_full(s: Seq<MergedResult>, g: Seq<Seq<char>>, n: Seq<char>)
    requires
        forall|k: int|
            0 <= k < s.len() && (#[trigger] s[k])@.sources.contains(n) ==> g.contains(
                s[k].memory.id@,
            ),
    ensures
        count_guaranteed(s, g, n) == count_leaf_entries(s, n),
    decreases s.len(),
{
    if s.len() > 0 {
        assert(forall|k: int|
            0 <= k < s.drop_last().len() && (#[trigger] s.drop_last()[k])@.sources.contains(n)
                ==> g.contains(s.drop_last()[k].memory.id@)) by {
            assert(forall|k: int| 0 <= k < s.len() - 1 ==> s.drop_last()[k] == s[k]);
        }
        lemma_count_guaranteed_full(s.drop_last(), g, n);
        assert(s.last() == s[s.len() - 1]);
    }
}

/// The ids one leaf's in-order scan marks: walk the sorted list from
/// position `k`, mark an entry's id when the leaf stands in its sources
/// and the id is not yet in the group `g`, and stop after `min_per_leaf`
/// marks.
pub open spec fn marked_for_leaf(
    sorted: Seq<MergedResult>,
    g: Seq<Seq<char>>,
    n: Seq<char>,
    k: int,
    cnt: int,
    min_per_leaf: int,
) -> Seq<Seq<char>>
    decreases sorted.len() - k,
{
    if k < 0 || k >= sorted.len() || cnt >= min_per_leaf {
        Seq::empty()
    } else if sorted[k]@.sources.contains(n) && !g.contains(sorted[k].memory.id@) {
        seq![sorted[k].memory.id@] + marked_for_leaf(
            sorted,
            g.push(sorted[k].memory.id@),
            n,
            k + 1,
            cnt + 1,
            min_per_leaf,
        )
    } else {
        marked_for_leaf(sorted, g, n, k + 1, cnt, min_per_leaf)
    }
}

/// The fairness group after the first `l` leaves have scanned, each
/// appending its marks to the group the previous leaves built.
pub open spec fn guaranteed_spec(
    sorted: Seq<MergedResult>,
    subs: Seq<SubQueryResult>,
    min_per_leaf: int,
    l: int,
) -> Seq<Seq<char>>
    decreases l,
{
    if l <= 0 {
        Seq::empty()
    } else {
        let g = guaranteed_spec(sorted, subs, min_per_leaf, l - 1);
        g + marked_for_leaf(sorted, g, subs[l - 1].node_id@, 0, 0, min_per_leaf)
    }
}

/// Collect the fairness floor (stage C): walk the leaves, and for each
/// leaf mark up to `min_per_leaf` ids of sorted entries that this leaf
/// surfaced, skipping ids marked before.  The group stays small (at most
/// `leaves x min_per_leaf`), and each leaf that surfaced at least
/// `min_per_leaf` of the sorted entries keeps at least that many of them
/// in the group; a less productive leaf keeps all of its entries.
pub fn collect_guaranteed_results(
    sorted: &Vec<MergedResult>,
    sub_results: &Vec<SubQueryResult>,
    min_per_leaf: usize,
) -> (g: Vec<String>)
    ensures
        source_ids_of(g@) == guaranteed_spec(
            sorted@,
            sub_results@,
            min_per_leaf as int,
            sub_results@.len() as int,
        ),
        forall|a: int, b: int| 0 <= a < b < g@.len() ==> (#[trigger] g@[a])@ != (#[trigger] g@[b])@,
        forall|x: Seq<char>|
            source_ids_of(g@).contains(x) ==> merged_ids_of(sorted@).contains(x),
        g@.len() <= sub_results@.len() * min_per_leaf,
        forall|l: int|
            0 <= l < sub_results@.len() ==> count_guaranteed(
                sorted@,
                source_ids_of(g@),
                (#[trigger] sub_results@[l]).node_id@,
            ) >= min(min_per_leaf as int, count_leaf_entries(sorted@, sub_results@[l].node_id@)),
{
    let leaves = sub_results.len();
    let n = sorted.len();
    let mut g: Vec<String> = Vec::new();
    let mut l: usize = 0;
    proof {
        assert(source_ids_of(g@) =~= guaranteed_spec(
            sorted@,
            sub_results@,
            min_per_leaf as int,
            0,
        ));
    }
    while l < leaves
        invariant
            leaves == sub_results@.len(),
            n == sorted@.len(),
            l <= leaves,
            source_ids_of(g@) == guaranteed_spec(
                sorted@,
                sub_results@,
                min_per_leaf as int,
                l as int,
            ),
            forall|a: int, b: int|
                0 <= a < b < g@.len() ==> (#[trigger] g@[a])@ != (#[trigger] g@[b])@,
            forall|x: Seq<char>|
                source_ids_of(g@).contains(x) ==> merged_ids_of(sorted@).contains(x),
            g@.len() <= l * min_per_leaf,
            forall|ll: int|
                0 <= ll < l ==> count_guaranteed(
                    sorted@,
                    source_ids_of(g@),
                    (#[trigger] sub_results@[ll]).node_id@,
                ) >= min(
                    min_per_leaf as int,
                    count_leaf_entries(sorted@, sub_results@[ll].node_id@),
                ),
        decreases leaves - l,
    {
        let node = &sub_results[l].node_id;
        let ghost g_start = source_ids_of(g@);
        let ghost mut marks: Seq<Seq<char>> = Seq::empty();
        proof {
            assert(source_ids_of(g@) =~= g_start + marks);
            assert(g_start + marks =~= g_start);
        }
        let mut cnt: usize = 0;
        let mut k: usize = 0;
        while k < n && cnt < min_per_leaf
            invariant
                leaves == sub_results@.len(),
                n == sorted@.len(),
                l < leaves,
                node@ == sub_results@[l as int].node_id@,
                k <= n,
                cnt <= min_per_leaf,
                source_ids_of(g@) == g_start + marks,
                marked_for_leaf(sorted@, g_start, node@, 0, 0, min_per_leaf as int) == marks
                    + marked_for_leaf(
                    sorted@,
                    g_start + marks,
                    node@,
                    k as int,
                    cnt as int,
                    min_per_leaf as int,
                ),
                forall|a: int, b: int|
                    0 <= a < b < g@.len() ==> (#[trigger] g@[a])@ != (#[trigger] g@[b])@,
                forall|x: Seq<char>|
                    source_ids_of(g@).contains(x) ==> merged_ids_of(sorted@).contains(x),
                g@.len() <= l * min_per_leaf + cnt,
                forall|x: Seq<char>| g_start.contains(x) ==> source_ids_of(g@).contains(x),
                count_guaranteed(sorted@.take(k as int), source_ids_of(g@), node@) >= cnt,
                cnt < min_per_leaf ==> forall|kk: int|
                    0 <= kk < k && (#[trigger] sorted@[kk])@.sources.contains(node@)
                        ==> source_ids_of(g@).contains(sorted@[kk].memory.id@),
                forall|ll: int|
                    0 <= ll < l ==> count_guaranteed(
                        sorted@,
                        source_ids_of(g@),
                        (#[trigger] sub_results@[ll]).node_id@,
                    ) >= min(
                        min_per_leaf as int,
                        count_leaf_entries(sorted@, sub_results@[ll].node_id@),
                    ),
            decreases n - k,
        {
            let ghost g0 = source_ids_of(g@);
            let ghost pre = sorted@.take(k as int);
            let ghost pre1 = sorted@.take(k + 1);
            proof {
                assert(pre1.drop_last() =~= pre);
                assert(pre1.last() == sorted@[k as int]);
            }
            let in_sources = sources_contain(&sorted[k].sources, node.as_str());
            if in_sources {
                let already = sources_contain(&g, sorted[k].memory.id.as_str());
                if !already {
                    g.push(sorted[k].memory.id.clone());
                    cnt = cnt + 1;
                    proof {
                        let id = sorted@[k as int].memory.id@;
                        assert(source_ids_of(g@) =~= g0.push(sorted@[k as int].memory.id@));
                        assert(g0 == g_start + marks);
                        assert(marked_for_leaf(
                            sorted@,
                            g0,
                            node@,
                            k as int,
                            (cnt - 1) as int,
                            min_per_leaf as int,
                        ) == seq![id] + marked_for_leaf(
                            sorted@,
                            g0.push(id),
                            node@,
                            k + 1,
                            cnt as int,
                            min_per_leaf as int,
                        ));
                        marks = marks.push(id);
                        assert(source_ids_of(g@) =~= g_start + marks);
                        assert(g0.push(id) =~= g_start + marks);
                        assert(marked_for_leaf(sorted@, g_start, node@, 0, 0, min_per_leaf as int)
                            =~= marks + marked_for_leaf(
                            sorted@,
                            g_start + marks,
                            node@,
                            k + 1,
                            cnt as int,
                            min_per_leaf as int,
                        ));
                        assert(forall|x: Seq<char>|
                            g0.contains(x) ==> source_ids_of(g@).contains(x)) by {
                            assert(forall|j: int|
                                0 <= j < g0.len() ==> source_ids_of(g@)[j] == g0[j]);
                        }
                        assert forall|a: int, b: int| 0 <= a < b < g@.len() implies (
                        #[trigger] g@[a])@ != (#[trigger] g@[b])@ by {
                            if b == g@.len() - 1 {
                                assert(g@[b]@ == sorted@[k as int].memory.id@);
                                assert(g@[a]@ == g0[a]);
                                assert(g0.contains(g0[a]));
                            }
                        }
                        assert(source_ids_of(g@).contains(sorted@[k as int].memory.id@)) by {
                            assert(source_ids_of(g@).last() == sorted@[k as int].memory.id@);
                        }
                        assert(merged_ids_of(sorted@)[k as int] == sorted@[k as int].memory.id@);
                        assert forall|x: Seq<char>|
                            source_ids_of(g@).contains(x) implies merged_ids_of(
                            sorted@,
                        ).contains(x) by {
                            let j = choose|j: int|
                                0 <= j < source_ids_of(g@).len() && source_ids_of(g@)[j] == x;
                            if j < g0.len() {
                                assert(g0[j] == x);
                            }
                        }
                        lemma_count_guaranteed_mono(pre, g0, source_ids_of(g@), node@);
                        assert(count_guaranteed(pre1, source_ids_of(g@), node@) >= cnt);
                        assert forall|ll: int| 0 <= ll < l implies count_guaranteed(
                            sorted@,
                            source_ids_of(g@),
                            (#[trigger] sub_results@[ll]).node_id@,
                        ) >= min(
                            min_per_leaf as int,
                            count_leaf_entries(sorted@, sub_results@[ll].node_id@),
                        ) by {
                            lemma_count_guaranteed_mono(
                                sorted@,
                                g0,
                                source_ids_of(g@),
                                sub_results@[ll].node_id@,
                            );
                        }
                    }
                } else {
                    proof {
                        assert(count_guaranteed(pre1, source_ids_of(g@), node@) >= cnt);
                        assert(marked_for_leaf(
                            sorted@,
                            g_start + marks,
                            node@,
                            k as int,
                            cnt as int,
                            min_per_leaf as int,
                        ) == marked_for_leaf(
                            sorted@,
                            g_start + marks,
                            node@,
                            k + 1,
                            cnt as int,
                            min_per_leaf as int,
                        ));
                    }
                }
            } else {
                proof {
                    assert(count_guaranteed(pre1, source_ids_of(g@), node@) >= cnt);
                    assert(marked_for_leaf(
                        sorted@,
                        g_start + marks,
                        node@,
                        k as int,
                        cnt as int,
                        min_per_leaf as int,
                    ) == marked_for_leaf(
                        sorted@,
                        g_start + marks,
                        node@,
                        k + 1,
                        cnt as int,
                        min_per_leaf as int,
                    ));
                }
            }
            k = k + 1;
        }
        proof {
            if cnt >= min_per_leaf {
                lemma_count_guaranteed_prefix(sorted@, k as int, source_ids_of(g@), node@);
                assert(count_guaranteed(sorted@, source_ids_of(g@), node@) >= min_per_leaf as int);
            } else {
                assert(k == n);
                assert(sorted@.take(n as int) =~= sorted@);
                lemma_count_guaranteed_full(sorted@, source_ids_of(g@), node@);
                lemma_counts_nonneg(sorted@, source_ids_of(g@), node@);
            }
            assert(g@.len() <= (l + 1) * min_per_leaf) by {
                assert(l * min_per_leaf + min_per_leaf == (l + 1) * min_per_leaf)
                    by (nonlinear_arith);
            }
            assert(marked_for_leaf(
                sorted@,
                g_start + marks,
                node@,
                k as int,
                cnt as int,
                min_per_leaf as int,
            ) =~= Seq::<Seq<char>>::empty());
            assert(marked_for_leaf(sorted@, g_start, node@, 0, 0, min_per_leaf as int) =~= marks);
            assert(source_ids_of(g@) =~= guaranteed_spec(
                sorted@,
                sub_results@,
                min_per_leaf as int,
                l + 1,
            ));
        }
        l = l + 1;
    }
    g
}

/// Assemble the final list (stage D): the guaranteed entries first, in
/// sorted order, then the rest in sorted order, stopping at `max_total`.
pub fn build_final_results(
    sorted: Vec<MergedResult>,
    guaranteed: &Vec<String>,
    max_total: usize,
) -> (r: Vec<MergedResult>)
    ensures
        r@ == (keep_in(sorted@, source_ids_of(guaranteed@)) + keep_out(
            sorted@,
            source_ids_of(guaranteed@),
        )).take(min(max_total as int, sorted@.len() as int)),
{
    let ghost g = source_ids_of(guaranteed@);
    let ghost orig = sorted@;
    proof {
        lemma_keep_partition(orig, g);
    }
    let n = sorted.len();
    let mut pending = sorted;
    let mut r: Vec<MergedResult> = Vec::new();
    let mut rest: Vec<MergedResult> = Vec::new();
    let ghost mut k: int = 0;
    proof {
        assert(orig.take(0) =~= Seq::<MergedResult>::empty());
        assert(pending@ =~= orig.skip(0));
        assert(r@ =~= keep_in(orig.take(0), g).take(0));
        assert(rest@ =~= keep_out(orig.take(0), g));
    }
    while pending.len() > 0
        invariant
            n == orig.len(),
            g == source_ids_of(guaranteed@),
            0 <= k <= n,
            pending@ == orig.skip(k),
            r@ == keep_in(orig.take(k), g).take(
                min(max_total as int, keep_in(orig.take(k), g).len() as int),
            ),
            rest@ == keep_out(orig.take(k), g),
        decreases pending@.len(),
    {
        let ghost pre = orig.take(k);
        let ghost pre1 = orig.take(k + 1);
        proof {
            assert(pre1.drop_last() =~= pre);
            assert(pre1.last() == orig[k]);
            assert(pending@[0] == orig[k]);
        }
        let x = pending.remove(0);
        proof {
            assert(pending@ =~= orig.skip(k + 1));
        }
        if sources_contain(guaranteed, x.memory.id.as_str()) {
            proof {
                assert(keep_in(pre1, g) =~= keep_in(pre, g).push(x));
                assert(keep_out(pre1, g) =~= keep_out(pre, g));
            }
            if r.len() < max_total {
                let ghost r0 = r@;
                r.push(x);
                proof {
                    assert(keep_in(pre, g).len() <= max_total);
                    assert(r0 =~= keep_in(pre, g));
                    assert(r@ =~= keep_in(pre1, g));
                    assert(r@ =~= keep_in(pre1, g).take(
                        min(max_total as int, keep_in(pre1, g).len() as int),
                    ));
                }
            } else {
                proof {
                    assert(r@.len() == max_total);
                    assert(keep_in(pre, g).len() >= max_total);
                    assert(r@ =~= keep_in(pre1, g).take(
                        min(max_total as int, keep_in(pre1, g).len() as int),
                    ));
                }
            }
        } else {
            proof {
                assert(keep_in(pre1, g) =~= keep_in(pre, g));
                assert(keep_out(pre1, g) =~= keep_out(pre, g).push(x));
            }
            rest.push(x);
        }
        proof {
            k = k + 1;
        }
    }
    proof {
        assert(orig.take(n as int) =~= orig);
    }
    let ghost ki = keep_in(orig, g);
    let ghost ko = keep_out(orig, g);
    let m = rest.len();
    let mut pending_rest = rest;
    let ghost mut j: int = 0;
    proof {
        assert(pending_rest@ =~= ko.skip(0));
        assert(m == ko.len());
        assert(r@ =~= (ki + ko).take(min(max_total as int, ki.len() as int + 0))) by {
            if ki.len() <= max_total {
                assert(r@ =~= ki);
                assert((ki + ko).take(ki.len() as int) =~= ki);
            } else {
                assert(r@ =~= ki.take(max_total as int));
                assert((ki + ko).take(max_total as int) =~= ki.take(max_total as int));
            }
        }
    }
    while pending_rest.len() > 0
        invariant
            g == source_ids_of(guaranteed@),
            ki == keep_in(orig, g),
            ko == keep_out(orig, g),
            0 <= j <= ko.len(),
            pending_rest@ == ko.skip(j),
            r@ == (ki + ko).take(min(max_total as int, ki.len() as int + j)),
        decreases pending_rest@.len(),
    {
        proof {
            assert(pending_rest@[0] == ko[j]);
        }
        let y = pending_rest.remove(0);
        proof {
            assert(pending_rest@ =~= ko.skip(j + 1));
        }
        if r.len() < max_total {
            let ghost r0 = r@;
            r.push(y);
            proof {
                assert(r0.len() == min(max_total as int, ki.len() as int + j));
                assert(ki.len() as int + j < max_total);
                assert(r0 =~= (ki + ko).take(ki.len() as int + j));
                assert(y == (ki + ko)[ki.len() as int + j]);
                assert(r@ =~= (ki + ko).take(min(max_total as int, ki.len() as int + (j + 1))));
            }
        } else {
            proof {
                assert(r@ =~= (ki + ko).take(min(max_total as int, ki.len() as int + (j + 1))));
            }
        }
        proof {
            j = j + 1;
        }
    }
    proof {
        assert(j == ko.len());
        lemma_keep_partition(orig, g);
        assert(r@ =~= (ki + ko).take(min(max_total as int, orig.len() as int)));
    }
    r
}

/// Flatten the leaf results into the appearance list the model speaks of.
fn flatten_appearances(subs: &Vec<SubQueryResult>) -> (r: Vec<(String, QueryResult)>)
    ensures
        r@.map_values(|p: (String, QueryResult)| (p.0@, p.1@)) == appearance_model(subs@),
{
    let ghost model = appearance_model(subs@);
    let n = subs.len();
    let mut r: Vec<(String, QueryResult)> = Vec::new();
    let mut i: usize = 0;
    while i < n
        invariant
            n == subs@.len(),
            i <= n,
            r@.map_values(|p: (String, QueryResult)| (p.0@, p.1@)) == flat_of(
                subs@.subrange(0, i as int).map_values(|s: SubQueryResult| s@),
            ),
        decreases n - i,
    {
        let m = subs[i].results.len();
        let mut j: usize = 0;
        let ghost before = r@.map_values(|p: (String, QueryResult)| (p.0@, p.1@));
        while j < m
            invariant
                n == subs@.len(),
                i < n,
                m == subs@[i as int].results@.len(),
                j <= m,
                before == flat_of(subs@.subrange(0, i as int).map_values(|s: SubQueryResult| s@)),
                r@.map_values(|p: (String, QueryResult)| (p.0@, p.1@)) == before + pairs_of(
                    subs@[i as int]@,
                ).take(j as int),
            decreases m - j,
        {
            let ghost r0 = r@.map_values(|p: (String, QueryResult)| (p.0@, p.1@));
            let node = subs[i].node_id.clone();
            let q = subs[i].results[j].clone();
            r.push((node, q));
            proof {
                assert(r@.map_values(|p: (String, QueryResult)| (p.0@, p.1@)) =~= r0.push(
                    (subs@[i as int].node_id@, subs@[i as int].results@[j as int]@),
                ));
                assert(pairs_of(subs@[i as int]@).take(j + 1) =~= pairs_of(
                    subs@[i as int]@,
                ).take(j as int).push((subs@[i as int].node_id@, subs@[i as int].results@[j as int]@)));
                assert(r@.map_values(|p: (String, QueryResult)| (p.0@, p.1@)) =~= before
                    + pairs_of(subs@[i as int]@).take(j + 1));
            }
            j = j + 1;
        }
        proof {
            let pre = subs@.subrange(0, i as int).map_values(|s: SubQueryResult| s@);
            let cur = subs@.subrange(0, i + 1).map_values(|s: SubQueryResult| s@);
            assert(cur.drop_last() =~= pre);
            assert(cur.last() == subs@[i as int]@);
            assert(pairs_of(subs@[i as int]@).take(m as int) =~= pairs_of(subs@[i as int]@));
            assert(r@.map_values(|p: (String, QueryResult)| (p.0@, p.1@)) =~= flat_of(cur));
        }
        i = i + 1;
    }
    proof {
        assert(subs@.subrange(0, n as int) =~= subs@);
    }
    r
}

/// An entry of `s` whose id is in the group stands in `keep_in`.
proof fn lemma_keep_in_complete(s: Seq<MergedResult>, g: Seq<Seq<char>>, k: int)
    requires
        0 <= k < s.len(),
        g.contains(s[k].memory.id@),
    ensures
        keep_in(s, g).contains(s[k]),
    decreases s.len(),
{
    if k == s.len() - 1 {
        assert(keep_in(s, g).last() == s[k]);
    } else {
        lemma_keep_in_complete(s.drop_last(), g, k);
        let i = choose|i: int|
            0 <= i < keep_in(s.drop_last(), g).len() && keep_in(s.drop_last(), g)[i]
                == s.drop_last()[k];
        assert(keep_in(s, g)[i] == s.drop_last()[k]);
        assert(s.drop_last()[k] == s[k]);
    }
}

/// Elements and ids of the two groups: each group holds entries of `s`,
/// each with distinct ids, `keep_in` only ids of the group, `keep_out`
/// none of them.
proof fn lemma_keep_props(s: Seq<MergedResult>, g: Seq<Seq<char>>)
    requires
        forall|i: int, j: int|
            0 <= i < j < s.len() ==> (#[trigger] s[i]).memory.id@ != (#[trigger] s[j]).memory.id@,
    ensures
        forall|i: int|
            0 <= i < keep_in(s, g).len() ==> s.contains(#[trigger] keep_in(s, g)[i]) && g.contains(
                keep_in(s, g)[i].memory.id@,
            ),
        forall|i: int|
            0 <= i < keep_out(s, g).len() ==> s.contains(#[trigger] keep_out(s, g)[i])
                && !g.contains(keep_out(s, g)[i].memory.id@),
        forall|i: int, j: int|
            0 <= i < j < keep_in(s, g).len() ==> (#[trigger] keep_in(s, g)[i]).memory.id@ != (
            #[trigger] keep_in(s, g)[j]).memory.id@,
        forall|i: int, j: int|
            0 <= i < j < keep_out(s, g).len() ==> (#[trigger] keep_out(s, g)[i]).memory.id@ != (
            #[trigger] keep_out(s, g)[j]).memory.id@,
    decreases s.len(),
{
    if s.len() > 0 {
        let d = s.drop_last();
        assert(forall|i: int, j: int|
            0 <= i < j < d.len() ==> (#[trigger] d[i]).memory.id@ != (#[trigger] d[j]).memory.id@)
            by {
            assert(forall|i: int| 0 <= i < d.len() ==> d[i] == s[i]);
        }
        lemma_keep_props(d, g);
        assert(forall|i: int| 0 <= i < d.len() ==> d[i] == s[i]);
        assert forall|i: int|
            0 <= i < keep_in(s, g).len() implies s.contains(#[trigger] keep_in(s, g)[i])
            && g.contains(keep_in(s, g)[i].memory.id@) by {
            if i < keep_in(d, g).len() {
                assert(keep_in(s, g)[i] == keep_in(d, g)[i]);
                assert(d.contains(keep_in(d, g)[i]));
                let k = choose|k: int| 0 <= k < d.len() && d[k] == keep_in(d, g)[i];
                assert(s[k] == keep_in(s, g)[i]);
            } else {
                assert(keep_in(s, g)[i] == s.last());
                assert(s.contains(s.last()));
            }
        }
        assert forall|i: int|
            0 <= i < keep_out(s, g).len() implies s.contains(#[trigger] keep_out(s, g)[i])
            && !g.contains(keep_out(s, g)[i].memory.id@) by {
            if i < keep_out(d, g).len() {
                assert(keep_out(s, g)[i] == keep_out(d, g)[i]);
                assert(d.contains(keep_out(d, g)[i]));
                let k = choose|k: int| 0 <= k < d.len() && d[k] == keep_out(d, g)[i];
                assert(s[k] == keep_out(s, g)[i]);
            } else {
                assert(keep_out(s, g)[i] == s.last());
                assert(s.contains(s.last()));
            }
        }
        assert forall|i: int, j: int|
            0 <= i < j < keep_in(s, g).len() implies (#[trigger] keep_in(s, g)[i]).memory.id@ != (
        #[trigger] keep_in(s, g)[j]).memory.id@ by {
            if j < keep_in(d, g).len() {
                assert(keep_in(s, g)[i] == keep_in(d, g)[i]);
                assert(keep_in(s, g)[j] == keep_in(d, g)[j]);
            } else if j == keep_in(s, g).len() - 1 && keep_in(s, g).len() > keep_in(d, g).len() {
                assert(keep_in(s, g)[j] == s.last());
                assert(keep_in(s, g)[i] == keep_in(d, g)[i]);
                assert(d.contains(keep_in(d, g)[i]));
                let k = choose|k: int| 0 <= k < d.len() && d[k] == keep_in(d, g)[i];
                assert(s[k].memory.id@ != s[s.len() - 1].memory.id@);
            }
        }
        assert forall|i: int, j: int|
            0 <= i < j < keep_out(s, g).len() implies (#[trigger] keep_out(s, g)[i]).memory.id@
            != (#[trigger] keep_out(s, g)[j]).memory.id@ by {
            if j < keep_out(d, g).len() {
                assert(keep_out(s, g)[i] == keep_out(d, g)[i]);
                assert(keep_out(s, g)[j] == keep_out(d, g)[j]);
            } else if j == keep_out(s, g).len() - 1 && keep_out(s, g).len() > keep_out(d, g).len() {
                assert(keep_out(s, g)[j] == s.last());
                assert(keep_out(s, g)[i] == keep_out(d, g)[i]);
                assert(d.contains(keep_out(d, g)[i]));
                let k = choose|k: int| 0 <= k < d.len() && d[k] == keep_out(d, g)[i];
                assert(s[k].memory.id@ != s[s.len() - 1].memory.id@);
            }
        }
    }
}

/// Seal one leaf's contribution to the merge: keep the leaf's top
/// `top_n_per_leaf` ranked results, and drop the leaf entirely when it
/// surfaced nothing, since the merge takes one entry per productive
/// leaf only.
pub fn leaf_outcome(node_id: String, ranked: Vec<QueryResult>, top_n: usize) -> (r: Option<
    SubQueryResult,
>)
    ensures
        ranked@.len() == 0 <==> r is None,
        r matches Some(sub) ==> sub.node_id@ == node_id@ && sub.results@ == ranked@.take(
            min(top_n as int, ranked@.len() as int),
        ),
{
    if ranked.len() == 0 {
        return None;
    }
    let ghost orig = ranked@;
    let mut results = ranked;
    results.truncate(top_n);
    proof {
        assert(results@ =~= orig.take(min(top_n as int, orig.len() as int)));
    }
    Some(SubQueryResult { node_id, results })
}

/// What the whole merge promises beyond each entry's own contract: the
/// intermediate collapsed and sorted lists and the guaranteed group that
/// produced the final list.  The sort is a stable permutation of the
/// collapse, so together with [`collapsed_ok`] these clauses pin the
/// final list's memories and order.
pub open spec fn merge_stages_ok(
    flat: Seq<Appearance>,
    subs: Seq<SubQueryResult>,
    min_per_leaf: int,
    max_total: int,
    collapsed: Seq<MergedResult>,
    sorted_s: Seq<MergedResult>,
    g: Seq<Seq<char>>,
    r: Seq<MergedResult>,
) -> bool {
    &&& collapsed_ok(flat, collapsed)
    &&& sorted_merged_desc(sorted_s)
    &&& sorted_s.to_multiset() == collapsed.to_multiset()
    &&& forall|v: int| merged_with_score(sorted_s, v) == merged_with_score(collapsed, v)
    &&& forall|k: int|
        0 <= k < sorted_s.len() ==> collapsed_entry_ok(flat, (#[trigger] sorted_s[k])@)
    &&& forall|i: int, j: int|
        0 <= i < j < sorted_s.len() ==> (#[trigger] sorted_s[i]).memory.id@ != (
        #[trigger] sorted_s[j]).memory.id@
    &&& g == guaranteed_spec(sorted_s, subs, min_per_leaf, subs.len() as int)
    &&& forall|i: int, j: int| 0 <= i < j < g.len() ==> g[i] != g[j]
    &&& forall|x: Seq<char>| g.contains(x) ==> merged_ids_of(sorted_s).contains(x)
    &&& g.len() <= subs.len() * min_per_leaf
    &&& forall|l: int|
        0 <= l < subs.len() ==> count_guaranteed(sorted_s, g, (#[trigger] subs[l]).node_id@)
            >= min(min_per_leaf, count_leaf_entries(sorted_s, subs[l].node_id@))
    &&& r == (keep_in(sorted_s, g) + keep_out(sorted_s, g)).take(
        min(max_total, sorted_s.len() as int),
    )
}

/// Merge the per-leaf results: collapse by memory id, sort by best score,
/// guarantee each productive leaf its fairness floor, and cap the total.
pub fn merge_results(sub_results: &Vec<SubQueryResult>, config: &crate::config::MultiQueryConfig) -> (r:
    Vec<MergedResult>)
    ensures
        r@.len() <= config.max_total_results,
        forall|a: int, b: int|
            0 <= a < b < r@.len() ==> (#[trigger] r@[a]).memory.id@ != (#[trigger] r@[b]).memory.id@,
        forall|k: int|
            0 <= k < r@.len() ==> collapsed_entry_ok(
                appearance_model(sub_results@),
                (#[trigger] r@[k])@,
            ),
        exists|collapsed: Seq<MergedResult>, sorted_s: Seq<MergedResult>, g: Seq<Seq<char>>|
            merge_stages_ok(
                appearance_model(sub_results@),
                sub_results@,
                config.min_per_leaf as int,
                config.max_total_results as int,
                collapsed,
                sorted_s,
                g,
                r@,
            ),
{
    let ghost flat = appearance_model(sub_results@);
    let collapsed = collapse_results(sub_results);
    let ghost col = collapsed@;
    proof {
        lemma_dedup_first_distinct(flat_ids(flat));
        assert forall|i: int, j: int|
            0 <= i < j < col.len() implies (#[trigger] col[i]).memory.id@ != (
        #[trigger] col[j]).memory.id@ by {
            assert(merged_ids_of(col)[i] == col[i].memory.id@);
            assert(merged_ids_of(col)[j] == col[j].memory.id@);
        }
    }
    let sorted = sort_merged(collapsed);
    let ghost ss = sorted@;
    proof {
        lemma_perm_distinct_ids(col, ss);
        assert forall|k: int| 0 <= k < ss.len() implies collapsed_entry_ok(
            flat,
            (#[trigger] ss[k])@,
        ) by {
            assert(ss.to_multiset().contains(ss[k]));
            assert(col.to_multiset().contains(ss[k]));
            let i = choose|i: int| 0 <= i < col.len() && col[i] == ss[k];
            assert(collapsed_entry_ok(flat, col[i]@));
        }
    }
    let guaranteed = collect_guaranteed_results(&sorted, sub_results, config.min_per_leaf);
    let ghost g = source_ids_of(guaranteed@);
    let r = build_final_results(sorted, &guaranteed, config.max_total_results);
    proof {
        let whole = keep_in(ss, g) + keep_out(ss, g);
        lemma_keep_partition(ss, g);
        lemma_keep_props(ss, g);
        assert(r@.len() == min(config.max_total_results as int, ss.len() as int));
        assert forall|k: int| 0 <= k < r@.len() implies ss.contains(#[trigger] r@[k]) by {
            assert(r@[k] == whole[k]);
            if k < keep_in(ss, g).len() {
                assert(whole[k] == keep_in(ss, g)[k]);
            } else {
                assert(whole[k] == keep_out(ss, g)[k - keep_in(ss, g).len()]);
            }
        }
        assert forall|k: int| 0 <= k < r@.len() implies collapsed_entry_ok(
            flat,
            (#[trigger] r@[k])@,
        ) by {
            let i = choose|i: int| 0 <= i < ss.len() && ss[i] == r@[k];
            assert(collapsed_entry_ok(flat, ss[i]@));
        }
        assert forall|a: int, b: int| 0 <= a < b < r@.len() implies (
        #[trigger] r@[a]).memory.id@ != (#[trigger] r@[b]).memory.id@ by {
            assert(r@[a] == whole[a]);
            assert(r@[b] == whole[b]);
            let ki = keep_in(ss, g);
            let ko = keep_out(ss, g);
            if b < ki.len() {
                assert(whole[a] == ki[a] && whole[b] == ki[b]);
            } else if a >= ki.len() {
                assert(whole[a] == ko[a - ki.len()] && whole[b] == ko[b - ki.len()]);
            } else {
                assert(whole[a] == ki[a] && whole[b] == ko[b - ki.len()]);
                assert(g.contains(ki[a].memory.id@));
                assert(!g.contains(ko[b - ki.len()].memory.id@));
            }
        }
        assert(merge_stages_ok(
            flat,
            sub_results@,
            config.min_per_leaf as int,
            config.max_total_results as int,
            col,
            ss,
            g,
            r@,
        ));
    }
    r
}

/// Cut the merged list down to the user-visible cap and hand back the
/// memories themselves.
///
/// This carries the final list's shape: its length never exceeds
/// `min(limit, max_total)`, and distinct merged ids stay distinct, so the
/// list the user sees holds no duplicates.
pub fn finalize_results(merged: Vec<MergedResult>, limit: usize, max_total: usize) -> (r: Vec<
    QueryResult,
>)
    ensures
        r@.len() == min(min(limit as int, max_total as int), merged@.len() as int),
        forall|i: int| 0 <= i < r@.len() ==> r@[i] == (#[trigger] merged@[i]).memory,
        (forall|a: int, b: int|
            0 <= a < b < merged@.len() ==> (#[trigger] merged@[a]).memory.id@ != (
            #[trigger] merged@[b]).memory.id@) ==> (forall|a: int, b: int|
            0 <= a < b < r@.len() ==> (#[trigger] r@[a]).id@ != (#[trigger] r@[b]).id@),
{
    let ghost orig = merged@;
    let result_limit = if limit < max_total {
        limit
    } else {
        max_total
    };
    let mut pending = merged;
    let mut r: Vec<QueryResult> = Vec::new();
    let ghost mut k: int = 0;
    while pending.len() > 0 && r.len() < result_limit
        invariant
            0 <= k <= orig.len(),
            pending@ == orig.skip(k),
            r@.len() == k,
            k <= result_limit,
            result_limit == min(limit as int, max_total as int),
            forall|i: int| 0 <= i < k ==> r@[i] == (#[trigger] orig[i]).memory,
        decreases pending@.len(),
    {
        proof {
            assert(pending@[0] == orig[k]);
        }
        let m = pending.remove(0);
        proof {
            assert(pending@ =~= orig.skip(k + 1));
        }
        r.push(m.memory);
        proof {
            k = k + 1;
        }
    }
    proof {
        if forall|a: int, b: int|
            0 <= a < b < orig.len() ==> (#[trigger] orig[a]).memory.id@ != (
            #[trigger] orig[b]).memory.id@ {
            assert forall|a: int, b: int| 0 <= a < b < r@.len() implies (#[trigger] r@[a]).id@
                != (#[trigger] r@[b]).id@ by {
                assert(r@[a] == orig[a].memory);
                assert(r@[b] == orig[b].memory);
                assert(orig[a].memory.id@ != orig[b].memory.id@);
            }
        }
    }
    r
}

/// Fairness floor of the final assembly: every guaranteed id that the
/// sorted list holds appears in the final list, as long as the guaranteed
/// entries fit under the cap.  Together with the size bound of
/// [`collect_guaranteed_results`] this is the precise form of the per-leaf
/// retention guarantee.
pub proof fn lemma_guaranteed_in_final(
    sorted: Seq<MergedResult>,
    g: Seq<Seq<char>>,
    max_total: int,
    r: Seq<MergedResult>,
)
    requires
        r == (keep_in(sorted, g) + keep_out(sorted, g)).take(min(max_total, sorted.len() as int)),
        keep_in(sorted, g).len() <= max_total,
    ensures
        forall|x: Seq<char>|
            g.contains(x) && merged_ids_of(sorted).contains(x) ==> merged_ids_of(r).contains(x),
{
    lemma_keep_partition(sorted, g);
    assert forall|x: Seq<char>|
        g.contains(x) && merged_ids_of(sorted).contains(x) implies merged_ids_of(r).contains(
        x,
    ) by {
        let k = choose|k: int|
            0 <= k < merged_ids_of(sorted).len() && merged_ids_of(sorted)[k] == x;
        assert(sorted[k].memory.id@ == x);
        lemma_keep_in_complete(sorted, g, k);
        let i = choose|i: int|
            0 <= i < keep_in(sorted, g).len() && keep_in(sorted, g)[i] == sorted[k];
        assert((keep_in(sorted, g) + keep_out(sorted, g))[i] == sorted[k]);
        assert(i < min(max_total, sorted.len() as int));
        assert(r[i] == sorted[k]);
        assert(merged_ids_of(r)[i] == x);
    }
}

/// No appearance of a memory beats that memory's best score.
pub proof fn lemma_appearance_le_best(flat: Seq<Appearance>, k: int)
    requires
        0 <= k < flat.len(),
    ensures
        flat[k].1.score_or() <= best_of(flat, flat[k].1.id),
        flat_ids(flat).contains(flat[k].1.id),
        best_of(flat, flat[k].1.id) >= 0,
    decreases flat.len(),
{
    lemma_best_nonneg(flat, flat[k].1.id);
    assert(flat_ids(flat)[k] == flat[k].1.id);
    if k == flat.len() - 1 {
        lemma_best_step_le(flat, flat[k].1.id);
    } else {
        lemma_appearance_le_best(flat.drop_last(), k);
        assert(flat.drop_last()[k] == flat[k]);
        lemma_best_step_le(flat, flat[k].1.id);
    }
}

/// The best score never falls when an appearance is added.
proof fn lemma_best_step_le(flat: Seq<Appearance>, id: Seq<char>)
    requires
        flat.len() > 0,
    ensures
        best_of(flat.drop_last(), id) <= best_of(flat, id),
        flat.last().1.id == id ==> flat.last().1.score_or() <= best_of(flat, id),
{
}

proof fn lemma_best_nonneg(flat: Seq<Appearance>, id: Seq<char>)
    ensures
        best_of(flat, id) >= 0,
    decreases flat.len(),
{
    if flat.len() > 0 {
        lemma_best_nonneg(flat.drop_last(), id);
    }
}

/// Idempotent merge, collapse half: appearances that only repeat
/// already-seen memories at no better score change neither the merge's id
/// order nor any memory's best score.  Re-merging the same leaf results
/// is such a repetition, so stages A and B give the same memories in the
/// same order; the fairness stage can still promote extra entries past
/// the cap when the repeated leaves enlarge the guaranteed group.
pub proof fn lemma_collapse_idempotent(flat: Seq<Appearance>, extra: Seq<Appearance>)
    requires
        forall|k: int|
            0 <= k < extra.len() ==> flat_ids(flat).contains((#[trigger] extra[k]).1.id) && extra[
                k
            ].1.score_or() <= best_of(flat, extra[k].1.id),
    ensures
        dedup_first(flat_ids(flat + extra)) == dedup_first(flat_ids(flat)),
        forall|id: Seq<char>| best_of(flat + extra, id) == best_of(flat, id),
    decreases extra.len(),
{
    if extra.len() == 0 {
        assert(flat + extra =~= flat);
    } else {
        let e = extra.drop_last();
        assert(forall|k: int|
            0 <= k < e.len() ==> flat_ids(flat).contains((#[trigger] e[k]).1.id) && e[
                k
            ].1.score_or() <= best_of(flat, e[k].1.id)) by {
            assert(forall|k: int| 0 <= k < e.len() ==> e[k] == extra[k]);
        }
        lemma_collapse_idempotent(flat, e);
        let whole = flat + extra;
        let prev = flat + e;
        assert(whole.drop_last() =~= prev);
        assert(whole.last() == extra.last());
        assert forall|id: Seq<char>| best_of(whole, id) == best_of(flat, id) by {
            if extra.last().1.id == id {
                assert(extra.last().1.score_or() <= best_of(flat, id));
            }
        }
        assert(flat_ids(whole).drop_last() =~= flat_ids(prev));
        assert(flat_ids(whole).last() == extra.last().1.id);
        assert(flat_ids(prev).contains(extra.last().1.id)) by {
            let k = choose|k: int|
                0 <= k < flat_ids(flat).len() && flat_ids(flat)[k] == extra.last().1.id;
            assert(prev[k] == flat[k]);
            assert(flat_ids(prev)[k] == extra.last().1.id);
        }
        assert(dedup_first(flat_ids(whole)) =~= dedup_first(flat_ids(prev)));
    }
}

/// With well-formed inputs the best score stays in the unit interval.
proof fn lemma_best_bounded(flat: Seq<Appearance>, id: Seq<char>)
    requires
        forall|k: int| 0 <= k < flat.len() ==> (#[trigger] flat[k]).1.wf(),
    ensures
        best_of(flat, id) <= crate::score::SCORE_SCALE,
    decreases flat.len(),
{
    if flat.len() > 0 {
        assert(forall|k: int|
            0 <= k < flat.drop_last().len() ==> (#[trigger] flat.drop_last()[k]).1.wf()) by {
            assert(forall|k: int| 0 <= k < flat.len() - 1 ==> flat.drop_last()[k] == flat[k]);
        }
        lemma_best_bounded(flat.drop_last(), id);
        assert(flat.last() == flat[flat.len() - 1]);
    }
}

/// Every score the merge surfaces stays in the unit interval: a merged
/// entry built from well-formed leaf results is itself well formed.
pub proof fn lemma_merged_scores_in_unit(flat: Seq<Appearance>, m: crate::types::MergedResultView)
    requires
        collapsed_entry_ok(flat, m),
        forall|k: int| 0 <= k < flat.len() ==> (#[trigger] flat[k]).1.wf(),
    ensures
        m.wf(),
{
    lemma_best_bounded(flat, m.memory.id);
    lemma_best_nonneg(flat, m.memory.id);
}

/// The appearance model distributes over concatenated leaf lists.
proof fn lemma_model_distributes(subs1: Seq<SubQueryResult>, subs2: Seq<SubQueryResult>)
    ensures
        appearance_model(subs1 + subs2) == appearance_model(subs1) + appearance_model(subs2),
    decreases subs2.len(),
{
    if subs2.len() == 0 {
        assert(subs1 + subs2 =~= subs1);
        assert(appearance_model(subs1) + appearance_model(subs2) =~= appearance_model(subs1));
    } else {
        lemma_model_distributes(subs1, subs2.drop_last());
        let whole = (subs1 + subs2).map_values(|s: SubQueryResult| s@);
        let shorter = (subs1 + subs2.drop_last()).map_values(|s: SubQueryResult| s@);
        assert(whole.drop_last() =~= shorter);
        assert(whole.last() == subs2.last()@);
        let right = subs2.map_values(|s: SubQueryResult| s@);
        assert(right.drop_last() =~= subs2.drop_last().map_values(|s: SubQueryResult| s@));
        assert(right.last() == subs2.last()@);
        assert(appearance_model(subs1 + subs2) =~= appearance_model(subs1) + appearance_model(
            subs2,
        ));
    }
}

/// Leaf lists with the same per-leaf results produce appearance lists
/// with the same results, pair for pair.
proof fn lemma_same_results_same_pairs(subs: Seq<SubQueryResult>, dups: Seq<SubQueryResult>)
    requires
        dups.len() == subs.len(),
        forall|i: int| 0 <= i < subs.len() ==> (#[trigger] dups[i])@.results == subs[i]@.results,
    ensures
        appearance_model(dups).len() == appearance_model(subs).len(),
        forall|k: int|
            0 <= k < appearance_model(dups).len() ==> (#[trigger] appearance_model(dups)[k]).1
                == appearance_model(subs)[k].1,
    decreases subs.len(),
{
    if subs.len() > 0 {
        let s0 = subs.drop_last();
        let d0 = dups.drop_last();
        assert(forall|i: int| 0 <= i < s0.len() ==> (#[trigger] d0[i])@.results == s0[i]@.results)
            by {
            assert(forall|i: int| 0 <= i < s0.len() ==> d0[i] == dups[i] && s0[i] == subs[i]);
        }
        lemma_same_results_same_pairs(s0, d0);
        let sv = subs.map_values(|s: SubQueryResult| s@);
        let dv = dups.map_values(|s: SubQueryResult| s@);
        assert(sv.drop_last() =~= s0.map_values(|s: SubQueryResult| s@));
        assert(dv.drop_last() =~= d0.map_values(|s: SubQueryResult| s@));
        assert(sv.last() == subs.last()@);
        assert(dv.last() == dups.last()@);
        let sp = pairs_of(subs.last()@);
        let dp = pairs_of(dups.last()@);
        assert(dp.len() == sp.len());
        assert(forall|j: int| 0 <= j < sp.len() ==> (#[trigger] dp[j]).1 == sp[j].1);
        let stail = appearance_model(s0);
        let dtail = appearance_model(d0);
        assert(appearance_model(subs) =~= stail + sp);
        assert(appearance_model(dups) =~= dtail + dp);
        assert forall|k: int|
            0 <= k < appearance_model(dups).len() implies (#[trigger] appearance_model(
            dups,
        )[k]).1 == appearance_model(subs)[k].1 by {
            if k < dtail.len() {
                assert(appearance_model(dups)[k] == dtail[k]);
                assert(appearance_model(subs)[k] == stail[k]);
            } else {
                assert(appearance_model(dups)[k] == dp[k - dtail.len()]);
                assert(appearance_model(subs)[k] == sp[k - dtail.len()]);
            }
        }
    }
}

/// Idempotent merge over the real inputs: re-submitting the same leaf
/// results under fresh leaf ids leaves the collapse's memory order and
/// every best score unchanged, so stages A and B surface the same
/// memories in the same order.  The fairness stage can still promote
/// extra entries past the cap when the repeated leaves enlarge the
/// guaranteed group.
pub proof fn lemma_merge_idempotent(subs: Seq<SubQueryResult>, dups: Seq<SubQueryResult>)
    requires
        dups.len() == subs.len(),
        forall|i: int| 0 <= i < subs.len() ==> (#[trigger] dups[i])@.results == subs[i]@.results,
    ensures
        dedup_first(flat_ids(appearance_model(subs + dups))) == dedup_first(
            flat_ids(appearance_model(subs)),
        ),
        forall|id: Seq<char>|
            best_of(appearance_model(subs + dups), id) == best_of(appearance_model(subs), id),
{
    lemma_model_distributes(subs, dups);
    lemma_same_results_same_pairs(subs, dups);
    let flat = appearance_model(subs);
    let extra = appearance_model(dups);
    assert forall|k: int|
        0 <= k < extra.len() implies flat_ids(flat).contains((#[trigger] extra[k]).1.id) && extra[
        k
    ].1.score_or() <= best_of(flat, extra[k].1.id) by {
        assert(extra[k].1 == flat[k].1);
        lemma_appearance_le_best(flat, k);
    }
    lemma_collapse_idempotent(flat, extra);
}

} // verus!
