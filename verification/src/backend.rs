//! The contract the retrieval core requires of a storage backend.
//!
//! A backend holds memories and answers vector searches.  For one query
//! vector, the backend's scoring induces a list of scored rows; a correct
//! answer to `search_by_vector(limit, threshold, time_range)` is then
//! pinned down by [`search_answer_ok`].  The edge that wraps a real
//! backend is expected to meet this predicate; the laws below are proved
//! of every answer that does.

use vstd::prelude::*;

use crate::score::valid_score;
use crate::types::{result_ids, QueryResultView, TimeRange};

verus! {

/// Whether a row passes the threshold and the optional time filter.
pub open spec fn row_admitted(r: QueryResultView, threshold: int, range: Option<TimeRange>) -> bool {
    &&& r.score_or() >= threshold
    &&& match range {
        Some(tr) => tr.admits(r.updated_at),
        None => true,
    }
}

/// What a correct `search_by_vector` answer looks like, against the
/// scored rows `store` that the backend's similarity induces for the
/// query vector: every answer entry is an admitted row, the answer is
/// ordered by descending score, holds at most `limit` entries, and when
/// it has room left it holds every admitted row.
pub open spec fn search_answer_ok(
    store: Seq<QueryResultView>,
    limit: int,
    threshold: int,
    range: Option<TimeRange>,
    out: Seq<QueryResultView>,
) -> bool {
    &&& forall|i: int|
        0 <= i < out.len() ==> store.contains(#[trigger] out[i]) && row_admitted(
            out[i],
            threshold,
            range,
        )
    &&& forall|i: int, j: int| 0 <= i < j < out.len() ==> out[i].score_or() >= out[j].score_or()
    &&& out.len() <= limit
    &&& out.len() < limit ==> forall|i: int|
        0 <= i < store.len() && row_admitted(#[trigger] store[i], threshold, range) ==> out.contains(
            store[i],
        )
}

/// Threshold monotonicity: against the same scored rows and the same
/// time filter, the ids answered at a threshold are a subset of the ids
/// answered at any lower threshold, as long as the lower answer was not
/// cut short by its limit.
pub proof fn lemma_threshold_monotone(
    store: Seq<QueryResultView>,
    limit1: int,
    t1: int,
    limit2: int,
    t2: int,
    range: Option<TimeRange>,
    out1: Seq<QueryResultView>,
    out2: Seq<QueryResultView>,
)
    requires
        search_answer_ok(store, limit1, t1, range, out1),
        search_answer_ok(store, limit2, t2, range, out2),
        t2 <= t1,
        out2.len() < limit2,
    ensures
        forall|i: int|
            0 <= i < out1.len() ==> result_ids(out2).contains((#[trigger] out1[i]).id),
{
    assert forall|i: int| 0 <= i < out1.len() implies result_ids(out2).contains(
        (#[trigger] out1[i]).id,
    ) by {
        assert(store.contains(out1[i]));
        let k = choose|k: int| 0 <= k < store.len() && store[k] == out1[i];
        assert(row_admitted(store[k], t2, range));
        assert(out2.contains(store[k]));
        let j = choose|j: int| 0 <= j < out2.len() && out2[j] == out1[i];
        assert(result_ids(out2)[j] == out2[j].id);
    }
}

} // verus!
