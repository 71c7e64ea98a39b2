//! Data model of the retrieval core.
//!
//! Scores are fixed-point integers in ten-thousandths (see [`crate::score`]).
//! Embedding vectors are opaque to the core: it only shuttles them between
//! the storage edge's search calls, so the `Memory` record kept here carries
//! everything the core reads (id, content, tags, timestamps) and the edge
//! keeps the raw vector beside it.
//!
//! Every executable type has a mathematical view (`@`); the contracts of the
//! pipeline are stated over those views.

use vstd::prelude::*;

use crate::score::{score_or_zero, valid_score};

verus! {

/// How a result's score was produced: by vector similarity or by the
/// cross-encoder rerank provider.  Rerank scores are not comparable across
/// queries, so the tag travels with every surfaced result.
#[derive(Clone, Copy, PartialEq, Eq, Structural, Debug)]
pub enum ScoreType {
    Vector,
    Rerank,
}

/// Mathematical value of a [`QueryResult`].
#[verifier::ext_equal]
pub struct QueryResultView {
    pub id: Seq<char>,
    pub content: Seq<char>,
    pub tags: Seq<Seq<char>>,
    pub updated_at: i64,
    pub score: Option<u32>,
    pub score_type: Option<ScoreType>,
}

impl QueryResultView {
    /// A result is well formed when its score, if present, lies in the unit
    /// interval.
    pub open spec fn wf(self) -> bool {
        match self.score {
            Some(s) => valid_score(s),
            None => true,
        }
    }

    /// The score of this result with a missing score counting as zero.
    pub open spec fn score_or(self) -> int {
        score_or_zero(self.score)
    }
}

/// One search hit, as produced by the storage backend and reshaped by the
/// rerank step.  `score` is in ten-thousandths of the unit interval.
#[derive(Debug)]
pub struct QueryResult {
    pub id: String,
    pub content: String,
    pub tags: Vec<String>,
    pub updated_at: i64,
    pub score: Option<u32>,
    pub score_type: Option<ScoreType>,
}

impl View for QueryResult {
    type V = QueryResultView;

    open spec fn view(&self) -> QueryResultView {
        QueryResultView {
            id: self.id@,
            content: self.content@,
            tags: self.tags@.map_values(|t: String| t@),
            updated_at: self.updated_at,
            score: self.score,
            score_type: self.score_type,
        }
    }
}

impl Clone for QueryResult {
    fn clone(&self) -> (r: Self)
        ensures
            r@ == self@,
    {
        let tags = self.tags.clone();
        proof {
            assert(tags@ =~= self.tags@);
        }
        let r = QueryResult {
            id: self.id.clone(),
            content: self.content.clone(),
            tags,
            updated_at: self.updated_at,
            score: self.score,
            score_type: self.score_type,
        };
        proof {
            assert(r@ =~= self@);
        }
        r
    }
}

/// Mathematical value of a [`Memory`].
#[verifier::ext_equal]
pub struct MemoryView {
    pub id: Seq<char>,
    pub content: Seq<char>,
    pub tags: Seq<Seq<char>>,
    pub source_file: Option<Seq<char>>,
    pub created_at: i64,
    pub updated_at: i64,
}

impl MemoryView {
    /// A memory is well formed when it has content and was not updated
    /// before it was created.
    pub open spec fn wf(self) -> bool {
        &&& self.content.len() > 0
        &&& self.created_at <= self.updated_at
    }
}

/// A full memory record, as the core reads it.  The embedding vector itself
/// stays at the storage edge; the core only ever hands it back to the next
/// search call, keyed by this record's `id`.
#[derive(Debug)]
pub struct Memory {
    pub id: String,
    pub content: String,
    pub tags: Vec<String>,
    pub source_file: Option<String>,
    pub created_at: i64,
    pub updated_at: i64,
}

impl View for Memory {
    type V = MemoryView;

    open spec fn view(&self) -> MemoryView {
        MemoryView {
            id: self.id@,
            content: self.content@,
            tags: self.tags@.map_values(|t: String| t@),
            source_file: match self.source_file {
                Some(ref s) => Some(s@),
                None => None,
            },
            created_at: self.created_at,
            updated_at: self.updated_at,
        }
    }
}

/// Inclusive time bounds on `updated_at`, in milliseconds.
#[derive(Clone, Copy, Debug)]
pub struct TimeRange {
    pub after: Option<i64>,
    pub before: Option<i64>,
}

impl TimeRange {
    /// When both bounds are present the range must not be empty.
    pub open spec fn wf(self) -> bool {
        match (self.after, self.before) {
            (Some(a), Some(b)) => a <= b,
            _ => true,
        }
    }

    /// Whether a timestamp falls inside the (inclusive) range.
    pub open spec fn admits(self, ms: i64) -> bool {
        &&& match self.after {
            Some(a) => a <= ms,
            None => true,
        }
        &&& match self.before {
            Some(b) => ms <= b,
            None => true,
        }
    }
}

/// Mathematical value of a [`SubQuery`].
#[verifier::ext_equal]
pub struct SubQueryView {
    pub dimension: Seq<char>,
    pub query: Seq<char>,
    pub need_expand: bool,
}

/// One sub-question returned by a decomposition call, before it is turned
/// into a tree node.
#[derive(Debug)]
pub struct SubQuery {
    pub dimension: String,
    pub query: String,
    pub need_expand: bool,
}

impl View for SubQuery {
    type V = SubQueryView;

    open spec fn view(&self) -> SubQueryView {
        SubQueryView { dimension: self.dimension@, query: self.query@, need_expand: self.need_expand }
    }
}

impl Clone for SubQuery {
    fn clone(&self) -> (r: Self)
        ensures
            r@ == self@,
    {
        let r = SubQuery {
            dimension: self.dimension.clone(),
            query: self.query.clone(),
            need_expand: self.need_expand,
        };
        proof {
            assert(r@ =~= self@);
        }
        r
    }
}

/// Mathematical value of a [`SubQueryResult`].
#[verifier::ext_equal]
pub struct SubQueryResultView {
    pub node_id: Seq<char>,
    pub results: Seq<QueryResultView>,
}

impl SubQueryResultView {
    pub open spec fn wf(self) -> bool {
        forall|i: int| 0 <= i < self.results.len() ==> (#[trigger] self.results[i]).wf()
    }
}

/// The ordered results of one leaf's search, tagged with the leaf's node id.
#[derive(Debug)]
pub struct SubQueryResult {
    pub node_id: String,
    pub results: Vec<QueryResult>,
}

impl View for SubQueryResult {
    type V = SubQueryResultView;

    open spec fn view(&self) -> SubQueryResultView {
        SubQueryResultView {
            node_id: self.node_id@,
            results: self.results@.map_values(|r: QueryResult| r@),
        }
    }
}

/// Mathematical value of a [`MergedResult`].
#[verifier::ext_equal]
pub struct MergedResultView {
    pub memory: QueryResultView,
    pub sources: Seq<Seq<char>>,
    pub max_score: u32,
}

impl MergedResultView {
    /// The merge keeps `max_score` in step with the memory's own score.
    pub open spec fn wf(self) -> bool {
        &&& self.memory.wf()
        &&& valid_score(self.max_score)
        &&& self.memory.score_or() == self.max_score as int
    }
}

/// One entry of the cross-leaf merge: a memory, the leaves that surfaced it,
/// and the best score any leaf gave it.
#[derive(Debug)]
pub struct MergedResult {
    pub memory: QueryResult,
    pub sources: Vec<String>,
    pub max_score: u32,
}

impl View for MergedResult {
    type V = MergedResultView;

    open spec fn view(&self) -> MergedResultView {
        MergedResultView {
            memory: self.memory@,
            sources: self.sources@.map_values(|s: String| s@),
            max_score: self.max_score,
        }
    }
}

impl Clone for MergedResult {
    fn clone(&self) -> (r: Self)
        ensures
            r@ == self@,
    {
        let sources = self.sources.clone();
        proof {
            assert(sources@ =~= self.sources@);
        }
        let r = MergedResult { memory: self.memory.clone(), sources, max_score: self.max_score };
        proof {
            assert(r@ =~= self@);
        }
        r
    }
}

/// One section of a memo file, as the embedding pipeline splits it.
#[derive(Debug)]
pub struct MemoSection {
    pub content: String,
    pub metadata: MemoMetadata,
}

/// Metadata attached to a memo section.
#[derive(Debug)]
pub struct MemoMetadata {
    pub tags: Vec<String>,
}

/// Where a storage backend lives and the vector dimension it serves.
#[derive(Debug)]
pub struct StorageConfig {
    pub path: String,
    pub dimension: usize,
}

/// The three capability kinds a provider registry can resolve.
#[derive(Clone, Copy, PartialEq, Eq, Structural, Debug)]
pub enum ServiceType {
    Embed,
    Rerank,
    Llm,
}

/// The views of a result list, in order.
pub open spec fn views_of(s: Seq<QueryResult>) -> Seq<QueryResultView> {
    s.map_values(|q: QueryResult| q@)
}

/// The ids of a result sequence, in order.
pub open spec fn result_ids(s: Seq<QueryResultView>) -> Seq<Seq<char>> {
    s.map_values(|r: QueryResultView| r.id)
}

/// The ids of a merged sequence, in order.
pub open spec fn merged_ids(s: Seq<MergedResultView>) -> Seq<Seq<char>> {
    s.map_values(|m: MergedResultView| m.memory.id)
}

/// All results of a sequence are well formed.
pub open spec fn wf_results(s: Seq<QueryResultView>) -> bool {
    forall|i: int| 0 <= i < s.len() ==> (#[trigger] s[i]).wf()
}

/// All entries of a merged sequence are well formed.
pub open spec fn wf_merged(s: Seq<MergedResultView>) -> bool {
    forall|i: int| 0 <= i < s.len() ==> (#[trigger] s[i]).wf()
}

} // verus!
