//! Configuration surface consumed by the retrieval core.
//!
//! Thresholds are fixed-point scores in ten-thousandths, so the default
//! first-layer threshold of 0.35 is kept as `3500`.  Loading these values
//! from a TOML file is the front-end's business; the core only sees the
//! resolved numbers.

use vstd::prelude::*;

use crate::score::{valid_score, SCORE_SCALE};

verus! {

/// Default breadth-first decomposition depth cap.
pub fn default_max_level() -> (r: usize)
    ensures
        r == 3,
{
    3
}

/// Default cap on the number of leaves of a decomposition tree.
pub fn default_max_total_leaves() -> (r: usize)
    ensures
        r == 12,
{
    12
}

/// Default cap on the children one decomposition call may add.
pub fn default_max_children() -> (r: usize)
    ensures
        r == 4,
{
    4
}

/// Default candidate budget handed to each leaf's expansion.
pub fn default_candidates_per_query() -> (r: usize)
    ensures
        r == 50,
{
    50
}

/// Default number of results kept per leaf after ranking.
pub fn default_top_n_per_leaf() -> (r: usize)
    ensures
        r == 5,
{
    5
}

/// Default per-leaf fairness floor of the cross-leaf merge.
pub fn default_min_per_leaf() -> (r: usize)
    ensures
        r == 3,
{
    3
}

/// Default cap on the merged result list.
pub fn default_max_total_results() -> (r: usize)
    ensures
        r == 20,
{
    20
}

/// Default user-visible result cap.
pub fn default_search_limit() -> (r: usize)
    ensures
        r == 10,
{
    10
}

/// Default first-layer similarity threshold (0.35).
pub fn default_similarity_threshold() -> (r: u32)
    ensures
        r == 3500,
{
    3500
}

/// Default content-level duplicate-detection threshold (0.98), reserved for
/// future dedup of near-identical memories.
pub fn default_dedup_threshold() -> (r: u32)
    ensures
        r == 9800,
{
    9800
}

/// Caps of the breadth-first query decomposition.
#[derive(Clone, Copy, Debug)]
pub struct DecompositionConfig {
    pub max_level: usize,
    pub max_total_leaves: usize,
    pub max_children: usize,
}

impl Default for DecompositionConfig {
    fn default() -> (r: Self)
        ensures
            r.max_level == 3,
            r.max_total_leaves == 12,
            r.max_children == 4,
    {
        DecompositionConfig {
            max_level: default_max_level(),
            max_total_leaves: default_max_total_leaves(),
            max_children: default_max_children(),
        }
    }
}

/// Knobs of the multi-query search: per-leaf budgets and the merge caps.
#[derive(Clone, Copy, Debug)]
pub struct MultiQueryConfig {
    pub candidates_per_query: usize,
    pub top_n_per_leaf: usize,
    pub min_per_leaf: usize,
    pub max_total_results: usize,
    pub dedup_threshold: u32,
}

impl MultiQueryConfig {
    pub open spec fn wf(self) -> bool {
        valid_score(self.dedup_threshold)
    }
}

impl Default for MultiQueryConfig {
    fn default() -> (r: Self)
        ensures
            r.candidates_per_query == 50,
            r.top_n_per_leaf == 5,
            r.min_per_leaf == 3,
            r.max_total_results == 20,
            r.dedup_threshold == 9800,
            r.wf(),
    {
        MultiQueryConfig {
            candidates_per_query: default_candidates_per_query(),
            top_n_per_leaf: default_top_n_per_leaf(),
            min_per_leaf: default_min_per_leaf(),
            max_total_results: default_max_total_results(),
            dedup_threshold: default_dedup_threshold(),
        }
    }
}

/// Everything of the configuration that the retrieval core consumes.
#[derive(Clone, Copy, Debug)]
pub struct RetrievalConfig {
    pub search_limit: usize,
    pub similarity_threshold: u32,
    pub decomposition: DecompositionConfig,
    pub multi_query: MultiQueryConfig,
}

impl RetrievalConfig {
    pub open spec fn wf(self) -> bool {
        &&& valid_score(self.similarity_threshold)
        &&& self.multi_query.wf()
    }
}

impl Default for RetrievalConfig {
    fn default() -> (r: Self)
        ensures
            r.search_limit == 10,
            r.similarity_threshold == 3500,
            r.decomposition.max_level == 3,
            r.decomposition.max_total_leaves == 12,
            r.decomposition.max_children == 4,
            r.multi_query.candidates_per_query == 50,
            r.multi_query.top_n_per_leaf == 5,
            r.multi_query.min_per_leaf == 3,
            r.multi_query.max_total_results == 20,
            r.wf(),
    {
        let r = RetrievalConfig {
            search_limit: default_search_limit(),
            similarity_threshold: default_similarity_threshold(),
            decomposition: DecompositionConfig::default(),
            multi_query: MultiQueryConfig::default(),
        };
        proof {
            assert(r.similarity_threshold <= SCORE_SCALE);
        }
        r
    }
}

/// Which configuration scope a request runs under.
#[derive(Clone, Copy, PartialEq, Eq, Structural, Debug)]
pub enum ConfigScope {
    Auto,
    Local,
    Global,
}

impl ConfigScope {
    /// Resolve the two command-line flags into a scope.  Asking for both the
    /// local and the global scope at once is contradictory and yields `None`.
    pub fn from_flags(force_local: bool, force_global: bool) -> (r: Option<ConfigScope>)
        ensures
            force_local && force_global ==> r is None,
            force_local && !force_global ==> r == Some(ConfigScope::Local),
            !force_local && force_global ==> r == Some(ConfigScope::Global),
            !force_local && !force_global ==> r == Some(ConfigScope::Auto),
    {
        if force_local && force_global {
            None
        } else if force_local {
            Some(ConfigScope::Local)
        } else if force_global {
            Some(ConfigScope::Global)
        } else {
            Some(ConfigScope::Auto)
        }
    }
}

} // verus!
