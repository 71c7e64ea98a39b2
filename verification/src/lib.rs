//! Retrieval core of a personal semantic memory store.
//!
//! A user query is decomposed into focused sub-questions by breadth-first
//! LLM calls, every leaf of the resulting tree runs a multi-layer vector
//! expansion against the storage backend, a heuristic decides between
//! cross-encoder reranking and a plain vector sort, and the per-leaf results
//! are merged with a per-leaf fairness floor before an LLM summary is drawn.
//!
//! Everything the pipeline decides or computes is verified here; the
//! network, storage and terminal edges live outside the crate and drive the
//! state machines in these modules with plain values.

pub mod backend;
pub mod config;
pub mod error;
pub mod expand;
pub mod llm;
pub mod merge;
pub mod parse;
pub mod prompt;
pub mod rerank;
pub mod score;
pub mod text;
pub mod time;
pub mod tree;
pub mod types;

pub use score::SCORE_SCALE;
