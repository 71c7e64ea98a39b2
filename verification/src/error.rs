//! Error taxonomy of the retrieval core.
//!
//! The variants mirror the dispositions the pipeline distinguishes: storage
//! faults are fatal for a request, provider faults degrade per call, an
//! empty root decomposition is surfaced as a structured empty result, and a
//! malformed time filter rejects the request before any search runs.

use vstd::prelude::*;

verus! {

/// What went wrong inside the retrieval pipeline.
#[derive(Clone, Copy, PartialEq, Eq, Structural, Debug)]
pub enum SearchError {
    /// A vector's length did not match the backend's declared dimension.
    DimensionMismatch,
    /// A storage operation failed; fatal for the request.
    StorageUnavailable,
    /// A provider call failed in transport (HTTP error, timeout).
    ProviderTransport,
    /// A provider answered with malformed JSON or XML.
    ProviderProtocol,
    /// The root decomposition yielded no valid sub-questions.
    DecompositionEmpty,
    /// The request was cancelled by the runtime.
    Cancelled,
    /// A time filter was not in `YYYY-MM-DD` or `YYYY-MM-DD HH:MM` form.
    InvalidDateFormat,
    /// A time filter's `after` bound lies past its `before` bound.
    EmptyTimeRange,
}

impl SearchError {
    /// A short description, for the front-end to print.
    pub fn describe(&self) -> (r: &'static str)
        ensures
            r@.len() > 0,
    {
        let r: &'static str = match self {
            SearchError::DimensionMismatch => "vector dimension does not match the index",
            SearchError::StorageUnavailable => "storage backend is unavailable",
            SearchError::ProviderTransport => "provider request failed",
            SearchError::ProviderProtocol => "provider answered with a malformed payload",
            SearchError::DecompositionEmpty => "no valid sub-questions",
            SearchError::Cancelled => "request was cancelled",
            SearchError::InvalidDateFormat => "invalid date format, use YYYY-MM-DD or YYYY-MM-DD HH:MM",
            SearchError::EmptyTimeRange => "empty time range: after lies past before",
        };
        proof {
            reveal_strlit("vector dimension does not match the index");
            reveal_strlit("storage backend is unavailable");
            reveal_strlit("provider request failed");
            reveal_strlit("provider answered with a malformed payload");
            reveal_strlit("no valid sub-questions");
            reveal_strlit("request was cancelled");
            reveal_strlit("invalid date format, use YYYY-MM-DD or YYYY-MM-DD HH:MM");
            reveal_strlit("empty time range: after lies past before");
        }
        r
    }
}

} // verus!
