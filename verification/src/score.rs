//! Fixed-point similarity scores.
//!
//! Similarity and rerank scores live in the unit interval.  The core keeps
//! them as integers in ten-thousandths, so a score of `3500` stands for a
//! similarity of 0.35 and `SCORE_SCALE` stands for 1.0.  The storage and
//! provider edges convert their floating-point scores to this form before
//! handing results to the core.

use vstd::prelude::*;

verus! {

/// The fixed-point value that stands for a similarity of 1.0.
pub const SCORE_SCALE: u32 = 10000;

/// A score is valid when it does not exceed the unit interval.
pub open spec fn valid_score(s: u32) -> bool {
    s <= SCORE_SCALE
}

/// The score of an optional score, with a missing score counting as zero.
pub open spec fn score_or_zero(s: Option<u32>) -> int {
    match s {
        Some(v) => v as int,
        None => 0,
    }
}

/// Exec twin of [`score_or_zero`].
pub fn score_value(s: &Option<u32>) -> (r: u32)
    ensures
        r as int == score_or_zero(*s),
{
    match s {
        Some(v) => *v,
        None => 0,
    }
}

} // verus!
