//! Behavioral risk scoring for LLM conversation transcripts: detects
//! prompt-injection and policy-bypass attempts that unfold across turns.

pub mod categories;
pub mod entropy;
pub mod multistep;
pub mod normalization;
pub mod scanner;
pub mod scoring;
pub mod text;

use vstd::prelude::*;

verus! {

/// Clamp helper used by the scorers: minimum of an integer and a cap.
pub open spec fn min_int(a: int, b: int) -> int {
    if a <= b {
        a
    } else {
        b
    }
}

} // verus!
