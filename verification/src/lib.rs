//! Consensus ranking of programming languages from several popularity and
//! performance sources.
//!
//! The crate turns per-source observations (shares, ranks, trends, benchmark
//! timings, throughput runs) into one Schulze-method ranking.  All fractional
//! quantities are carried as integers in millionths of a unit ("micro" fixed
//! point), so every step of the pipeline is exact, deterministic and verified.

pub mod aggregate;
pub mod canon;
pub mod geomean;
pub mod model;
pub mod perf;
pub mod pipeline;
pub mod schulze;
pub mod select;
pub mod sortutil;
pub mod strutil;
pub mod throughput;

use vstd::prelude::*;

verus! {

/// Scale of the fixed-point representation: one unit is `MICRO` millionths.
pub const MICRO: i64 = 1_000_000;

/// The two stages a run goes through, for progress reporting.
#[derive(Clone, Copy, Debug, PartialEq, Eq, Structural)]
pub enum Stage {
    /// Data is being fetched.
    Fetch,
    /// The ranking is being computed.
    Compute,
}

impl Stage {
    /// The 1-based number of the stage.
    pub fn index(self) -> (r: u8)
        ensures
            self is Fetch ==> r == 1,
            self is Compute ==> r == 2,
    {
        match self {
            Stage::Fetch => 1,
            Stage::Compute => 2,
        }
    }

    /// The displayed name of the stage.
    pub fn label(self) -> (r: &'static str)
        ensures
            self is Fetch ==> r@ == "Fetching data"@,
            self is Compute ==> r@ == "Computing"@,
    {
        match self {
            Stage::Fetch => "Fetching data",
            Stage::Compute => "Computing",
        }
    }
}

/// The retry delay, in seconds, before the given attempt: doubling, capped
/// at two to the tenth.
pub open spec fn spec_backoff(attempt: int) -> int {
    crate::geomean::spec_pow2(
        if attempt <= 10 {
            attempt
        } else {
            10
        },
    )
}

/// Computes the retry delay in seconds.
pub fn calculate_backoff(attempt: usize) -> (r: u64)
    ensures
        r as int == spec_backoff(attempt as int),
{
    let e: u64 = if attempt <= 10 {
        attempt as u64
    } else {
        10
    };
    crate::geomean::pow2_exec(e)
}

} // verus!
