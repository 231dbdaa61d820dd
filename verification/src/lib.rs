//! Content-dispatch engine: scores configured candidate commands against an
//! input payload with pattern and check-command rules, ranks the candidates,
//! and decides between launching one automatically, asking the user, or
//! doing nothing.

use vstd::prelude::*;

pub mod config;
pub mod data;
pub mod pattern;
pub mod rank;
pub mod score;
pub mod text;

verus! {

/// Default lower threshold for auto-selecting a lone matching candidate.
pub fn default_min_threshold() -> (r: i32)
    ensures
        r == 10,
{
    10
}

/// Default upper threshold governing auto-selection over a runner-up.
pub fn default_max_threshold() -> (r: i32)
    ensures
        r == 100,
{
    100
}

} // verus!
