//! Per-tick switches of the pipeline.
use vstd::prelude::*;
use crate::ordinal::{is_zero, magnitude};

verus! {

/// How contacts are found.
#[derive(Clone, Copy, Debug, PartialEq, Eq, Structural)]
pub enum CollisionDetection {
    /// Overlap at the current poses only.
    Static,
    /// Time of impact within the tick, for fast bodies.
    Dynamic,
}

/// What the host draws for debugging.
#[derive(Clone, Copy, Debug, PartialEq, Eq, Structural)]
pub enum DebugMode {
    Off,
    Bounds,
}

/// The solver's default number of iterations per tick.
pub const DEFAULT_CONSTRAIN_MAX_ITER: usize = 5;

/// The tick runs when the pipeline is enabled and time is not stopped: a
/// time dilation (a single-precision pattern) of zero of either sign skips
/// the whole tick.
pub open spec fn runs(enabled: bool, time_dilation: u32) -> bool {
    enabled && magnitude(time_dilation) != 0
}

/// Whether this tick runs at all.
pub fn run_physics(enabled: bool, time_dilation: u32) -> (r: bool)
    ensures
        r == runs(enabled, time_dilation),
{
    enabled && !is_zero(time_dilation)
}

/// Whether the static narrowphase runs this tick.
pub fn run_static(mode: CollisionDetection) -> (r: bool)
    ensures
        r == (mode == CollisionDetection::Static),
{
    mode == CollisionDetection::Static
}

/// Whether the continuous narrowphase runs this tick.
pub fn run_dynamic(mode: CollisionDetection) -> (r: bool)
    ensures
        r == (mode == CollisionDetection::Dynamic),
{
    mode == CollisionDetection::Dynamic
}

} // verus!
