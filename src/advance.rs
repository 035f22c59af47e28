//! Conservative advancement: the decisions of the time-of-impact loop for
//! two moving convex bodies. The host measures (intersection, closing speed,
//! time to close the gap) and moves the bodies; each measurement goes through
//! `Advancement::step`, which says what to do next.
use vstd::prelude::*;
use crate::ordinal::{f32_le, f32_le_spec, f32_lt, f32_lt_spec, ZERO};

verus! {

/// The most times the bodies are moved forward for one pair in one tick.
pub const MAX_ADVANCE_ITERS: u32 = 10;

/// What the host does after a step.
#[derive(Clone, Copy, Debug, PartialEq, Eq, Structural)]
pub enum AdvanceStep {
    /// The bodies touch now: report a contact at the time advanced so far.
    Hit,
    /// They do not meet within this tick.
    Miss,
    /// Move both bodies forward by the time to go, then measure again.
    Advance,
}

/// The loop's state: how often the bodies were moved forward.
#[derive(Clone, Copy, Debug)]
pub struct Advancement {
    pub iterations: u32,
}

/// The decision for one measurement, after `iterations` advances: with no
/// time left, a miss; touching, a hit; not closing, or closing too slowly to
/// meet in the time left, a miss; otherwise an advance, unless the budget of
/// advances is spent. `remaining`, `closing_speed` and `time_to_go` are
/// single-precision patterns, compared as the numbers they encode.
pub open spec fn advance_decision(
    iterations: u32,
    remaining: u32,
    touching: bool,
    closing_speed: u32,
    time_to_go: u32,
) -> AdvanceStep {
    if !f32_lt_spec(ZERO, remaining) {
        AdvanceStep::Miss
    } else if touching {
        AdvanceStep::Hit
    } else if f32_le_spec(closing_speed, ZERO) {
        AdvanceStep::Miss
    } else if f32_lt_spec(remaining, time_to_go) {
        AdvanceStep::Miss
    } else if iterations >= MAX_ADVANCE_ITERS {
        AdvanceStep::Miss
    } else {
        AdvanceStep::Advance
    }
}

impl Advancement {
    pub open spec fn wf(&self) -> bool {
        self.iterations <= MAX_ADVANCE_ITERS
    }

    /// A loop that has not advanced yet.
    pub fn new() -> (r: Advancement)
        ensures
            r.iterations == 0,
            r.wf(),
    {
        Advancement { iterations: 0 }
    }

    /// Takes one measurement: `remaining` is the time left in the tick,
    /// `touching` whether the shapes intersect at the current poses, and,
    /// when they do not, `closing_speed` their approach speed along the
    /// separating axis and `time_to_go` the gap divided by that speed.
    pub fn step(&mut self, remaining: u32, touching: bool, closing_speed: u32, time_to_go: u32) -> (r: AdvanceStep)
        requires
            old(self).wf(),
        ensures
            r == advance_decision(old(self).iterations, remaining, touching, closing_speed, time_to_go),
            r == AdvanceStep::Advance ==> final(self).iterations == old(self).iterations + 1,
            r != AdvanceStep::Advance ==> final(self).iterations == old(self).iterations,
            final(self).wf(),
    {
        if !f32_lt(ZERO, remaining) {
            AdvanceStep::Miss
        } else if touching {
            AdvanceStep::Hit
        } else if f32_le(closing_speed, ZERO) {
            AdvanceStep::Miss
        } else if f32_lt(remaining, time_to_go) {
            AdvanceStep::Miss
        } else if self.iterations >= MAX_ADVANCE_ITERS {
            AdvanceStep::Miss
        } else {
            self.iterations = self.iterations + 1;
            AdvanceStep::Advance
        }
    }
}

} // verus!
