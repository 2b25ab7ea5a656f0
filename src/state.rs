use vstd::prelude::*;

verus! {

/// Number of fixed-point steps in one physical unit (time, speed, energy).
pub const SCALING_FACTOR: u32 = 1000;

/// Number of intervals into which the speed range `[0, max_speed]` is cut;
/// `NUM_SPEEDS_TO_SEARCH + 1` speeds are tried per move.
pub const NUM_SPEEDS_TO_SEARCH: u32 = 10;

/// A grid cell, relative to the origin.
#[derive(Clone, Copy, Debug, PartialEq, Eq, Hash, PartialOrd, Ord, Structural)]
pub struct Pos(pub i32, pub i32);

/// A grid cell and an elapsed time in ticks.
#[derive(Clone, Copy, Debug, PartialEq, Eq, Hash, PartialOrd, Ord, Structural)]
pub struct PosTime(pub i32, pub i32, pub u32);

/// A grid cell, an elapsed time in ticks and the through-water speed (in
/// milli-speed) with which the cell was reached.
#[derive(Clone, Copy, Debug, PartialEq, Eq, Hash, PartialOrd, Ord, Structural)]
pub struct PosTimeSpeed(pub i32, pub i32, pub u32, pub u32);

/// The ambient drift: a magnitude in milli-speed and a direction in
/// milliradians from north. It is constant over the planning horizon.
#[derive(Clone, Copy, Debug, PartialEq, Eq, Hash, Structural)]
pub struct Current {
    pub magnitude: u32,
    pub direction: i32,
}

/// Why a planning request was refused.
#[derive(Clone, Copy, Debug, PartialEq, Eq, Structural)]
pub enum PlanError {
    /// The largest through-water speed is zero, so no move can be planned.
    NonPositiveMaxSpeed,
}

} // verus!
