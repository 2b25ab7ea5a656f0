//! Route planning, seeking the least energy, for a vehicle moving through a
//! fluid with a constant drift.
//!
//! All physical quantities are carried in fixed point: a time, a speed, a
//! direction, an energy rate or an energy are integers counting thousandths
//! of their unit (ticks, milli-speed, milliradians, milli-energy).
//!
//! The time a move takes comes from a solver that the caller supplies: a
//! function from the current, a displacement and a through-water speed to a
//! number of ticks. Everything built on its answers is verified here.
//!
//! - `dynamics`: the energy rate of a through-water speed.
//! - `kinematics`: durations of moves against a deadline, and their energy.
//! - `planning`: the time-aware planner (cell and elapsed time).
//! - `variable_speed`: the planner whose states also carry the chosen speed.
//! - `constant_speed`: fastest routes at one speed, and the bisection that
//!   calibrates that speed to a desired arrival time.
//! - `fixed_speed`: routes at one speed, guided by straight-line time; the
//!   fastest wherever that time never overestimates.
//! - `search`: sums of costs and paths along edges, shared by the searches.
pub mod constant_speed;
pub mod dynamics;
pub mod fixed_speed;
pub mod kinematics;
pub mod planning;
pub mod search;
pub mod state;
pub mod variable_speed;
