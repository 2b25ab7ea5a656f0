use vstd::prelude::*;
use crate::dynamics::{energy_rate, energy_use};
use crate::state::{Current, SCALING_FACTOR};

verus! {

/// `solve` is a time solver: it may be called on every current,
/// displacement and speed, and it answers the same question alike each time.
///
/// A solver is handed the current, a displacement `(dx, dy)` in grid units
/// and a through-water speed in milli-speed; it answers with the number of
/// ticks after which a vehicle that steers against the drift reaches the
/// displacement, or `None` where no such time was found.
pub open spec fn solver_valid<F: Fn(Current, i64, i64, u32) -> Option<u32>>(solve: &F) -> bool {
    &&& forall|c: Current, dx: i64, dy: i64, s: u32| #[trigger] solve.requires((c, dx, dy, s))
    &&& forall|c: Current, dx: i64, dy: i64, s: u32, a: Option<u32>, b: Option<u32>|
        #[trigger] solve.ensures((c, dx, dy, s), a) && #[trigger] solve.ensures((c, dx, dy, s), b)
            ==> a == b
}

/// The duration of a move that starts at `start` and must end by `deadline`,
/// given the duration found for it.
pub open spec fn fit_deadline_spec(start: u32, deadline: u32, solved: Option<u32>) -> Option<u32> {
    match solved {
        Some(t) => if start + t <= deadline {
            Some(t)
        } else {
            None
        },
        None => None,
    }
}

/// Energy, in milli-energy, spent over `ticks` ticks at `speed` milli-speed.
pub open spec fn energy_for(ticks: int, speed: int) -> int {
    ticks * energy_rate(speed) / (SCALING_FACTOR as int)
}

pub proof fn lemma_energy_rate_bound(speed: int)
    requires
        0 <= speed <= u32::MAX,
    ensures
        0 <= energy_rate(speed) <= 6_000_000_000,
{
    assert(125 * speed / 100 <= 5_400_000_000) by (nonlinear_arith)
        requires 0 <= speed <= u32::MAX;
    assert(0 <= 11 * speed / 10 && 0 <= 15 * speed / 10 && 0 <= 125 * speed / 100) by (nonlinear_arith)
        requires 0 <= speed;
}

/// Energy of a move, or of a hold, is never negative and stays far below
/// `u64::MAX / 4`.
pub proof fn lemma_energy_for_bound(ticks: int, speed: int)
    requires
        0 <= ticks <= u32::MAX,
        0 <= speed <= u32::MAX,
    ensures
        0 <= energy_for(ticks, speed) <= 26_000_000_000_000_000,
{
    lemma_energy_rate_bound(speed);
    let e = energy_rate(speed);
    assert(0 <= ticks * e / 1000 <= 26_000_000_000_000_000) by (nonlinear_arith)
        requires 0 <= ticks <= u32::MAX, 0 <= e <= 6_000_000_000;
}

/// No time spent, no energy spent.
pub proof fn lemma_energy_for_zero(speed: int)
    ensures
        energy_for(0, speed) == 0,
{
    assert(0 * energy_rate(speed) == 0);
}

/// Energy grows at most 6 000 000 milli-energy per tick.
pub proof fn lemma_energy_for_linear(ticks: int, speed: int)
    requires
        0 <= ticks <= u32::MAX,
        0 <= speed <= u32::MAX,
    ensures
        0 <= energy_for(ticks, speed) <= 6_000_000 * ticks,
{
    lemma_energy_rate_bound(speed);
    let e = energy_rate(speed);
    assert(0 <= ticks * e / 1000 <= 6_000_000 * ticks) by (nonlinear_arith)
        requires 0 <= ticks, 0 <= e <= 6_000_000_000;
}

/// Energy, in milli-energy, of moving `ticks` ticks at `speed` milli-speed;
/// holding position against the current is moving at the current's speed.
pub fn calc_traversal_power(ticks: u32, speed: u32) -> (r: u64)
    ensures
        r == energy_for(ticks as int, speed as int),
{
    let rate = energy_use(speed);
    proof {
        lemma_energy_rate_bound(speed as int);
        lemma_energy_for_bound(ticks as int, speed as int);
        assert(ticks as int * rate as int <= u32::MAX as int * 6_000_000_000) by (nonlinear_arith)
            requires 0 <= ticks <= u32::MAX, 0 <= rate <= 6_000_000_000;
    }
    let product: u128 = ticks as u128 * rate as u128;
    (product / SCALING_FACTOR as u128) as u64
}

/// Keeps a found duration only where the move still ends by the deadline.
pub fn fit_deadline(start: u32, deadline: u32, solved: Option<u32>) -> (r: Option<u32>)
    ensures
        r == fit_deadline_spec(start, deadline, solved),
{
    match solved {
        Some(t) => if start as u64 + t as u64 <= deadline as u64 {
            Some(t)
        } else {
            None
        },
        None => None,
    }
}

/// Ticks needed to move from cell `from` to cell `to` at through-water speed
/// `speed`, starting at tick `start` and ending by tick `deadline`.
///
/// Staying in the same cell takes no time and needs no solver; a move at
/// speed 0 is never attempted. Otherwise the solver's answer decides, and a
/// move that would end after the deadline is dropped.
pub fn calculate_traversal_time<F: Fn(Current, i64, i64, u32) -> Option<u32>>(
    from: (i32, i32),
    to: (i32, i32),
    start: u32,
    deadline: u32,
    current: Current,
    speed: u32,
    solve: &F,
) -> (r: Option<u32>)
    requires
        solver_valid(solve),
    ensures
        from == to ==> r == fit_deadline_spec(start, deadline, Some(0)),
        from != to && speed == 0 ==> r is None,
        from != to && speed > 0 ==> exists|s: Option<u32>|
            solve.ensures((current, (to.0 - from.0) as i64, (to.1 - from.1) as i64, speed), s)
                && r == fit_deadline_spec(start, deadline, s),
        r matches Some(t) ==> start + t <= deadline,
{
    if from.0 == to.0 && from.1 == to.1 {
        fit_deadline(start, deadline, Some(0))
    } else if speed == 0 {
        None
    } else {
        let dx: i64 = to.0 as i64 - from.0 as i64;
        let dy: i64 = to.1 as i64 - from.1 as i64;
        assert(solve.requires((current, dx, dy, speed)));
        let solved = solve(current, dx, dy, speed);
        fit_deadline(start, deadline, solved)
    }
}

} // verus!
