use vstd::prelude::*;

verus! {

/// Energy rate, in milli-energy per time unit, of moving through the water at
/// `speed` milli-speed: idle up to 0.1, then three linear pieces with cutoffs
/// at 2.5 and 7.5 (rates 1.1 s + 1, 1.5 s + 1 and 1.25 s + 3 in whole units).
pub open spec fn energy_rate(speed: int) -> int {
    if speed <= 100 {
        0
    } else if speed <= 2500 {
        11 * speed / 10 + 1000
    } else if speed <= 7500 {
        15 * speed / 10 + 1000
    } else {
        125 * speed / 100 + 3000
    }
}

/// Energy rate of the through-water speed `speed` (milli-speed), in
/// milli-energy per time unit. A negative speed cannot be expressed.
pub fn energy_use(speed: u32) -> (r: u64)
    ensures
        r == energy_rate(speed as int),
{
    let s = speed as u64;
    if s <= 100 {
        0
    } else if s <= 2500 {
        11 * s / 10 + 1000
    } else if s <= 7500 {
        15 * s / 10 + 1000
    } else {
        125 * s / 100 + 3000
    }
}

/// The energy rate never decreases as the speed grows.
pub proof fn lemma_energy_rate_monotonic(a: int, b: int)
    requires
        0 <= a <= b,
    ensures
        energy_rate(a) <= energy_rate(b),
{
    assert(11 * a / 10 <= 11 * b / 10) by (nonlinear_arith)
        requires a <= b;
    assert(15 * a / 10 <= 15 * b / 10) by (nonlinear_arith)
        requires a <= b;
    assert(125 * a / 100 <= 125 * b / 100) by (nonlinear_arith)
        requires a <= b;
    assert(11 * b / 10 <= 15 * b / 10) by (nonlinear_arith)
        requires b >= 0;
}

/// Standing still costs nothing.
pub proof fn lemma_energy_rate_zero()
    ensures
        energy_rate(0) == 0,
{
}

} // verus!
