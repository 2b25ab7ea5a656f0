use vstd::prelude::*;
use crate::kinematics::{
    calc_traversal_power, energy_for, fit_deadline, fit_deadline_spec, lemma_energy_for_bound,
    lemma_energy_for_linear, lemma_energy_for_zero, solver_valid,
};
use crate::search::{edges_in, total};
use crate::state::{Current, PlanError, PosTime, NUM_SPEEDS_TO_SEARCH};

verus! {

/// Cells farther than this from the origin along either axis are not
/// expanded. This bounds the search where the goal cannot be reached; it is a
/// safety valve, not part of what makes a path correct.
pub const SEARCH_DIST_CUTOFF: i32 = 1000;

/// Number of moves tried from a cell: eight neighbours times eleven speeds.
pub const NUM_MOVES: usize = 88;

/// Heuristic value of a state from which the goal cannot be reached in time.
/// It exceeds every other heuristic value, and the energy of any path, which
/// is at most the goal time times the largest rate and stays below `2^55`.
pub const UNREACHABLE_COST: u64 = 4_611_686_018_427_387_904;

/// The offset of the `k`-th neighbour: E, W, N, S, NE, SE, NW, SW.
pub open spec fn neighbor_offset_spec(k: int) -> (int, int) {
    if k == 0 {
        (1, 0)
    } else if k == 1 {
        (-1, 0)
    } else if k == 2 {
        (0, 1)
    } else if k == 3 {
        (0, -1)
    } else if k == 4 {
        (1, 1)
    } else if k == 5 {
        (1, -1)
    } else if k == 6 {
        (-1, 1)
    } else {
        (-1, -1)
    }
}

/// The `i`-th of the speeds evenly spread over `[0, max_speed]`.
pub open spec fn speed_at(max_speed: u32, i: int) -> int {
    i * max_speed / (NUM_SPEEDS_TO_SEARCH as int)
}

/// The neighbour offset of move `j`.
pub open spec fn move_offset(j: int) -> (int, int) {
    neighbor_offset_spec(j / 11)
}

/// The through-water speed of move `j`.
pub open spec fn move_speed(max_speed: u32, j: int) -> int {
    speed_at(max_speed, j % 11)
}

/// `table` holds, for each move, what the solver answered for it; a move at
/// speed 0 is never handed to the solver and has no answer.
pub open spec fn solver_table<F: Fn(Current, i64, i64, u32) -> Option<u32>>(
    solve: &F,
    current: Current,
    max_speed: u32,
    table: Seq<Option<u32>>,
) -> bool {
    &&& table.len() == NUM_MOVES
    &&& forall|j: int|
        0 <= j < NUM_MOVES ==> if move_speed(max_speed, j) == 0 {
            #[trigger] table[j] is None
        } else {
            solve.ensures(
                (current, move_offset(j).0 as i64, move_offset(j).1 as i64, move_speed(max_speed, j) as u32),
                table[j],
            )
        }
}

/// `b` is a state that may follow `a` on the way to `goal`: either a hold at
/// the goal cell until the goal time, or a move to one of the eight
/// neighbours that takes no negative time and ends by the goal time.
pub open spec fn step_ok(a: PosTime, b: PosTime, goal: PosTime) -> bool {
    ||| (a.0 == goal.0 && a.1 == goal.1 && a.2 < goal.2 && b == goal)
    ||| (-1 <= b.0 - a.0 <= 1 && -1 <= b.1 - a.1 <= 1 && (a.0 != b.0 || a.1 != b.1) && a.2 <= b.2
        <= goal.2)
}

/// The successor produced by move `j` from `p`, if the move ends in time.
pub open spec fn move_entry(
    p: PosTime,
    goal: PosTime,
    max_speed: u32,
    table: Seq<Option<u32>>,
    j: int,
) -> Seq<(PosTime, u64)> {
    match fit_deadline_spec(p.2, goal.2, table[j]) {
        Some(t) => seq![
            (
                PosTime((p.0 + move_offset(j).0) as i32, (p.1 + move_offset(j).1) as i32, (p.2 + t) as u32),
                energy_for(t as int, move_speed(max_speed, j)) as u64,
            ),
        ],
        None => seq![],
    }
}

/// The successors produced by the first `n` moves from `p`, in move order.
pub open spec fn move_successors(
    p: PosTime,
    goal: PosTime,
    max_speed: u32,
    table: Seq<Option<u32>>,
    n: nat,
) -> Seq<(PosTime, u64)>
    decreases n,
{
    if n == 0 {
        seq![]
    } else {
        move_successors(p, goal, max_speed, table, (n - 1) as nat) + move_entry(
            p,
            goal,
            max_speed,
            table,
            n - 1,
        )
    }
}

/// `p` lies outside the searched square.
pub open spec fn beyond_cutoff(p: PosTime) -> bool {
    p.0 > SEARCH_DIST_CUTOFF || p.0 < -SEARCH_DIST_CUTOFF || p.1 > SEARCH_DIST_CUTOFF || p.1
        < -SEARCH_DIST_CUTOFF
}

/// The successors of `p` with their energy costs: at the goal cell before the
/// goal time, only the hold until the goal time; beyond the cutoff, none;
/// otherwise every move, in move order, that the solver found and that ends
/// by the goal time.
pub open spec fn successors_spec(
    p: PosTime,
    goal: PosTime,
    current: Current,
    max_speed: u32,
    table: Seq<Option<u32>>,
) -> Seq<(PosTime, u64)> {
    if p.0 == goal.0 && p.1 == goal.1 && p.2 < goal.2 {
        seq![(goal, energy_for(goal.2 - p.2, current.magnitude as int) as u64)]
    } else if beyond_cutoff(p) {
        seq![]
    } else {
        move_successors(p, goal, max_speed, table, NUM_MOVES as nat)
    }
}

proof fn lemma_move_successors_step_ok(
    p: PosTime,
    goal: PosTime,
    max_speed: u32,
    table: Seq<Option<u32>>,
    n: nat,
)
    requires
        n <= NUM_MOVES,
        table.len() == NUM_MOVES,
        !beyond_cutoff(p),
    ensures
        forall|i: int|
            0 <= i < move_successors(p, goal, max_speed, table, n).len() ==> step_ok(
                p,
                (#[trigger] move_successors(p, goal, max_speed, table, n)[i]).0,
                goal,
            ),
        forall|i: int|
            0 <= i < move_successors(p, goal, max_speed, table, n).len() ==> (
            #[trigger] move_successors(p, goal, max_speed, table, n)[i]).1 <= 6_000_000 * (
            move_successors(p, goal, max_speed, table, n)[i].0.2 - p.2),
    decreases n,
{
    if n > 0 {
        lemma_move_successors_step_ok(p, goal, max_speed, table, (n - 1) as nat);
        let j = n - 1;
        assert(0 <= j / 11 < 8);
        let prev = move_successors(p, goal, max_speed, table, (n - 1) as nat);
        let e = move_entry(p, goal, max_speed, table, j);
        assert forall|i: int| 0 <= i < e.len() implies step_ok(p, (#[trigger] e[i]).0, goal)
            && e[i].1 <= 6_000_000 * (e[i].0.2 - p.2) by {
            let o = move_offset(j);
            assert(-1 <= o.0 <= 1 && -1 <= o.1 <= 1 && (o.0 != 0 || o.1 != 0));
            if let Some(t) = fit_deadline_spec(p.2, goal.2, table[j]) {
                assert(0 <= j % 11 <= 10);
                assert(0 <= move_speed(max_speed, j) <= u32::MAX) by (nonlinear_arith)
                    requires 0 <= j % 11 <= 10, move_speed(max_speed, j) == (j % 11) * max_speed / 10,
                        0 <= max_speed <= u32::MAX;
                lemma_energy_for_linear(t as int, move_speed(max_speed, j));
                lemma_energy_for_bound(t as int, move_speed(max_speed, j));
            }
        }
        assert forall|i: int| 0 <= i < prev.len() + e.len() implies step_ok(
            p,
            (#[trigger] (prev + e)[i]).0,
            goal,
        ) && (prev + e)[i].1 <= 6_000_000 * ((prev + e)[i].0.2 - p.2) by {
            if i >= prev.len() {
                assert((prev + e)[i] == e[i - prev.len()]);
            } else {
                assert((prev + e)[i] == prev[i]);
            }
        }
    }
}

/// Every successor is a legal step from `p`; in particular no successor's
/// elapsed time exceeds the goal time.
pub proof fn lemma_successors_step_ok(
    p: PosTime,
    goal: PosTime,
    current: Current,
    max_speed: u32,
    table: Seq<Option<u32>>,
)
    requires
        table.len() == NUM_MOVES,
    ensures
        forall|i: int|
            0 <= i < successors_spec(p, goal, current, max_speed, table).len() ==> step_ok(
                p,
                (#[trigger] successors_spec(p, goal, current, max_speed, table)[i]).0,
                goal,
            ),
        forall|i: int|
            0 <= i < successors_spec(p, goal, current, max_speed, table).len() ==> (
            #[trigger] successors_spec(p, goal, current, max_speed, table)[i]).0.2 <= goal.2,
        forall|i: int|
            0 <= i < successors_spec(p, goal, current, max_speed, table).len() ==> (
            #[trigger] successors_spec(p, goal, current, max_speed, table)[i]).1 <= 6_000_000 * (
            successors_spec(p, goal, current, max_speed, table)[i].0.2 - p.2),
{
    if p.0 == goal.0 && p.1 == goal.1 && p.2 < goal.2 {
        lemma_energy_for_linear(goal.2 - p.2, current.magnitude as int);
        lemma_energy_for_bound(goal.2 - p.2, current.magnitude as int);
    }
    if !(p.0 == goal.0 && p.1 == goal.1 && p.2 < goal.2) && !beyond_cutoff(p) {
        lemma_move_successors_step_ok(p, goal, max_speed, table, NUM_MOVES as nat);
    }
}

/// The offset of the `k`-th neighbour.
pub(crate) fn neighbor_offset(k: usize) -> (r: (i32, i32))
    requires
        k < 8,
    ensures
        r.0 == neighbor_offset_spec(k as int).0,
        r.1 == neighbor_offset_spec(k as int).1,
{
    if k == 0 {
        (1, 0)
    } else if k == 1 {
        (-1, 0)
    } else if k == 2 {
        (0, 1)
    } else if k == 3 {
        (0, -1)
    } else if k == 4 {
        (1, 1)
    } else if k == 5 {
        (1, -1)
    } else if k == 6 {
        (-1, 1)
    } else {
        (-1, -1)
    }
}

/// The `i`-th of the speeds evenly spread over `[0, max_speed]`.
pub(crate) fn speed_of(max_speed: u32, i: usize) -> (r: u32)
    requires
        i <= NUM_SPEEDS_TO_SEARCH,
    ensures
        r == speed_at(max_speed, i as int),
        r <= max_speed,
{
    assert(i as int * max_speed as int <= 10 * max_speed as int) by (nonlinear_arith)
        requires i <= 10, max_speed >= 0;
    assert(i as int * max_speed as int / 10 <= max_speed as int) by (nonlinear_arith)
        requires i as int * max_speed as int <= 10 * max_speed as int, max_speed >= 0;
    (i as u64 * max_speed as u64 / NUM_SPEEDS_TO_SEARCH as u64) as u32
}

/// Asks the solver once for every move; the answers do not depend on the
/// cell a move starts from, so one table serves a whole search.
pub fn solve_moves<F: Fn(Current, i64, i64, u32) -> Option<u32>>(
    current: Current,
    max_speed: u32,
    solve: &F,
) -> (r: Vec<Option<u32>>)
    requires
        solver_valid(solve),
    ensures
        solver_table(solve, current, max_speed, r@),
{
    let mut table: Vec<Option<u32>> = Vec::new();
    let mut j: usize = 0;
    while j < NUM_MOVES
        invariant
            j <= NUM_MOVES,
            table@.len() == j,
            solver_valid(solve),
            forall|m: int|
                0 <= m < j ==> if move_speed(max_speed, m) == 0 {
                    #[trigger] table@[m] is None
                } else {
                    solve.ensures(
                        (
                            current,
                            move_offset(m).0 as i64,
                            move_offset(m).1 as i64,
                            move_speed(max_speed, m) as u32,
                        ),
                        table@[m],
                    )
                },
        decreases NUM_MOVES - j,
    {
        let offset = neighbor_offset(j / 11);
        let speed = speed_of(max_speed, j % 11);
        if speed == 0 {
            table.push(None);
        } else {
            assert(solve.requires((current, offset.0 as i64, offset.1 as i64, speed)));
            let answer = solve(current, offset.0 as i64, offset.1 as i64, speed);
            table.push(answer);
        }
        j += 1;
    }
    table
}

/// The successors of `p`, with their energy costs, given the solver's answer
/// for every move.
pub fn successors_from_table(
    p: &PosTime,
    goal: &PosTime,
    current: &Current,
    max_speed: u32,
    table: &Vec<Option<u32>>,
) -> (r: Vec<(PosTime, u64)>)
    requires
        table@.len() == NUM_MOVES,
    ensures
        r@ == successors_spec(*p, *goal, *current, max_speed, table@),
        forall|i: int| 0 <= i < r@.len() ==> step_ok(*p, (#[trigger] r@[i]).0, *goal),
        forall|i: int| 0 <= i < r@.len() ==> (#[trigger] r@[i]).0.2 <= goal.2,
{
    proof {
        lemma_successors_step_ok(*p, *goal, *current, max_speed, table@);
    }
    if p.0 == goal.0 && p.1 == goal.1 && p.2 < goal.2 {
        let cost = calc_traversal_power(goal.2 - p.2, current.magnitude);
        return vec![(*goal, cost)];
    }
    if p.0 > SEARCH_DIST_CUTOFF || p.0 < -SEARCH_DIST_CUTOFF || p.1 > SEARCH_DIST_CUTOFF || p.1
        < -SEARCH_DIST_CUTOFF {
        return Vec::new();
    }
    let mut out: Vec<(PosTime, u64)> = Vec::new();
    let mut j: usize = 0;
    while j < NUM_MOVES
        invariant
            j <= NUM_MOVES,
            table@.len() == NUM_MOVES,
            !beyond_cutoff(*p),
            out@ == move_successors(*p, *goal, max_speed, table@, j as nat),
        decreases NUM_MOVES - j,
    {
        let offset = neighbor_offset(j / 11);
        let speed = speed_of(max_speed, j % 11);
        let fitted = fit_deadline(p.2, goal.2, table[j]);
        let ghost before = out@;
        match fitted {
            Some(t) => {
                let cost = calc_traversal_power(t, speed);
                out.push((PosTime(p.0 + offset.0, p.1 + offset.1, p.2 + t), cost));
            },
            None => {},
        }
        assert(out@ == before + move_entry(*p, *goal, max_speed, table@, j as int));
        j += 1;
    }
    out
}

/// The successors of `p`, with their energy costs: the hold at the goal cell
/// until the goal time, or every move to a neighbour, at each of the speeds
/// spread over `[0, max_speed]`, that the solver found and that ends by the
/// goal time.
pub fn find_successors<F: Fn(Current, i64, i64, u32) -> Option<u32>>(
    p: &PosTime,
    goal: &PosTime,
    current: &Current,
    max_speed: u32,
    solve: &F,
) -> (r: Vec<(PosTime, u64)>)
    requires
        solver_valid(solve),
    ensures
        exists|table: Seq<Option<u32>>|
            solver_table(solve, *current, max_speed, table) && r@ == successors_spec(
                *p,
                *goal,
                *current,
                max_speed,
                table,
            ),
        forall|i: int| 0 <= i < r@.len() ==> step_ok(*p, (#[trigger] r@[i]).0, *goal),
        forall|i: int| 0 <= i < r@.len() ==> (#[trigger] r@[i]).0.2 <= goal.2,
{
    let table = solve_moves(*current, max_speed, solve);
    successors_from_table(p, goal, current, max_speed, &table)
}

/// The heuristic value of `p`, given the time found for the straight move to
/// the goal cell at `max_speed`: the energy of that move plus that of holding
/// at the goal cell until the goal time, or `UNREACHABLE_COST` where no time
/// was found or the move would end after the goal time.
pub open spec fn heuristic_spec(
    p: PosTime,
    goal: PosTime,
    current: Current,
    max_speed: u32,
    solved: Option<u32>,
) -> u64 {
    match fit_deadline_spec(p.2, goal.2, solved) {
        Some(t) => (energy_for(t as int, max_speed as int) + energy_for(
            goal.2 - p.2 - t,
            current.magnitude as int,
        )) as u64,
        None => UNREACHABLE_COST,
    }
}

/// The heuristic value of `p`, given the time found for the straight move to
/// the goal cell at `max_speed`.
pub fn heuristic_from(
    p: &PosTime,
    goal: &PosTime,
    current: &Current,
    max_speed: u32,
    solved: Option<u32>,
) -> (r: u64)
    ensures
        r == heuristic_spec(*p, *goal, *current, max_speed, solved),
        r <= UNREACHABLE_COST,
        fit_deadline_spec(p.2, goal.2, solved) is Some ==> r < UNREACHABLE_COST,
{
    match fit_deadline(p.2, goal.2, solved) {
        Some(t) => {
            let travel = calc_traversal_power(t, max_speed);
            let hold = calc_traversal_power(goal.2 - p.2 - t, current.magnitude);
            proof {
                lemma_energy_for_bound(t as int, max_speed as int);
                lemma_energy_for_bound(goal.2 - p.2 - t, current.magnitude as int);
            }
            travel + hold
        },
        None => UNREACHABLE_COST,
    }
}

/// Estimated energy still needed from `p`: the straight move to the goal cell
/// at `max_speed`, then the hold until the goal time. The goal cell itself
/// needs no solver; from elsewhere a speed of 0 reaches nothing.
pub fn calc_power_hueristic<F: Fn(Current, i64, i64, u32) -> Option<u32>>(
    p: &PosTime,
    goal: &PosTime,
    current: &Current,
    max_speed: u32,
    solve: &F,
) -> (r: u64)
    requires
        solver_valid(solve),
    ensures
        p.0 == goal.0 && p.1 == goal.1 ==> r == heuristic_spec(
            *p,
            *goal,
            *current,
            max_speed,
            Some(0),
        ),
        (p.0 != goal.0 || p.1 != goal.1) && max_speed == 0 ==> r == UNREACHABLE_COST,
        (p.0 != goal.0 || p.1 != goal.1) && max_speed > 0 ==> exists|s: Option<u32>|
            solve.ensures((*current, (goal.0 - p.0) as i64, (goal.1 - p.1) as i64, max_speed), s)
                && r == heuristic_spec(*p, *goal, *current, max_speed, s),
        *p == *goal ==> r == 0,
        r <= UNREACHABLE_COST,
        heuristic_may_give(solve, *p, *goal, *current, max_speed, r),
{
    let solved = if p.0 == goal.0 && p.1 == goal.1 {
        Some(0)
    } else if max_speed == 0 {
        None
    } else {
        let dx: i64 = goal.0 as i64 - p.0 as i64;
        let dy: i64 = goal.1 as i64 - p.1 as i64;
        assert(solve.requires((*current, dx, dy, max_speed)));
        solve(*current, dx, dy, max_speed)
    };
    proof {
        lemma_heuristic_zero_at_goal(*goal, *current, max_speed);
    }
    heuristic_from(p, goal, current, max_speed, solved)
}

/// The heuristic is 0 at the goal state, whatever the current and speed.
pub proof fn lemma_heuristic_zero_at_goal(goal: PosTime, current: Current, max_speed: u32)
    ensures
        heuristic_spec(goal, goal, current, max_speed, Some(0)) == 0,
{
    lemma_energy_for_zero(max_speed as int);
    lemma_energy_for_zero(current.magnitude as int);
}

/// `p` is the goal state: the goal cell at exactly the goal time.
pub fn at_goal(p: &PosTime, goal: &PosTime) -> (r: bool)
    ensures
        r == (*p == *goal),
{
    p.0 == goal.0 && p.1 == goal.1 && p.2 == goal.2
}

/// `path` is a plan for `goal`: it leaves the origin at time 0, ends at the
/// goal state, and each state is a legal step from the one before it.
pub open spec fn plan_ok(path: Seq<PosTime>, goal: PosTime) -> bool {
    &&& path.len() >= 1
    &&& path[0] == PosTime(0, 0, 0)
    &&& path.last() == goal
    &&& forall|i: int| 0 <= i < path.len() - 1 ==> #[trigger] step_ok(path[i], path[i + 1], goal)
}

/// The planner's edges: each state with its successors and their costs.
pub open spec fn plan_rel(
    goal: PosTime,
    current: Current,
    max_speed: u32,
    table: Seq<Option<u32>>,
) -> spec_fn(PosTime) -> Seq<(PosTime, u64)> {
    |p: PosTime| successors_spec(p, goal, current, max_speed, table)
}

/// `path` leaves the origin at time 0, ends at the goal state, and follows
/// the planner's edges, the `i`-th with energy `costs[i]`.
pub open spec fn is_plan(
    path: Seq<PosTime>,
    costs: Seq<u64>,
    goal: PosTime,
    current: Current,
    max_speed: u32,
    table: Seq<Option<u32>>,
) -> bool {
    &&& path.len() >= 1
    &&& path[0] == PosTime(0, 0, 0)
    &&& path.last() == goal
    &&& edges_in(plan_rel(goal, current, max_speed, table), path, costs)
}

/// What a search over the planner's edges may return: a plan with its total
/// energy, or `None` exactly where no plan exists.
pub open spec fn plan_outcome(
    r: Option<(Vec<PosTime>, u64)>,
    goal: PosTime,
    current: Current,
    max_speed: u32,
    table: Seq<Option<u32>>,
) -> bool {
    match r {
        Some((path, c)) => exists|costs: Seq<u64>|
            is_plan(path@, costs, goal, current, max_speed, table) && c == total(costs),
        None => forall|path: Seq<PosTime>, costs: Seq<u64>|
            !#[trigger] is_plan(path, costs, goal, current, max_speed, table),
    }
}

/// Along the planner's edges, time never decreases, and energy grows by at
/// most 6 000 000 milli-energy per tick.
pub proof fn lemma_plan_walk_energy(
    path: Seq<PosTime>,
    costs: Seq<u64>,
    goal: PosTime,
    current: Current,
    max_speed: u32,
    table: Seq<Option<u32>>,
)
    requires
        table.len() == NUM_MOVES,
        edges_in(plan_rel(goal, current, max_speed, table), path, costs),
    ensures
        path[0].2 <= path.last().2,
        0 <= total(costs) <= 6_000_000 * (path.last().2 - path[0].2),
        costs.len() > 0 ==> path.last().2 <= goal.2,
    decreases costs.len(),
{
    let rel = plan_rel(goal, current, max_speed, table);
    if costs.len() > 0 {
        let p2 = path.drop_last();
        let c2 = costs.drop_last();
        assert forall|i: int| 0 <= i < c2.len() implies #[trigger] rel(p2[i]).contains(
            (p2[i + 1], c2[i]),
        ) by {
            assert(rel(path[i]).contains((path[i + 1], costs[i])));
        }
        lemma_plan_walk_energy(p2, c2, goal, current, max_speed, table);
        let i = costs.len() - 1;
        let a = path[i];
        assert(rel(path[i]).contains((path[i + 1], costs[i])));
        let k = choose|k: int|
            0 <= k < successors_spec(a, goal, current, max_speed, table).len()
                && successors_spec(a, goal, current, max_speed, table)[k] == (path[i + 1], costs[i]);
        lemma_successors_step_ok(a, goal, current, max_speed, table);
        assert(successors_spec(a, goal, current, max_speed, table)[k] == (path[i + 1], costs[i]));
        assert(p2.last() == a);
        assert(path.last() == path[i + 1]);
        assert(p2[0] == path[0]);
        assert(costs.last() == costs[i]);
        assert(total(costs) == total(c2) + costs[i]);
        let sa = successors_spec(a, goal, current, max_speed, table);
        assert(0 <= k < sa.len());
        let e = sa[k];
        assert(e.1 <= 6_000_000 * (sa[k].0.2 - a.2));
        assert(a.2 <= e.0.2 <= goal.2) by {
            assert(step_ok(a, e.0, goal));
        }
    }
}

/// Every plan spends less energy than `UNREACHABLE_COST`.
pub proof fn lemma_plan_energy_below_sentinel(
    path: Seq<PosTime>,
    costs: Seq<u64>,
    goal: PosTime,
    current: Current,
    max_speed: u32,
    table: Seq<Option<u32>>,
)
    requires
        table.len() == NUM_MOVES,
        is_plan(path, costs, goal, current, max_speed, table),
    ensures
        total(costs) < UNREACHABLE_COST,
        plan_ok(path, goal),
{
    lemma_plan_walk_energy(path, costs, goal, current, max_speed, table);
    let rel = plan_rel(goal, current, max_speed, table);
    assert forall|i: int| 0 <= i < path.len() - 1 implies #[trigger] step_ok(
        path[i],
        path[i + 1],
        goal,
    ) by {
        let a = path[i];
        assert(rel(path[i]).contains((path[i + 1], costs[i])));
        lemma_successors_step_ok(a, goal, current, max_speed, table);
        let k = choose|k: int|
            0 <= k < successors_spec(a, goal, current, max_speed, table).len()
                && successors_spec(a, goal, current, max_speed, table)[k] == (path[i + 1], costs[i]);
        assert(successors_spec(a, goal, current, max_speed, table)[k] == (path[i + 1], costs[i]));
    }
}

/// `h` is a value that the planner's heuristic may give `p`: the one for the
/// goal cell itself, `UNREACHABLE_COST` at speed 0, or the one for a time the
/// solver gives for the straight move to the goal cell.
pub open spec fn heuristic_may_give<F: Fn(Current, i64, i64, u32) -> Option<u32>>(
    solve: &F,
    p: PosTime,
    goal: PosTime,
    current: Current,
    max_speed: u32,
    h: u64,
) -> bool {
    if p.0 == goal.0 && p.1 == goal.1 {
        h == heuristic_spec(p, goal, current, max_speed, Some(0))
    } else if max_speed == 0 {
        h == UNREACHABLE_COST
    } else {
        exists|s: Option<u32>|
            solve.ensures((current, (goal.0 - p.0) as i64, (goal.1 - p.1) as i64, max_speed), s)
                && h == heuristic_spec(p, goal, current, max_speed, s)
    }
}

/// The heuristic never overestimates: no path along the planner's edges
/// from a state to the goal state spends less energy than the heuristic
/// value of that state.
pub open spec fn heuristic_admissible<F: Fn(Current, i64, i64, u32) -> Option<u32>>(
    solve: &F,
    goal: PosTime,
    current: Current,
    max_speed: u32,
    table: Seq<Option<u32>>,
) -> bool {
    forall|h: u64, path: Seq<PosTime>, costs: Seq<u64>|
        #[trigger] heuristic_may_give(solve, path[0], goal, current, max_speed, h)
            && #[trigger] edges_in(plan_rel(goal, current, max_speed, table), path, costs)
            && path.last() == goal ==> h <= total(costs)
}

/// No plan spends less energy than `energy`.
pub open spec fn least_energy(
    energy: u64,
    goal: PosTime,
    current: Current,
    max_speed: u32,
    table: Seq<Option<u32>>,
) -> bool {
    forall|path: Seq<PosTime>, costs: Seq<u64>|
        #[trigger] is_plan(path, costs, goal, current, max_speed, table) ==> energy <= total(costs)
}

/// Relies on pathfinding::directed::astar::astar, run from the origin at
/// time 0 with `successors_from_table` as successor function,
/// `calc_power_hueristic` as heuristic and `at_goal` as success test. Where
/// it returns a path, the path begins at the start, each later state is a
/// successor of the one before, the success test held on the last state, and
/// the returned cost is the sum of the edges' costs. Where the start passes
/// the test, the path is the start alone. It returns `None` only after every
/// state reachable from the start failed the test. Where the heuristic never
/// overestimates, no path to a state that passes the test costs less. Costs
/// are added along paths from the start, with a heuristic value of at most
/// `UNREACHABLE_COST` on top: those sums must fit.
#[verifier::external_body]
fn astar_plan<F: Fn(Current, i64, i64, u32) -> Option<u32>>(
    goal: &PosTime,
    current: &Current,
    max_speed: u32,
    moves: &Vec<Option<u32>>,
    solve: &F,
) -> (r: Option<(Vec<PosTime>, u64)>)
    requires
        solver_valid(solve),
        moves@.len() == NUM_MOVES,
        forall|path: Seq<PosTime>, costs: Seq<u64>|
            #[trigger] edges_in(plan_rel(*goal, *current, max_speed, moves@), path, costs)
                && path[0] == PosTime(0, 0, 0) ==> total(costs) + UNREACHABLE_COST <= u64::MAX,
    ensures
        plan_outcome(r, *goal, *current, max_speed, moves@),
        r matches Some((path, c)) ==> (*goal == PosTime(0, 0, 0) ==> path@ == seq![*goal] && c
            == 0),
        *goal == PosTime(0, 0, 0) ==> r is Some,
        r matches Some((_, c)) ==> (heuristic_admissible(solve, *goal, *current, max_speed, moves@)
            ==> least_energy(c, *goal, *current, max_speed, moves@)),
{
    pathfinding::prelude::astar(
        &PosTime(0, 0, 0),
        |p: &PosTime| successors_from_table(p, goal, current, max_speed, moves),
        |p: &PosTime| calc_power_hueristic(p, goal, current, max_speed, solve),
        |p: &PosTime| at_goal(p, goal),
    )
}

/// Searches for a route from the origin at time 0 to `goal` (a cell and an
/// arrival time in ticks) along the planner's edges.
fn search_plan<F: Fn(Current, i64, i64, u32) -> Option<u32>>(
    goal: PosTime,
    current: Current,
    max_speed: u32,
    solve: &F,
) -> (r: Option<(Vec<PosTime>, u64)>)
    requires
        solver_valid(solve),
    ensures
        exists|table: Seq<Option<u32>>|
            solver_table(solve, current, max_speed, table) && plan_outcome(
                r,
                goal,
                current,
                max_speed,
                table,
            ) && (r matches Some((_, c)) ==> (heuristic_admissible(
                solve,
                goal,
                current,
                max_speed,
                table,
            ) ==> least_energy(c, goal, current, max_speed, table))),
        r matches Some((path, _)) ==> plan_ok(path@, goal),
        goal == PosTime(0, 0, 0) ==> (r matches Some((path, c)) && path@ == seq![goal] && c == 0),
{
    let moves = solve_moves(current, max_speed, solve);
    proof {
        assert forall|path: Seq<PosTime>, costs: Seq<u64>|
            #[trigger] edges_in(plan_rel(goal, current, max_speed, moves@), path, costs) && path[0]
                == PosTime(0, 0, 0) implies total(costs) + UNREACHABLE_COST <= u64::MAX by {
            lemma_plan_walk_energy(path, costs, goal, current, max_speed, moves@);
        }
    }
    let result = astar_plan(&goal, &current, max_speed, &moves, solve);
    proof {
        if let Some((path, c)) = &result {
            let costs = choose|costs: Seq<u64>|
                is_plan(path@, costs, goal, current, max_speed, moves@) && *c == total(costs);
            lemma_plan_energy_below_sentinel(path@, costs, goal, current, max_speed, moves@);
        }
    }
    result
}

/// A solver that answers alike each time leaves one table of answers.
pub proof fn lemma_solver_table_unique<F: Fn(Current, i64, i64, u32) -> Option<u32>>(
    solve: &F,
    current: Current,
    max_speed: u32,
    first: Seq<Option<u32>>,
    second: Seq<Option<u32>>,
)
    requires
        solver_valid(solve),
        solver_table(solve, current, max_speed, first),
        solver_table(solve, current, max_speed, second),
    ensures
        first == second,
{
    assert forall|j: int| 0 <= j < NUM_MOVES implies first[j] == second[j] by {
        if move_speed(max_speed, j) != 0 {
            let q = (
                current,
                move_offset(j).0 as i64,
                move_offset(j).1 as i64,
                move_speed(max_speed, j) as u32,
            );
            assert(solve.ensures(q, first[j]) && solve.ensures(q, second[j]));
        }
    }
    assert(first =~= second);
}

/// Planning twice with the same inputs and a solver that answers alike each
/// time finds a plan both times or neither time; where the heuristic never
/// overestimates, both plans spend the same energy.
pub proof fn lemma_planning_repeatable<F: Fn(Current, i64, i64, u32) -> Option<u32>>(
    solve: &F,
    goal: PosTime,
    current: Current,
    max_speed: u32,
    first: Option<(Vec<PosTime>, u64)>,
    second: Option<(Vec<PosTime>, u64)>,
    table1: Seq<Option<u32>>,
    table2: Seq<Option<u32>>,
)
    requires
        solver_valid(solve),
        solver_table(solve, current, max_speed, table1),
        solver_table(solve, current, max_speed, table2),
        plan_outcome(first, goal, current, max_speed, table1),
        plan_outcome(second, goal, current, max_speed, table2),
        first matches Some((_, c)) ==> (heuristic_admissible(solve, goal, current, max_speed, table1)
            ==> least_energy(c, goal, current, max_speed, table1)),
        second matches Some((_, c)) ==> (heuristic_admissible(solve, goal, current, max_speed, table2)
            ==> least_energy(c, goal, current, max_speed, table2)),
    ensures
        first is Some <==> second is Some,
        heuristic_admissible(solve, goal, current, max_speed, table1) ==> (first matches Some((_, c1))
            ==> (second matches Some((_, c2)) ==> c1 == c2)),
{
    lemma_solver_table_unique(solve, current, max_speed, table1, table2);
    if let Some((p1, c1)) = first {
        let k1 = choose|costs: Seq<u64>|
            is_plan(p1@, costs, goal, current, max_speed, table1) && c1 == total(costs);
        assert(is_plan(p1@, k1, goal, current, max_speed, table2));
        if let Some((p2, c2)) = second {
            let k2 = choose|costs: Seq<u64>|
                is_plan(p2@, costs, goal, current, max_speed, table2) && c2 == total(costs);
            assert(is_plan(p2@, k2, goal, current, max_speed, table1));
        }
    } else if let Some((p2, c2)) = second {
        let k2 = choose|costs: Seq<u64>|
            is_plan(p2@, costs, goal, current, max_speed, table2) && c2 == total(costs);
        assert(is_plan(p2@, k2, goal, current, max_speed, table1));
    }
}

/// Along a plan, elapsed time never decreases and never passes the goal
/// time.
pub proof fn lemma_plan_times_ordered(path: Seq<PosTime>, goal: PosTime, i: int, j: int)
    requires
        plan_ok(path, goal),
        0 <= i <= j < path.len(),
    ensures
        path[i].2 <= path[j].2 <= goal.2,
    decreases j - i,
{
    if i < j {
        lemma_plan_times_ordered(path, goal, i + 1, j);
        assert(step_ok(path[i], path[i + 1], goal));
    } else if j > 0 {
        let k = j - 1;
        assert(step_ok(path[k], path[k + 1], goal));
    }
}

/// Plans a route from the origin at time 0 to `goal` through the drift
/// `current`, at speeds up to `max_speed`, with `solve` giving the time of
/// each move. A largest speed of zero is refused. Otherwise returns the
/// states of a route and its energy in milli-energy, or `None` exactly where
/// no route arrives in time inside the searched square. The route spends the
/// least energy wherever the heuristic never overestimates.
pub fn run_astar<F: Fn(Current, i64, i64, u32) -> Option<u32>>(
    goal: PosTime,
    current: Current,
    max_speed: u32,
    solve: &F,
) -> (r: Result<Option<(Vec<PosTime>, u64)>, PlanError>)
    requires
        solver_valid(solve),
    ensures
        max_speed == 0 <==> r is Err,
        r matches Err(e) ==> e == PlanError::NonPositiveMaxSpeed,
        r matches Ok(o) ==> exists|table: Seq<Option<u32>>|
            solver_table(solve, current, max_speed, table) && plan_outcome(
                o,
                goal,
                current,
                max_speed,
                table,
            ) && (o matches Some((_, c)) ==> (heuristic_admissible(
                solve,
                goal,
                current,
                max_speed,
                table,
            ) ==> least_energy(c, goal, current, max_speed, table))),
        r matches Ok(Some((path, _))) ==> plan_ok(path@, goal),
        max_speed > 0 && goal == PosTime(0, 0, 0) ==> (r matches Ok(Some((path, c))) && path@ == seq![
            goal,
        ] && c == 0),
{
    if max_speed == 0 {
        return Err(PlanError::NonPositiveMaxSpeed);
    }
    Ok(search_plan(goal, current, max_speed, solve))
}

} // verus!
