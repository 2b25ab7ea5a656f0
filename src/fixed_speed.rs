use vstd::prelude::*;
use crate::constant_speed::{
    adjacent, at_goal_cell, lemma_distinct_cells_bounded, neighbor_answers, route_ok,
    solve_neighbors, within_square,
};
use crate::kinematics::solver_valid;
use crate::planning::{neighbor_offset, neighbor_offset_spec};
use crate::search::{edges_in, lemma_total_bound, total};
use crate::state::{Current, Pos};

verus! {

/// Cells farther than this from the origin along either axis are not
/// expanded by the fixed-speed search.
pub const FIXED_SPEED_CUTOFF: i32 = 1000;

/// Moves that take longer than this many ticks are taken as impossible.
pub const NOT_POSSIBLE_TICKS: u64 = 1_000_000;

/// The time charged for a move that the solver could not find: just above
/// `NOT_POSSIBLE_TICKS`.
pub const UNSOLVED_TICKS: u64 = 1_001_000;

/// The duration of a move, given the solver's answer for it; an unanswered
/// move costs `UNSOLVED_TICKS`.
pub open spec fn ticks_or_unsolved(answer: Option<u32>) -> u64 {
    match answer {
        Some(t) => t as u64,
        None => UNSOLVED_TICKS,
    }
}

/// The duration of a move, given the solver's answer for it.
pub fn traversal_time_from(answer: Option<u32>) -> (r: u64)
    ensures
        r == ticks_or_unsolved(answer),
{
    match answer {
        Some(t) => t as u64,
        None => UNSOLVED_TICKS,
    }
}

/// The successor through neighbour `k`, with its duration as cost, unless
/// the move takes more than `NOT_POSSIBLE_TICKS`.
pub open spec fn fixed_entry(p: Pos, answers: Seq<Option<u32>>, k: int) -> Seq<(Pos, u64)> {
    if ticks_or_unsolved(answers[k]) <= NOT_POSSIBLE_TICKS {
        seq![
            (
                Pos((p.0 + neighbor_offset_spec(k).0) as i32, (p.1 + neighbor_offset_spec(k).1) as i32),
                ticks_or_unsolved(answers[k]),
            ),
        ]
    } else {
        seq![]
    }
}

/// The successors through the first `n` neighbours, in neighbour order.
pub open spec fn fixed_successors(p: Pos, answers: Seq<Option<u32>>, n: nat) -> Seq<(Pos, u64)>
    decreases n,
{
    if n == 0 {
        seq![]
    } else {
        fixed_successors(p, answers, (n - 1) as nat) + fixed_entry(p, answers, n - 1)
    }
}

/// `p` lies outside the square of the fixed-speed search.
pub open spec fn fixed_beyond_cutoff(p: Pos) -> bool {
    p.0 > FIXED_SPEED_CUTOFF || p.0 < -FIXED_SPEED_CUTOFF || p.1 > FIXED_SPEED_CUTOFF || p.1
        < -FIXED_SPEED_CUTOFF
}

/// The successors of `p` in the fixed-speed search: none beyond the cutoff,
/// otherwise every neighbour reached within `NOT_POSSIBLE_TICKS`.
pub open spec fn fixed_successors_spec(p: Pos, answers: Seq<Option<u32>>) -> Seq<(Pos, u64)> {
    if fixed_beyond_cutoff(p) {
        seq![]
    } else {
        fixed_successors(p, answers, 8)
    }
}

proof fn lemma_fixed_successors_adjacent(p: Pos, answers: Seq<Option<u32>>, n: nat)
    requires
        n <= 8,
        answers.len() == 8,
        !fixed_beyond_cutoff(p),
    ensures
        forall|i: int|
            0 <= i < fixed_successors(p, answers, n).len() ==> adjacent(
                p,
                (#[trigger] fixed_successors(p, answers, n)[i]).0,
            ) && fixed_successors(p, answers, n)[i].1 <= NOT_POSSIBLE_TICKS,
    decreases n,
{
    if n > 0 {
        lemma_fixed_successors_adjacent(p, answers, (n - 1) as nat);
        let prev = fixed_successors(p, answers, (n - 1) as nat);
        let e = fixed_entry(p, answers, n - 1);
        assert forall|i: int| 0 <= i < prev.len() + e.len() implies adjacent(
            p,
            (#[trigger] (prev + e)[i]).0,
        ) && (prev + e)[i].1 <= NOT_POSSIBLE_TICKS by {
            if i >= prev.len() {
                assert((prev + e)[i] == e[i - prev.len()]);
            } else {
                assert((prev + e)[i] == prev[i]);
            }
        }
    }
}

/// Every successor in the fixed-speed search is a neighbour.
pub proof fn lemma_fixed_successors_spec_adjacent(p: Pos, answers: Seq<Option<u32>>)
    requires
        answers.len() == 8,
    ensures
        forall|i: int|
            0 <= i < fixed_successors_spec(p, answers).len() ==> adjacent(
                p,
                (#[trigger] fixed_successors_spec(p, answers)[i]).0,
            ) && fixed_successors_spec(p, answers)[i].1 <= NOT_POSSIBLE_TICKS && !fixed_beyond_cutoff(
                p,
            ),
{
    if !fixed_beyond_cutoff(p) {
        lemma_fixed_successors_adjacent(p, answers, 8);
    }
}

/// The neighbours of `p` reached within `NOT_POSSIBLE_TICKS`, each with the
/// ticks the move takes, given the solver's answer for each neighbour.
pub fn fixed_speed_successors(p: &Pos, answers: &Vec<Option<u32>>) -> (r: Vec<(Pos, u64)>)
    requires
        answers@.len() == 8,
    ensures
        r@ == fixed_successors_spec(*p, answers@),
        forall|i: int| 0 <= i < r@.len() ==> adjacent(*p, (#[trigger] r@[i]).0),
{
    proof {
        lemma_fixed_successors_spec_adjacent(*p, answers@);
    }
    if p.0 > FIXED_SPEED_CUTOFF || p.0 < -FIXED_SPEED_CUTOFF || p.1 > FIXED_SPEED_CUTOFF || p.1
        < -FIXED_SPEED_CUTOFF {
        return Vec::new();
    }
    let mut out: Vec<(Pos, u64)> = Vec::new();
    let mut k: usize = 0;
    while k < 8
        invariant
            k <= 8,
            answers@.len() == 8,
            !fixed_beyond_cutoff(*p),
            out@ == fixed_successors(*p, answers@, k as nat),
        decreases 8 - k,
    {
        let offset = neighbor_offset(k);
        let ticks = traversal_time_from(answers[k]);
        let ghost before = out@;
        if ticks <= NOT_POSSIBLE_TICKS {
            out.push((Pos(p.0 + offset.0, p.1 + offset.1), ticks));
        }
        assert(out@ == before + fixed_entry(*p, answers@, k as int));
        k += 1;
    }
    out
}

/// Estimated time from `p` to `goal`: the straight move at `speed`, or
/// `UNSOLVED_TICKS` where the solver finds none; nothing from the goal cell
/// itself, and no move at speed 0.
pub fn traversal_time<F: Fn(Current, i64, i64, u32) -> Option<u32>>(
    p: &Pos,
    goal: &Pos,
    current: Current,
    speed: u32,
    solve: &F,
) -> (r: u64)
    requires
        solver_valid(solve),
    ensures
        *p == *goal ==> r == 0,
        *p != *goal && speed == 0 ==> r == UNSOLVED_TICKS,
        r <= u32::MAX,
        fixed_heuristic_may_give(solve, *p, *goal, current, speed, r),
        *p != *goal && speed > 0 ==> exists|s: Option<u32>|
            solve.ensures((current, (goal.0 - p.0) as i64, (goal.1 - p.1) as i64, speed), s) && r
                == ticks_or_unsolved(s),
{
    if p.0 == goal.0 && p.1 == goal.1 {
        0
    } else if speed == 0 {
        UNSOLVED_TICKS
    } else {
        let dx: i64 = goal.0 as i64 - p.0 as i64;
        let dy: i64 = goal.1 as i64 - p.1 as i64;
        assert(solve.requires((current, dx, dy, speed)));
        traversal_time_from(solve(current, dx, dy, speed))
    }
}

/// The fixed-speed edges.
pub open spec fn fixed_rel(answers: Seq<Option<u32>>) -> spec_fn(Pos) -> Seq<(Pos, u64)> {
    |p: Pos| fixed_successors_spec(p, answers)
}

/// `path` leaves the origin, ends at `goal` and follows the fixed-speed
/// edges, the `i`-th taking `costs[i]` ticks.
pub open spec fn is_fixed_route(
    path: Seq<Pos>,
    costs: Seq<u64>,
    goal: Pos,
    answers: Seq<Option<u32>>,
) -> bool {
    &&& path.len() >= 1
    &&& path[0] == Pos(0, 0)
    &&& path.last() == goal
    &&& edges_in(fixed_rel(answers), path, costs)
}

/// What the fixed-speed search may return: a route with its time, or `None`
/// exactly where no route exists.
pub open spec fn fixed_outcome(r: Option<(Vec<Pos>, u64)>, goal: Pos, answers: Seq<Option<u32>>) -> bool {
    match r {
        Some((path, c)) => exists|costs: Seq<u64>|
            is_fixed_route(path@, costs, goal, answers) && c == total(costs),
        None => forall|path: Seq<Pos>, costs: Seq<u64>|
            !#[trigger] is_fixed_route(path, costs, goal, answers),
    }
}

/// Every cell of a path along the fixed-speed edges from the origin lies
/// within one cell of the searched square, and every edge takes at most
/// `NOT_POSSIBLE_TICKS`.
pub proof fn lemma_fixed_route_cells(path: Seq<Pos>, costs: Seq<u64>, answers: Seq<Option<u32>>)
    requires
        answers.len() == 8,
        path.len() >= 1,
        path[0] == Pos(0, 0),
        edges_in(fixed_rel(answers), path, costs),
    ensures
        forall|i: int| 0 <= i < path.len() ==> within_square(#[trigger] path[i], FIXED_SPEED_CUTOFF + 1),
        forall|i: int| 0 <= i < costs.len() ==> #[trigger] costs[i] <= NOT_POSSIBLE_TICKS,
        forall|i: int| 0 <= i < path.len() - 1 ==> #[trigger] adjacent(path[i], path[i + 1]),
{
    let rel = fixed_rel(answers);
    assert forall|i: int|
        #![trigger costs[i]]
        #![trigger adjacent(path[i], path[i + 1])]
        0 <= i < costs.len() implies adjacent(path[i], path[i + 1]) && !fixed_beyond_cutoff(path[i])
            && costs[i] <= NOT_POSSIBLE_TICKS by {
        assert(rel(path[i]).contains((path[i + 1], costs[i])));
        lemma_fixed_successors_spec_adjacent(path[i], answers);
        let k = choose|k: int|
            0 <= k < fixed_successors_spec(path[i], answers).len() && fixed_successors_spec(
                path[i],
                answers,
            )[k] == (path[i + 1], costs[i]);
        assert(fixed_successors_spec(path[i], answers)[k] == (path[i + 1], costs[i]));
    }
    assert forall|i: int| 0 <= i < path.len() implies within_square(
        #[trigger] path[i],
        FIXED_SPEED_CUTOFF + 1,
    ) by {
        if i > 0 {
            let j = i - 1;
            assert(adjacent(path[j], path[j + 1]));
        }
    }
}

/// `h` is a value that the straight-line heuristic may give `p`: 0 at the
/// goal, `UNSOLVED_TICKS` at speed 0, or what a solver answer for the
/// straight move to the goal costs.
pub open spec fn fixed_heuristic_may_give<F: Fn(Current, i64, i64, u32) -> Option<u32>>(
    solve: &F,
    p: Pos,
    goal: Pos,
    current: Current,
    speed: u32,
    h: u64,
) -> bool {
    if p == goal {
        h == 0
    } else if speed == 0 {
        h == UNSOLVED_TICKS
    } else {
        exists|s: Option<u32>|
            solve.ensures((current, (goal.0 - p.0) as i64, (goal.1 - p.1) as i64, speed), s) && h
                == ticks_or_unsolved(s)
    }
}

/// The straight-line heuristic never overestimates: no path along the
/// fixed-speed edges from a cell to the goal takes less time than the
/// heuristic value of that cell.
pub open spec fn fixed_heuristic_admissible<F: Fn(Current, i64, i64, u32) -> Option<u32>>(
    solve: &F,
    goal: Pos,
    current: Current,
    speed: u32,
    answers: Seq<Option<u32>>,
) -> bool {
    forall|h: u64, path: Seq<Pos>, costs: Seq<u64>|
        #[trigger] fixed_heuristic_may_give(solve, path[0], goal, current, speed, h)
            && #[trigger] edges_in(fixed_rel(answers), path, costs) && path.last() == goal ==> h
            <= total(costs)
}

/// No fixed-speed route takes less time than `ticks`.
pub open spec fn fastest_fixed(ticks: u64, goal: Pos, answers: Seq<Option<u32>>) -> bool {
    forall|path: Seq<Pos>, costs: Seq<u64>|
        #[trigger] is_fixed_route(path, costs, goal, answers) ==> ticks <= total(costs)
}

/// Relies on pathfinding::directed::astar::astar, run from the origin with
/// `fixed_speed_successors` as successor function, `traversal_time` as
/// heuristic and `at_goal_cell` as success test. Where it returns a path, the
/// path begins at the start, each later cell is a successor of the one
/// before, the success test held on the last cell, and the returned cost is
/// the sum of the edges' costs. Where the start passes the test, the path is
/// the start alone. It returns `None` only after every cell reachable from
/// the start failed the test. Where the heuristic never overestimates, no
/// path to a cell that passes the test costs less. Costs are added along
/// paths from the start that repeat no cell before their end, with a
/// heuristic value of at most `u32::MAX` on top: those sums must fit.
#[verifier::external_body]
fn astar_route<F: Fn(Current, i64, i64, u32) -> Option<u32>>(
    goal: &Pos,
    current: Current,
    speed: u32,
    answers: &Vec<Option<u32>>,
    solve: &F,
) -> (r: Option<(Vec<Pos>, u64)>)
    requires
        solver_valid(solve),
        answers@.len() == 8,
        forall|path: Seq<Pos>, costs: Seq<u64>|
            #[trigger] edges_in(fixed_rel(answers@), path, costs) && path[0] == Pos(0, 0)
                && path.drop_last().no_duplicates() ==> total(costs) + u32::MAX <= u64::MAX,
    ensures
        fixed_outcome(r, *goal, answers@),
        r matches Some((path, c)) ==> (*goal == Pos(0, 0) ==> path@ == seq![*goal] && c == 0),
        *goal == Pos(0, 0) ==> r is Some,
        r matches Some((_, c)) ==> (fixed_heuristic_admissible(solve, *goal, current, speed, answers@)
            ==> fastest_fixed(c, *goal, answers@)),
{
    pathfinding::prelude::astar(
        &Pos(0, 0),
        |p: &Pos| fixed_speed_successors(p, answers),
        |p: &Pos| traversal_time(p, goal, current, speed, solve),
        |p: &Pos| at_goal_cell(p, goal),
    )
}

/// Finds a route from the origin to `goal` at the constant through-water
/// speed `speed`, guided by the straight-line travel time. Returns the route
/// and its duration in ticks, or `None` exactly where no route exists inside
/// the searched square. The route is the fastest wherever the straight-line
/// time never overestimates.
pub fn run_astar<F: Fn(Current, i64, i64, u32) -> Option<u32>>(
    goal: Pos,
    current: Current,
    speed: u32,
    solve: &F,
) -> (r: Option<(Vec<Pos>, u64)>)
    requires
        solver_valid(solve),
    ensures
        exists|answers: Seq<Option<u32>>|
            neighbor_answers(solve, current, speed, answers) && fixed_outcome(r, goal, answers) && (
            r matches Some((_, c)) ==> (fixed_heuristic_admissible(solve, goal, current, speed, answers)
                ==> fastest_fixed(c, goal, answers))),
        r matches Some((path, _)) ==> route_ok(path@, goal),
        goal == Pos(0, 0) ==> (r matches Some((path, c)) && path@ == seq![goal] && c == 0),
{
    let answers = solve_neighbors(current, speed, solve);
    proof {
        assert forall|path: Seq<Pos>, costs: Seq<u64>|
            #[trigger] edges_in(fixed_rel(answers@), path, costs) && path[0] == Pos(0, 0)
                && path.drop_last().no_duplicates() implies total(costs) + u32::MAX <= u64::MAX by {
            lemma_fixed_route_cells(path, costs, answers@);
            let prefix = path.drop_last();
            assert forall|i: int| 0 <= i < prefix.len() implies within_square(
                #[trigger] prefix[i],
                FIXED_SPEED_CUTOFF + 1,
            ) by {
                assert(prefix[i] == path[i]);
            }
            lemma_distinct_cells_bounded(prefix, FIXED_SPEED_CUTOFF + 1);
            lemma_total_bound(costs, NOT_POSSIBLE_TICKS as int);
            assert(costs.len() * 1_000_000 <= 2003 * 2003 * 1_000_000) by (nonlinear_arith)
                requires costs.len() <= 2003 * 2003;
        }
    }
    let result = astar_route(&goal, current, speed, &answers, solve);
    proof {
        if let Some((path, c)) = &result {
            let costs = choose|costs: Seq<u64>|
                is_fixed_route(path@, costs, goal, answers@) && *c == total(costs);
            lemma_fixed_route_cells(path@, costs, answers@);
        }
    }
    result
}

} // verus!
