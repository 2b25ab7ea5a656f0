use vstd::prelude::*;
use crate::kinematics::{calc_traversal_power, energy_for, fit_deadline, fit_deadline_spec, solver_valid};
use crate::planning::{
    beyond_cutoff, calc_power_hueristic, heuristic_may_give, heuristic_spec, is_plan, lemma_plan_energy_below_sentinel,
    lemma_plan_walk_energy, move_entry, plan_rel,
    move_offset, move_speed, move_successors, neighbor_offset, solve_moves, solver_table, speed_of,
    step_ok, successors_spec, NUM_MOVES, SEARCH_DIST_CUTOFF, UNREACHABLE_COST,
};
use crate::search::{edges_in, total};
use crate::state::{Current, PlanError, PosTime, PosTimeSpeed};

verus! {

/// The cell and elapsed time of a state, without its speed.
pub open spec fn without_speed(p: PosTimeSpeed) -> PosTime {
    PosTime(p.0, p.1, p.2)
}

/// The successor produced by move `j` from `p`, carrying the move's speed.
pub open spec fn speed_move_entry(
    p: PosTimeSpeed,
    goal: PosTimeSpeed,
    max_speed: u32,
    table: Seq<Option<u32>>,
    j: int,
) -> Seq<(PosTimeSpeed, u64)> {
    match fit_deadline_spec(p.2, goal.2, table[j]) {
        Some(t) => seq![
            (
                PosTimeSpeed(
                    (p.0 + move_offset(j).0) as i32,
                    (p.1 + move_offset(j).1) as i32,
                    (p.2 + t) as u32,
                    move_speed(max_speed, j) as u32,
                ),
                energy_for(t as int, move_speed(max_speed, j)) as u64,
            ),
        ],
        None => seq![],
    }
}

/// The successors produced by the first `n` moves from `p`, in move order.
pub open spec fn speed_move_successors(
    p: PosTimeSpeed,
    goal: PosTimeSpeed,
    max_speed: u32,
    table: Seq<Option<u32>>,
    n: nat,
) -> Seq<(PosTimeSpeed, u64)>
    decreases n,
{
    if n == 0 {
        seq![]
    } else {
        speed_move_successors(p, goal, max_speed, table, (n - 1) as nat) + speed_move_entry(
            p,
            goal,
            max_speed,
            table,
            n - 1,
        )
    }
}

/// The successors of `p` with their energy costs: at the goal cell before the
/// goal time, only the hold until the goal time, at the current's speed;
/// beyond the cutoff, none; otherwise every move, in move order, that the
/// solver found and that ends by the goal time, with its speed.
pub open spec fn speed_successors_spec(
    p: PosTimeSpeed,
    goal: PosTimeSpeed,
    current: Current,
    max_speed: u32,
    table: Seq<Option<u32>>,
) -> Seq<(PosTimeSpeed, u64)> {
    if p.0 == goal.0 && p.1 == goal.1 && p.2 < goal.2 {
        seq![
            (
                PosTimeSpeed(goal.0, goal.1, goal.2, current.magnitude),
                energy_for(goal.2 - p.2, current.magnitude as int) as u64,
            ),
        ]
    } else if beyond_cutoff(without_speed(p)) {
        seq![]
    } else {
        speed_move_successors(p, goal, max_speed, table, NUM_MOVES as nat)
    }
}

proof fn lemma_speed_moves_project(
    p: PosTimeSpeed,
    goal: PosTimeSpeed,
    max_speed: u32,
    table: Seq<Option<u32>>,
    n: nat,
)
    ensures
        speed_move_successors(p, goal, max_speed, table, n).len() == move_successors(
            without_speed(p),
            without_speed(goal),
            max_speed,
            table,
            n,
        ).len(),
        forall|i: int|
            0 <= i < speed_move_successors(p, goal, max_speed, table, n).len() ==> without_speed(
                (#[trigger] speed_move_successors(p, goal, max_speed, table, n)[i]).0,
            ) == move_successors(without_speed(p), without_speed(goal), max_speed, table, n)[i].0
                && speed_move_successors(p, goal, max_speed, table, n)[i].1 == move_successors(
                without_speed(p),
                without_speed(goal),
                max_speed,
                table,
                n,
            )[i].1,
    decreases n,
{
    if n > 0 {
        lemma_speed_moves_project(p, goal, max_speed, table, (n - 1) as nat);
        let a = speed_move_successors(p, goal, max_speed, table, (n - 1) as nat);
        let ea = speed_move_entry(p, goal, max_speed, table, n - 1);
        let b = move_successors(without_speed(p), without_speed(goal), max_speed, table, (n - 1) as nat);
        let eb = move_entry(without_speed(p), without_speed(goal), max_speed, table, n - 1);
        assert forall|i: int| 0 <= i < a.len() + ea.len() implies without_speed(
            (#[trigger] (a + ea)[i]).0,
        ) == (b + eb)[i].0 && (a + ea)[i].1 == (b + eb)[i].1 by {
            if i >= a.len() {
                assert((a + ea)[i] == ea[i - a.len()]);
                assert((b + eb)[i] == eb[i - b.len()]);
            } else {
                assert((a + ea)[i] == a[i]);
                assert((b + eb)[i] == b[i]);
            }
        }
    }
}

/// Without their speeds, the successors of a state are those of the state
/// without speed, at the same costs.
pub proof fn lemma_speed_edge_projects(
    p: PosTimeSpeed,
    b: PosTimeSpeed,
    c: u64,
    goal: PosTimeSpeed,
    current: Current,
    max_speed: u32,
    table: Seq<Option<u32>>,
)
    requires
        speed_successors_spec(p, goal, current, max_speed, table).contains((b, c)),
    ensures
        successors_spec(without_speed(p), without_speed(goal), current, max_speed, table).contains(
            (without_speed(b), c),
        ),
{
    let s = speed_successors_spec(p, goal, current, max_speed, table);
    let t = successors_spec(without_speed(p), without_speed(goal), current, max_speed, table);
    lemma_speed_moves_project(p, goal, max_speed, table, NUM_MOVES as nat);
    let k = choose|k: int| 0 <= k < s.len() && s[k] == (b, c);
    assert(t[k] == (without_speed(b), c));
}

/// The variable-speed planner's edges.
pub open spec fn speed_rel(
    goal: PosTimeSpeed,
    current: Current,
    max_speed: u32,
    table: Seq<Option<u32>>,
) -> spec_fn(PosTimeSpeed) -> Seq<(PosTimeSpeed, u64)> {
    |p: PosTimeSpeed| speed_successors_spec(p, goal, current, max_speed, table)
}

/// A path along the variable-speed edges, without its speeds, is a path
/// along the planner's edges at the same costs.
pub proof fn lemma_speed_walk_projects(
    path: Seq<PosTimeSpeed>,
    costs: Seq<u64>,
    goal: PosTimeSpeed,
    current: Current,
    max_speed: u32,
    table: Seq<Option<u32>>,
)
    requires
        edges_in(speed_rel(goal, current, max_speed, table), path, costs),
    ensures
        edges_in(
            plan_rel(without_speed(goal), current, max_speed, table),
            path.map_values(|p: PosTimeSpeed| without_speed(p)),
            costs,
        ),
{
    let pp = path.map_values(|p: PosTimeSpeed| without_speed(p));
    let rel = speed_rel(goal, current, max_speed, table);
    assert forall|i: int| 0 <= i < costs.len() implies #[trigger] plan_rel(
        without_speed(goal),
        current,
        max_speed,
        table,
    )(pp[i]).contains((pp[i + 1], costs[i])) by {
        assert(rel(path[i]).contains((path[i + 1], costs[i])));
        lemma_speed_edge_projects(path[i], path[i + 1], costs[i], goal, current, max_speed, table);
    }
}

/// `path` leaves the origin at time 0 and speed 0, ends at the goal cell at
/// the goal time, and follows the variable-speed edges, the `i`-th with
/// energy `costs[i]`.
pub open spec fn is_speed_plan(
    path: Seq<PosTimeSpeed>,
    costs: Seq<u64>,
    goal: PosTimeSpeed,
    current: Current,
    max_speed: u32,
    table: Seq<Option<u32>>,
) -> bool {
    &&& path.len() >= 1
    &&& path[0] == PosTimeSpeed(0, 0, 0, 0)
    &&& without_speed(path.last()) == without_speed(goal)
    &&& edges_in(speed_rel(goal, current, max_speed, table), path, costs)
}

/// What a search over the variable-speed edges may return: a plan with its
/// total energy, or `None` exactly where no plan exists.
pub open spec fn speed_plan_outcome(
    r: Option<(Vec<PosTimeSpeed>, u64)>,
    goal: PosTimeSpeed,
    current: Current,
    max_speed: u32,
    table: Seq<Option<u32>>,
) -> bool {
    match r {
        Some((path, c)) => exists|costs: Seq<u64>|
            is_speed_plan(path@, costs, goal, current, max_speed, table) && c == total(costs),
        None => forall|path: Seq<PosTimeSpeed>, costs: Seq<u64>|
            !#[trigger] is_speed_plan(path, costs, goal, current, max_speed, table),
    }
}

impl PosTimeSpeed {
    /// The successors of this state, with their energy costs, given the
    /// solver's answer for every move.
    pub fn successors_from(
        &self,
        goal: &PosTimeSpeed,
        current: &Current,
        max_speed: u32,
        table: &Vec<Option<u32>>,
    ) -> (r: Vec<(PosTimeSpeed, u64)>)
        requires
            table@.len() == NUM_MOVES,
        ensures
            r@ == speed_successors_spec(*self, *goal, *current, max_speed, table@),
    {
        if self.0 == goal.0 && self.1 == goal.1 && self.2 < goal.2 {
            let cost = calc_traversal_power(goal.2 - self.2, current.magnitude);
            return vec![(PosTimeSpeed(goal.0, goal.1, goal.2, current.magnitude), cost)];
        }
        if self.0 > SEARCH_DIST_CUTOFF || self.0 < -SEARCH_DIST_CUTOFF || self.1
            > SEARCH_DIST_CUTOFF || self.1 < -SEARCH_DIST_CUTOFF {
            return Vec::new();
        }
        let mut out: Vec<(PosTimeSpeed, u64)> = Vec::new();
        let mut j: usize = 0;
        while j < NUM_MOVES
            invariant
                j <= NUM_MOVES,
                table@.len() == NUM_MOVES,
                !beyond_cutoff(without_speed(*self)),
                out@ == speed_move_successors(*self, *goal, max_speed, table@, j as nat),
            decreases NUM_MOVES - j,
        {
            let offset = neighbor_offset(j / 11);
            let speed = speed_of(max_speed, j % 11);
            let fitted = fit_deadline(self.2, goal.2, table[j]);
            let ghost before = out@;
            match fitted {
                Some(t) => {
                    let cost = calc_traversal_power(t, speed);
                    out.push(
                        (PosTimeSpeed(self.0 + offset.0, self.1 + offset.1, self.2 + t, speed), cost),
                    );
                },
                None => {},
            }
            assert(out@ == before + speed_move_entry(*self, *goal, max_speed, table@, j as int));
            j += 1;
        }
        out
    }

    /// The successors of this state, with their energy costs: the hold at the
    /// goal cell until the goal time, or every move to a neighbour, at each of
    /// the speeds spread over `[0, max_speed]`, that the solver found and
    /// that ends by the goal time.
    pub fn successors<F: Fn(Current, i64, i64, u32) -> Option<u32>>(
        &self,
        goal: &PosTimeSpeed,
        current: &Current,
        max_speed: u32,
        solve: &F,
    ) -> (r: Vec<(PosTimeSpeed, u64)>)
        requires
            solver_valid(solve),
        ensures
            exists|table: Seq<Option<u32>>|
                solver_table(solve, *current, max_speed, table) && r@ == speed_successors_spec(
                    *self,
                    *goal,
                    *current,
                    max_speed,
                    table,
                ),
    {
        let table = solve_moves(*current, max_speed, solve);
        self.successors_from(goal, current, max_speed, &table)
    }
}

/// Estimated energy still needed from `point`: the straight move to the goal
/// cell at `max_speed`, then the hold until the goal time; the speed a state
/// carries plays no part.
pub fn calc_power<F: Fn(Current, i64, i64, u32) -> Option<u32>>(
    point: &PosTimeSpeed,
    goal: &PosTimeSpeed,
    current: &Current,
    max_speed: u32,
    solve: &F,
) -> (r: u64)
    requires
        solver_valid(solve),
    ensures
        point.0 == goal.0 && point.1 == goal.1 ==> r == heuristic_spec(
            without_speed(*point),
            without_speed(*goal),
            *current,
            max_speed,
            Some(0),
        ),
        (point.0 != goal.0 || point.1 != goal.1) && max_speed == 0 ==> r == UNREACHABLE_COST,
        (point.0 != goal.0 || point.1 != goal.1) && max_speed > 0 ==> exists|s: Option<u32>|
            solve.ensures(
                (*current, (goal.0 - point.0) as i64, (goal.1 - point.1) as i64, max_speed),
                s,
            ) && r == heuristic_spec(without_speed(*point), without_speed(*goal), *current, max_speed, s),
        without_speed(*point) == without_speed(*goal) ==> r == 0,
        r <= UNREACHABLE_COST,
        heuristic_may_give(solve, without_speed(*point), without_speed(*goal), *current, max_speed, r),
{
    let p = PosTime(point.0, point.1, point.2);
    let g = PosTime(goal.0, goal.1, goal.2);
    assert(p == without_speed(*point) && g == without_speed(*goal));
    calc_power_hueristic(&p, &g, current, max_speed, solve)
}

/// The goal is reached: its cell at its time, whatever the speed.
pub fn goal_reached(point: &PosTimeSpeed, goal: &PosTimeSpeed) -> (r: bool)
    ensures
        r == (without_speed(*point) == without_speed(*goal)),
{
    point.0 == goal.0 && point.1 == goal.1 && point.2 == goal.2
}

/// `path` is a plan for `goal`: it leaves the origin at time 0 and speed 0,
/// ends at the goal cell at the goal time, and each state is a legal step
/// from the one before it.
pub open spec fn speed_plan_ok(path: Seq<PosTimeSpeed>, goal: PosTimeSpeed) -> bool {
    &&& path.len() >= 1
    &&& path[0] == PosTimeSpeed(0, 0, 0, 0)
    &&& without_speed(path.last()) == without_speed(goal)
    &&& forall|i: int|
        0 <= i < path.len() - 1 ==> #[trigger] step_ok(
            without_speed(path[i]),
            without_speed(path[i + 1]),
            without_speed(goal),
        )
}

/// The heuristic never overestimates: no path along the variable-speed
/// edges from a state to the goal cell at the goal time spends less energy
/// than the heuristic value of that state.
pub open spec fn speed_heuristic_admissible<F: Fn(Current, i64, i64, u32) -> Option<u32>>(
    solve: &F,
    goal: PosTimeSpeed,
    current: Current,
    max_speed: u32,
    table: Seq<Option<u32>>,
) -> bool {
    forall|h: u64, path: Seq<PosTimeSpeed>, costs: Seq<u64>|
        #[trigger] heuristic_may_give(
            solve,
            without_speed(path[0]),
            without_speed(goal),
            current,
            max_speed,
            h,
        ) && #[trigger] edges_in(speed_rel(goal, current, max_speed, table), path, costs)
            && without_speed(path.last()) == without_speed(goal) ==> h <= total(costs)
}

/// No variable-speed plan spends less energy than `energy`.
pub open spec fn least_speed_energy(
    energy: u64,
    goal: PosTimeSpeed,
    current: Current,
    max_speed: u32,
    table: Seq<Option<u32>>,
) -> bool {
    forall|path: Seq<PosTimeSpeed>, costs: Seq<u64>|
        #[trigger] is_speed_plan(path, costs, goal, current, max_speed, table) ==> energy <= total(
            costs,
        )
}

/// Relies on pathfinding::directed::astar::astar, run from the origin at
/// time 0 and speed 0 with `PosTimeSpeed::successors_from` as successor
/// function, `calc_power` as heuristic and `goal_reached` as success test.
/// Where it returns a path, the path begins at the start, each later state
/// is a successor of the one before, the success test held on the last
/// state, and the returned cost is the sum of the edges' costs. Where the
/// start passes the test, the path is the start alone. It returns `None` only
/// after every state reachable from the start failed the test. Where the
/// heuristic never overestimates, no path to a state that passes the test
/// costs less. Costs are added along paths from the start, with a heuristic
/// value of at most `UNREACHABLE_COST` on top: those sums must fit.
#[verifier::external_body]
fn astar_speed_plan<F: Fn(Current, i64, i64, u32) -> Option<u32>>(
    goal: &PosTimeSpeed,
    current: &Current,
    max_speed: u32,
    moves: &Vec<Option<u32>>,
    solve: &F,
) -> (r: Option<(Vec<PosTimeSpeed>, u64)>)
    requires
        solver_valid(solve),
        moves@.len() == NUM_MOVES,
        forall|path: Seq<PosTimeSpeed>, costs: Seq<u64>|
            #[trigger] edges_in(speed_rel(*goal, *current, max_speed, moves@), path, costs)
                && path[0] == PosTimeSpeed(0, 0, 0, 0) ==> total(costs) + UNREACHABLE_COST
                <= u64::MAX,
    ensures
        speed_plan_outcome(r, *goal, *current, max_speed, moves@),
        r matches Some((path, c)) ==> (without_speed(*goal) == PosTime(0, 0, 0) ==> path@
            == seq![PosTimeSpeed(0, 0, 0, 0)] && c == 0),
        without_speed(*goal) == PosTime(0, 0, 0) ==> r is Some,
        r matches Some((_, c)) ==> (speed_heuristic_admissible(
            solve,
            *goal,
            *current,
            max_speed,
            moves@,
        ) ==> least_speed_energy(c, *goal, *current, max_speed, moves@)),
{
    pathfinding::prelude::astar(
        &PosTimeSpeed(0, 0, 0, 0),
        |p: &PosTimeSpeed| p.successors_from(goal, current, max_speed, moves),
        |p: &PosTimeSpeed| calc_power(p, goal, current, max_speed, solve),
        |p: &PosTimeSpeed| goal_reached(p, goal),
    )
}

/// Searches for a route from the origin at time 0 to the cell and time of
/// `goal` along the variable-speed edges.
fn search_plan<F: Fn(Current, i64, i64, u32) -> Option<u32>>(
    goal: PosTimeSpeed,
    current: Current,
    max_speed: u32,
    solve: &F,
) -> (r: Option<(Vec<PosTimeSpeed>, u64)>)
    requires
        solver_valid(solve),
    ensures
        exists|table: Seq<Option<u32>>|
            solver_table(solve, current, max_speed, table) && speed_plan_outcome(
                r,
                goal,
                current,
                max_speed,
                table,
            ) && (r matches Some((_, c)) ==> (speed_heuristic_admissible(
                solve,
                goal,
                current,
                max_speed,
                table,
            ) ==> least_speed_energy(c, goal, current, max_speed, table))),
        r matches Some((path, _)) ==> speed_plan_ok(path@, goal),
        without_speed(goal) == PosTime(0, 0, 0) ==> (r matches Some((path, c)) && path@ == seq![
            PosTimeSpeed(0, 0, 0, 0),
        ] && c == 0),
{
    let moves = solve_moves(current, max_speed, solve);
    let ghost g = without_speed(goal);
    proof {
        assert forall|path: Seq<PosTimeSpeed>, costs: Seq<u64>|
            #[trigger] edges_in(speed_rel(goal, current, max_speed, moves@), path, costs)
                && path[0] == PosTimeSpeed(0, 0, 0, 0) implies total(costs) + UNREACHABLE_COST
            <= u64::MAX by {
            lemma_speed_walk_projects(path, costs, goal, current, max_speed, moves@);
            let pp = path.map_values(|p: PosTimeSpeed| without_speed(p));
            lemma_plan_walk_energy(pp, costs, g, current, max_speed, moves@);
        }
    }
    let result = astar_speed_plan(&goal, &current, max_speed, &moves, solve);
    proof {
        if let Some((path, c)) = &result {
            let costs = choose|costs: Seq<u64>|
                is_speed_plan(path@, costs, goal, current, max_speed, moves@) && *c == total(costs);
            lemma_speed_walk_projects(path@, costs, goal, current, max_speed, moves@);
            let pp = path@.map_values(|p: PosTimeSpeed| without_speed(p));
            assert(is_plan(pp, costs, g, current, max_speed, moves@));
            lemma_plan_energy_below_sentinel(pp, costs, g, current, max_speed, moves@);
            assert forall|i: int| 0 <= i < path@.len() - 1 implies #[trigger] step_ok(
                without_speed(path@[i]),
                without_speed(path@[i + 1]),
                g,
            ) by {
                assert(step_ok(pp[i], pp[i + 1], g));
            }
        }
    }
    result
}

/// Plans a route, choosing a through-water speed for every move, from the
/// origin at time 0 to the cell and time of `goal` through the drift
/// `current`, at speeds up to `max_speed`, with `solve` giving the time of
/// each move. A largest speed of zero is refused. Otherwise returns the
/// states of a route and its energy in milli-energy, or `None` exactly where
/// no route arrives in time inside the searched square. The route spends the
/// least energy wherever the heuristic never overestimates.
pub fn run_astar<F: Fn(Current, i64, i64, u32) -> Option<u32>>(
    goal: PosTimeSpeed,
    current: Current,
    max_speed: u32,
    solve: &F,
) -> (r: Result<Option<(Vec<PosTimeSpeed>, u64)>, PlanError>)
    requires
        solver_valid(solve),
    ensures
        max_speed == 0 <==> r is Err,
        r matches Err(e) ==> e == PlanError::NonPositiveMaxSpeed,
        r matches Ok(o) ==> exists|table: Seq<Option<u32>>|
            solver_table(solve, current, max_speed, table) && speed_plan_outcome(
                o,
                goal,
                current,
                max_speed,
                table,
            ) && (o matches Some((_, c)) ==> (speed_heuristic_admissible(
                solve,
                goal,
                current,
                max_speed,
                table,
            ) ==> least_speed_energy(c, goal, current, max_speed, table))),
        r matches Ok(Some((path, _))) ==> speed_plan_ok(path@, goal),
        max_speed > 0 && without_speed(goal) == PosTime(0, 0, 0) ==> (r matches Ok(Some((path, c))) && path@ == seq![
            PosTimeSpeed(0, 0, 0, 0),
        ] && c == 0),
{
    if max_speed == 0 {
        return Err(PlanError::NonPositiveMaxSpeed);
    }
    Ok(search_plan(goal, current, max_speed, solve))
}

} // verus!
