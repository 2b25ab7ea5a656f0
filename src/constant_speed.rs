use vstd::prelude::*;
use crate::kinematics::solver_valid;
use crate::planning::{neighbor_offset, neighbor_offset_spec};
use crate::search::{edges_in, lemma_total_bound, total};
use vstd::arithmetic::div_mod::lemma_fundamental_div_mod_converse;
use vstd::arithmetic::power2::{
    lemma2_to64, lemma_pow2_pos, lemma_pow2_strictly_increases, lemma_pow2_unfold, pow2,
};
use vstd::set_lib::{lemma_int_range, lemma_len_subset, lemma_map_size_bound, set_int_range};
use crate::state::{Current, Pos};

verus! {

/// Cells farther than this from the origin along either axis are not
/// expanded when searching at a constant speed.
pub const CONSTANT_SPEED_CUTOFF: i32 = 500;

/// Moves that take longer than this many ticks are not taken. Like the
/// cutoff, this bounds the search; it is a safety valve, not part of what
/// makes a route correct.
pub const MAX_TRAVERSAL_TICKS: u32 = 10000;

/// Arrival times within this many ticks of the desired one are accepted by
/// the speed calibration.
pub const TIME_TOLERANCE: u64 = 250;

/// `answers` holds, for each of the eight neighbours, what the solver
/// answered for the move to it at `speed`; at speed 0 there is no answer.
pub open spec fn neighbor_answers<F: Fn(Current, i64, i64, u32) -> Option<u32>>(
    solve: &F,
    current: Current,
    speed: u32,
    answers: Seq<Option<u32>>,
) -> bool {
    &&& answers.len() == 8
    &&& forall|k: int|
        0 <= k < 8 ==> if speed == 0 {
            #[trigger] answers[k] is None
        } else {
            solve.ensures(
                (current, neighbor_offset_spec(k).0 as i64, neighbor_offset_spec(k).1 as i64, speed),
                answers[k],
            )
        }
}

/// The successor through neighbour `k`, with its duration as cost, where the
/// move was found and takes at most `MAX_TRAVERSAL_TICKS`.
pub open spec fn pos_entry(p: Pos, answers: Seq<Option<u32>>, k: int) -> Seq<(Pos, u64)> {
    match answers[k] {
        Some(t) => if t <= MAX_TRAVERSAL_TICKS {
            seq![
                (
                    Pos((p.0 + neighbor_offset_spec(k).0) as i32, (p.1 + neighbor_offset_spec(k).1) as i32),
                    t as u64,
                ),
            ]
        } else {
            seq![]
        },
        None => seq![],
    }
}

/// The successors through the first `n` neighbours, in neighbour order.
pub open spec fn pos_successors(p: Pos, answers: Seq<Option<u32>>, n: nat) -> Seq<(Pos, u64)>
    decreases n,
{
    if n == 0 {
        seq![]
    } else {
        pos_successors(p, answers, (n - 1) as nat) + pos_entry(p, answers, n - 1)
    }
}

/// `p` lies outside the square searched at constant speed.
pub open spec fn pos_beyond_cutoff(p: Pos) -> bool {
    p.0 > CONSTANT_SPEED_CUTOFF || p.0 < -CONSTANT_SPEED_CUTOFF || p.1 > CONSTANT_SPEED_CUTOFF
        || p.1 < -CONSTANT_SPEED_CUTOFF
}

/// The successors of `p`: none beyond the cutoff, otherwise every neighbour
/// that the solver reached within `MAX_TRAVERSAL_TICKS`.
pub open spec fn pos_successors_spec(p: Pos, answers: Seq<Option<u32>>) -> Seq<(Pos, u64)> {
    if pos_beyond_cutoff(p) {
        seq![]
    } else {
        pos_successors(p, answers, 8)
    }
}

/// `b` is one of the eight neighbours of `a`.
pub open spec fn adjacent(a: Pos, b: Pos) -> bool {
    -1 <= b.0 - a.0 <= 1 && -1 <= b.1 - a.1 <= 1 && (a.0 != b.0 || a.1 != b.1)
}

/// `path` leaves the origin, ends at `goal`, and moves between neighbours.
pub open spec fn route_ok(path: Seq<Pos>, goal: Pos) -> bool {
    &&& path.len() >= 1
    &&& path[0] == Pos(0, 0)
    &&& path.last() == goal
    &&& forall|i: int| 0 <= i < path.len() - 1 ==> #[trigger] adjacent(path[i], path[i + 1])
}

proof fn lemma_pos_successors_adjacent(p: Pos, answers: Seq<Option<u32>>, n: nat)
    requires
        n <= 8,
        answers.len() == 8,
        !pos_beyond_cutoff(p),
    ensures
        forall|i: int|
            0 <= i < pos_successors(p, answers, n).len() ==> adjacent(
                p,
                (#[trigger] pos_successors(p, answers, n)[i]).0,
            ) && pos_successors(p, answers, n)[i].1 <= MAX_TRAVERSAL_TICKS,
    decreases n,
{
    if n > 0 {
        lemma_pos_successors_adjacent(p, answers, (n - 1) as nat);
        let prev = pos_successors(p, answers, (n - 1) as nat);
        let e = pos_entry(p, answers, n - 1);
        assert forall|i: int| 0 <= i < prev.len() + e.len() implies adjacent(
            p,
            (#[trigger] (prev + e)[i]).0,
        ) && (prev + e)[i].1 <= MAX_TRAVERSAL_TICKS by {
            if i >= prev.len() {
                assert((prev + e)[i] == e[i - prev.len()]);
            } else {
                assert((prev + e)[i] == prev[i]);
            }
        }
    }
}

/// Every successor of `p` is one of its neighbours.
pub proof fn lemma_pos_successors_spec_adjacent(p: Pos, answers: Seq<Option<u32>>)
    requires
        answers.len() == 8,
    ensures
        forall|i: int|
            0 <= i < pos_successors_spec(p, answers).len() ==> adjacent(
                p,
                (#[trigger] pos_successors_spec(p, answers)[i]).0,
            ) && pos_successors_spec(p, answers)[i].1 <= MAX_TRAVERSAL_TICKS && !pos_beyond_cutoff(p),
{
    if !pos_beyond_cutoff(p) {
        lemma_pos_successors_adjacent(p, answers, 8);
    }
}

/// Asks the solver for the move to each of the eight neighbours at `speed`.
pub fn solve_neighbors<F: Fn(Current, i64, i64, u32) -> Option<u32>>(
    current: Current,
    speed: u32,
    solve: &F,
) -> (r: Vec<Option<u32>>)
    requires
        solver_valid(solve),
    ensures
        neighbor_answers(solve, current, speed, r@),
{
    let mut answers: Vec<Option<u32>> = Vec::new();
    let mut k: usize = 0;
    while k < 8
        invariant
            k <= 8,
            answers@.len() == k,
            solver_valid(solve),
            forall|m: int|
                0 <= m < k ==> if speed == 0 {
                    #[trigger] answers@[m] is None
                } else {
                    solve.ensures(
                        (
                            current,
                            neighbor_offset_spec(m).0 as i64,
                            neighbor_offset_spec(m).1 as i64,
                            speed,
                        ),
                        answers@[m],
                    )
                },
        decreases 8 - k,
    {
        let offset = neighbor_offset(k);
        if speed == 0 {
            answers.push(None);
        } else {
            assert(solve.requires((current, offset.0 as i64, offset.1 as i64, speed)));
            let answer = solve(current, offset.0 as i64, offset.1 as i64, speed);
            answers.push(answer);
        }
        k += 1;
    }
    answers
}

impl Pos {
    /// The neighbours reachable from this cell, each with the ticks the move
    /// takes, given the solver's answer for each neighbour.
    pub fn successors_from(&self, answers: &Vec<Option<u32>>) -> (r: Vec<(Pos, u64)>)
        requires
            answers@.len() == 8,
        ensures
            r@ == pos_successors_spec(*self, answers@),
            forall|i: int| 0 <= i < r@.len() ==> adjacent(*self, (#[trigger] r@[i]).0),
    {
        proof {
            lemma_pos_successors_spec_adjacent(*self, answers@);
        }
        if self.0 > CONSTANT_SPEED_CUTOFF || self.0 < -CONSTANT_SPEED_CUTOFF || self.1
            > CONSTANT_SPEED_CUTOFF || self.1 < -CONSTANT_SPEED_CUTOFF {
            return Vec::new();
        }
        let mut out: Vec<(Pos, u64)> = Vec::new();
        let mut k: usize = 0;
        while k < 8
            invariant
                k <= 8,
                answers@.len() == 8,
                !pos_beyond_cutoff(*self),
                out@ == pos_successors(*self, answers@, k as nat),
            decreases 8 - k,
        {
            let offset = neighbor_offset(k);
            let ghost before = out@;
            match answers[k] {
                Some(t) => if t <= MAX_TRAVERSAL_TICKS {
                    out.push((Pos(self.0 + offset.0, self.1 + offset.1), t as u64));
                },
                None => {},
            }
            assert(out@ == before + pos_entry(*self, answers@, k as int));
            k += 1;
        }
        assert(out@ == pos_successors_spec(*self, answers@));
        assert forall|i: int| 0 <= i < out@.len() implies adjacent(*self, (#[trigger] out@[i]).0) by {
            assert(pos_successors_spec(*self, answers@)[i] == out@[i]);
        }
        out
    }

    /// The neighbours reachable from this cell at the constant through-water
    /// speed `speed`, each with the ticks the move takes.
    pub fn successors<F: Fn(Current, i64, i64, u32) -> Option<u32>>(
        &self,
        current: Current,
        speed: u32,
        solve: &F,
    ) -> (r: Vec<(Pos, u64)>)
        requires
            solver_valid(solve),
        ensures
            exists|answers: Seq<Option<u32>>|
                neighbor_answers(solve, current, speed, answers) && r@ == pos_successors_spec(
                    *self,
                    answers,
                ),
            forall|i: int| 0 <= i < r@.len() ==> adjacent(*self, (#[trigger] r@[i]).0),
    {
        let answers = solve_neighbors(current, speed, solve);
        self.successors_from(&answers)
    }
}

/// `p` is the goal cell.
pub fn at_goal_cell(p: &Pos, goal: &Pos) -> (r: bool)
    ensures
        r == (*p == *goal),
{
    p.0 == goal.0 && p.1 == goal.1
}

/// Cells `p` with both coordinates within `n` of the origin.
pub open spec fn within_square(p: Pos, n: int) -> bool {
    -n <= p.0 <= n && -n <= p.1 <= n
}

/// A sequence of distinct cells inside the square of half-width `n` has at
/// most `(2n + 1)^2` of them.
pub proof fn lemma_distinct_cells_bounded(s: Seq<Pos>, n: int)
    requires
        0 <= n,
        s.no_duplicates(),
        forall|i: int| 0 <= i < s.len() ==> within_square(#[trigger] s[i], n),
    ensures
        s.len() <= (2 * n + 1) * (2 * n + 1),
{
    let w = 2 * n + 1;
    let g = |i: int| Pos((i / w - n) as i32, (i % w - n) as i32);
    let range = set_int_range(0, w * w);
    lemma_int_range(0, w * w);
    let square = range.map(g);
    lemma_map_size_bound(range, square, g);
    assert forall|p: Pos| s.to_set().contains(p) implies square.contains(p) by {
        let j = choose|j: int| 0 <= j < s.len() && s[j] == p;
        assert(within_square(s[j], n));
        let i = (p.0 + n) * w + (p.1 + n);
        lemma_fundamental_div_mod_converse(i, w, p.0 + n, p.1 + n);
        assert(0 <= i < w * w) by (nonlinear_arith)
            requires i == (p.0 + n) * w + (p.1 + n), 0 <= p.0 + n < w, 0 <= p.1 + n < w;
        assert(range.contains(i));
        assert(g(i) == p);
    }
    lemma_len_subset(s.to_set(), square);
    s.unique_seq_to_set();
}

/// The constant-speed edges.
pub open spec fn pos_rel(answers: Seq<Option<u32>>) -> spec_fn(Pos) -> Seq<(Pos, u64)> {
    |p: Pos| pos_successors_spec(p, answers)
}

/// `path` leaves the origin, ends at `goal` and follows the constant-speed
/// edges, the `i`-th taking `costs[i]` ticks.
pub open spec fn is_route(path: Seq<Pos>, costs: Seq<u64>, goal: Pos, answers: Seq<Option<u32>>) -> bool {
    &&& path.len() >= 1
    &&& path[0] == Pos(0, 0)
    &&& path.last() == goal
    &&& edges_in(pos_rel(answers), path, costs)
}

/// `arrival` is the time of the fastest route to `goal`, or `None` where
/// there is no route.
pub open spec fn fastest_arrival(goal: Pos, answers: Seq<Option<u32>>, arrival: Option<u64>) -> bool {
    match arrival {
        Some(a) => (exists|path: Seq<Pos>, costs: Seq<u64>|
            is_route(path, costs, goal, answers) && a == total(costs)) && forall|
            path: Seq<Pos>,
            costs: Seq<u64>,
        | #[trigger] is_route(path, costs, goal, answers) ==> a <= total(costs),
        None => forall|path: Seq<Pos>, costs: Seq<u64>| !#[trigger] is_route(path, costs, goal, answers),
    }
}

/// What the constant-speed search may return: a fastest route with its
/// time, or `None` exactly where no route exists.
pub open spec fn route_outcome(r: Option<(Vec<Pos>, u64)>, goal: Pos, answers: Seq<Option<u32>>) -> bool {
    match r {
        Some((path, c)) => (exists|costs: Seq<u64>|
            is_route(path@, costs, goal, answers) && c == total(costs)) && fastest_arrival(
            goal,
            answers,
            Some(c),
        ),
        None => fastest_arrival(goal, answers, None),
    }
}

/// Every cell of a path along the constant-speed edges from the origin lies
/// within one cell of the searched square; so no route reaches a goal beyond.
pub proof fn lemma_route_cells(path: Seq<Pos>, costs: Seq<u64>, answers: Seq<Option<u32>>)
    requires
        answers.len() == 8,
        path.len() >= 1,
        path[0] == Pos(0, 0),
        edges_in(pos_rel(answers), path, costs),
    ensures
        forall|i: int| 0 <= i < path.len() ==> within_square(#[trigger] path[i], CONSTANT_SPEED_CUTOFF + 1),
        forall|i: int| 0 <= i < costs.len() ==> #[trigger] costs[i] <= MAX_TRAVERSAL_TICKS,
{
    let rel = pos_rel(answers);
    assert forall|i: int| 0 <= i < costs.len() implies adjacent(path[i], path[i + 1])
        && !pos_beyond_cutoff(path[i]) && #[trigger] costs[i] <= MAX_TRAVERSAL_TICKS by {
        assert(rel(path[i]).contains((path[i + 1], costs[i])));
        lemma_pos_successors_spec_adjacent(path[i], answers);
        let k = choose|k: int|
            0 <= k < pos_successors_spec(path[i], answers).len() && pos_successors_spec(
                path[i],
                answers,
            )[k] == (path[i + 1], costs[i]);
        assert(pos_successors_spec(path[i], answers)[k] == (path[i + 1], costs[i]));
    }
    assert forall|i: int| 0 <= i < path.len() implies within_square(
        #[trigger] path[i],
        CONSTANT_SPEED_CUTOFF + 1,
    ) by {
        if i > 0 {
            let j = i - 1;
            assert(costs[j] <= MAX_TRAVERSAL_TICKS);
            assert(adjacent(path[j], path[j + 1]) && !pos_beyond_cutoff(path[j]));
        }
    }
}

/// No route reaches a goal more than one cell beyond the searched square.
pub proof fn lemma_no_route_beyond_square(goal: Pos, answers: Seq<Option<u32>>)
    requires
        answers.len() == 8,
        !within_square(goal, CONSTANT_SPEED_CUTOFF + 1),
    ensures
        forall|path: Seq<Pos>, costs: Seq<u64>| !#[trigger] is_route(path, costs, goal, answers),
{
    assert forall|path: Seq<Pos>, costs: Seq<u64>| !#[trigger] is_route(path, costs, goal, answers) by {
        if is_route(path, costs, goal, answers) {
            lemma_route_cells(path, costs, answers);
            assert(within_square(path[path.len() - 1], CONSTANT_SPEED_CUTOFF + 1));
        }
    }
}

/// Sums of times along paths from the origin that repeat no cell before
/// their end stay far below `u64::MAX`.
proof fn lemma_route_time_fits(path: Seq<Pos>, costs: Seq<u64>, answers: Seq<Option<u32>>)
    requires
        answers.len() == 8,
        path.len() >= 1,
        path[0] == Pos(0, 0),
        path.drop_last().no_duplicates(),
        edges_in(pos_rel(answers), path, costs),
    ensures
        total(costs) <= 1003 * 1003 * 10000,
{
    lemma_route_cells(path, costs, answers);
    let prefix = path.drop_last();
    assert forall|i: int| 0 <= i < prefix.len() implies within_square(
        #[trigger] prefix[i],
        CONSTANT_SPEED_CUTOFF + 1,
    ) by {
        assert(prefix[i] == path[i]);
    }
    lemma_distinct_cells_bounded(prefix, CONSTANT_SPEED_CUTOFF + 1);
    lemma_total_bound(costs, MAX_TRAVERSAL_TICKS as int);
    assert(costs.len() * 10000 <= 1003 * 1003 * 10000) by (nonlinear_arith)
        requires costs.len() <= 1003 * 1003;
}

/// The arrival time that a search result gives, if any.
pub open spec fn arrival_of(r: Option<(Vec<Pos>, u64)>) -> Option<u64> {
    match r {
        Some((_, c)) => Some(c),
        None => None,
    }
}

/// Relies on pathfinding::directed::dijkstra::dijkstra, run from the origin
/// with `Pos::successors_from` as successor function and `at_goal_cell` as
/// success test. Where it returns a path, the path begins at the start, each
/// later cell is a successor of the one before, the success test held on the
/// last cell, the returned cost is the sum of the edges' costs, and no path
/// to a cell that passes the test costs less. Where the start passes the
/// test, the path is the start alone. It returns `None` only after every cell
/// reachable from the start failed the test. Costs are added along paths from
/// the start that repeat no cell before their end: those sums must fit.
#[verifier::external_body]
fn dijkstra_route(goal: &Pos, answers: &Vec<Option<u32>>) -> (r: Option<(Vec<Pos>, u64)>)
    requires
        answers@.len() == 8,
        forall|path: Seq<Pos>, costs: Seq<u64>|
            #[trigger] edges_in(pos_rel(answers@), path, costs) && path[0] == Pos(0, 0)
                && path.drop_last().no_duplicates() ==> total(costs) <= u64::MAX,
    ensures
        route_outcome(r, *goal, answers@),
        r matches Some((path, c)) ==> (*goal == Pos(0, 0) ==> path@ == seq![*goal] && c == 0),
        *goal == Pos(0, 0) ==> r is Some,
{
    pathfinding::prelude::dijkstra(
        &Pos(0, 0),
        |p: &Pos| p.successors_from(answers),
        |p: &Pos| at_goal_cell(p, goal),
    )
}

/// Finds the fastest route from the origin to `goal` when moving through the
/// water at the constant speed `speed` against the drift `current`. Returns
/// the cells of the route and its duration in ticks, or `None` exactly where
/// no route exists inside the searched square.
pub fn run_dijkstra<F: Fn(Current, i64, i64, u32) -> Option<u32>>(
    goal: Pos,
    current: Current,
    speed: u32,
    solve: &F,
) -> (r: Option<(Vec<Pos>, u64)>)
    requires
        solver_valid(solve),
    ensures
        exists|answers: Seq<Option<u32>>|
            neighbor_answers(solve, current, speed, answers) && route_outcome(r, goal, answers),
        possible_arrival(solve, goal, current, speed, arrival_of(r)),
        r matches Some((path, _)) ==> route_ok(path@, goal),
        goal == Pos(0, 0) ==> (r matches Some((path, c)) && path@ == seq![goal] && c == 0),
{
    let answers = solve_neighbors(current, speed, solve);
    proof {
        assert forall|path: Seq<Pos>, costs: Seq<u64>|
            #[trigger] edges_in(pos_rel(answers@), path, costs) && path[0] == Pos(0, 0)
                && path.drop_last().no_duplicates() implies total(costs) <= u64::MAX by {
            lemma_route_time_fits(path, costs, answers@);
        }
    }
    let result = dijkstra_route(&goal, &answers);
    proof {
        if let Some((path, c)) = &result {
            let costs = choose|costs: Seq<u64>| is_route(path@, costs, goal, answers@) && *c == total(costs);
            lemma_route_cells(path@, costs, answers@);
            let rel = pos_rel(answers@);
            assert forall|i: int| 0 <= i < path@.len() - 1 implies #[trigger] adjacent(
                path@[i],
                path@[i + 1],
            ) by {
                assert(rel(path@[i]).contains((path@[i + 1], costs[i])));
                lemma_pos_successors_spec_adjacent(path@[i], answers@);
                let k = choose|k: int|
                    0 <= k < pos_successors_spec(path@[i], answers@).len() && pos_successors_spec(
                        path@[i],
                        answers@,
                    )[k] == (path@[i + 1], costs[i]);
                assert(pos_successors_spec(path@[i], answers@)[k] == (path@[i + 1], costs[i]));
            }
        }
        assert(fastest_arrival(goal, answers@, arrival_of(result)));
    }
    result
}

/// A solver that answers alike each time leaves one possible answer for the
/// constant-speed search at a given speed: running it again at the same
/// speed arrives at the same time.
pub proof fn lemma_arrival_unique<F: Fn(Current, i64, i64, u32) -> Option<u32>>(
    solve: &F,
    goal: Pos,
    current: Current,
    speed: u32,
    first: Option<u64>,
    second: Option<u64>,
)
    requires
        solver_valid(solve),
        possible_arrival(solve, goal, current, speed, first),
        possible_arrival(solve, goal, current, speed, second),
    ensures
        first == second,
{
    let a1 = choose|a: Seq<Option<u32>>|
        neighbor_answers(solve, current, speed, a) && fastest_arrival(goal, a, first);
    let a2 = choose|a: Seq<Option<u32>>|
        neighbor_answers(solve, current, speed, a) && fastest_arrival(goal, a, second);
    assert forall|k: int| 0 <= k < 8 implies a1[k] == a2[k] by {
        if speed != 0 {
            let q = (current, neighbor_offset_spec(k).0 as i64, neighbor_offset_spec(k).1 as i64, speed);
            assert(solve.ensures(q, a1[k]) && solve.ensures(q, a2[k]));
        }
    }
    assert(a1 =~= a2);
    match (first, second) {
        (Some(x), Some(y)) => {
            let (p1, c1) = choose|path: Seq<Pos>, costs: Seq<u64>|
                is_route(path, costs, goal, a1) && x == total(costs);
            let (p2, c2) = choose|path: Seq<Pos>, costs: Seq<u64>|
                is_route(path, costs, goal, a2) && y == total(costs);
            assert(is_route(p2, c2, goal, a1));
            assert(is_route(p1, c1, goal, a2));
        },
        (Some(x), None) => {
            let (p1, c1) = choose|path: Seq<Pos>, costs: Seq<u64>|
                is_route(path, costs, goal, a1) && x == total(costs);
            assert(is_route(p1, c1, goal, a2));
        },
        (None, Some(y)) => {
            let (p2, c2) = choose|path: Seq<Pos>, costs: Seq<u64>|
                is_route(path, costs, goal, a2) && y == total(costs);
            assert(is_route(p2, c2, goal, a1));
        },
        (None, None) => {},
    }
}

/// `arrival` is an arrival time within `TIME_TOLERANCE` of `time_goal`.
pub open spec fn within_tolerance(time_goal: u64, arrival: Option<u64>) -> bool {
    match arrival {
        Some(a) => time_goal - TIME_TOLERANCE <= a <= time_goal + TIME_TOLERANCE,
        None => false,
    }
}

/// The speed bracket after trying `mid`: where no route was found, or the
/// route arrives at or after the desired time, faster speeds are needed;
/// where it arrives early, slower ones suffice.
pub open spec fn bisect_spec(low: u32, high: u32, mid: u32, time_goal: u64, arrival: Option<u64>) -> (
    u32,
    u32,
) {
    match arrival {
        Some(a) => if time_goal > a {
            (low, mid)
        } else {
            (mid, high)
        },
        None => (mid, high),
    }
}

/// Whether `arrival` is within `TIME_TOLERANCE` of `time_goal`.
pub fn arrival_within_tolerance(time_goal: u64, arrival: Option<u64>) -> (r: bool)
    ensures
        r == within_tolerance(time_goal, arrival),
{
    match arrival {
        Some(a) => time_goal as u128 <= a as u128 + TIME_TOLERANCE as u128 && a as u128
            <= time_goal as u128 + TIME_TOLERANCE as u128,
        None => false,
    }
}

/// Narrows the speed bracket `[low, high]` after the search at `mid`
/// answered `arrival`.
pub fn bisect_step(low: u32, high: u32, mid: u32, time_goal: u64, arrival: Option<u64>) -> (r: (
    u32,
    u32,
))
    ensures
        r == bisect_spec(low, high, mid, time_goal, arrival),
{
    match arrival {
        Some(a) => if time_goal > a {
            (low, mid)
        } else {
            (mid, high)
        },
        None => (mid, high),
    }
}

/// `arrival` is an answer that the constant-speed search may give at
/// `speed`: the time of a fastest route, or `None` where there is no route.
pub open spec fn possible_arrival<F: Fn(Current, i64, i64, u32) -> Option<u32>>(
    solve: &F,
    goal: Pos,
    current: Current,
    speed: u32,
    arrival: Option<u64>,
) -> bool {
    exists|answers: Seq<Option<u32>>|
        neighbor_answers(solve, current, speed, answers) && fastest_arrival(goal, answers, arrival)
}

/// The bisection goes on: the bracket still holds a speed strictly inside
/// it, and the last arrival missed the tolerance.
pub open spec fn bisect_continues(low: u32, high: u32, time_goal: u64, arrival: Option<u64>) -> bool {
    high - low > 1 && !within_tolerance(time_goal, arrival)
}

/// The speed tried next: the middle of the bracket, rounded down.
pub open spec fn bisect_mid(low: u32, high: u32) -> u32 {
    (low + (high - low) / 2) as u32
}

/// The result of the bisection from the bracket `[low, high]`, after the
/// speed `mid` was answered `arrival`, when the later tries are answered
/// `trace` in order: the last speed tried and its arrival where that arrival
/// is within the tolerance, `None` otherwise.
pub open spec fn bisect_outcome(
    low: u32,
    high: u32,
    mid: u32,
    arrival: Option<u64>,
    time_goal: u64,
    trace: Seq<Option<u64>>,
) -> Option<(u32, u64)>
    decreases trace.len(),
{
    if bisect_continues(low, high, time_goal, arrival) && trace.len() > 0 {
        let m = bisect_mid(low, high);
        let next = bisect_spec(low, high, m, time_goal, trace[0]);
        bisect_outcome(next.0, next.1, m, trace[0], time_goal, trace.drop_first())
    } else {
        match arrival {
            Some(a) => if within_tolerance(time_goal, arrival) {
                Some((mid, a))
            } else {
                None
            },
            None => None,
        }
    }
}

/// `trace` holds, in order, one possible search answer for each speed that
/// the bisection from `[low, high]` tries, and no more.
pub open spec fn bisect_trace<F: Fn(Current, i64, i64, u32) -> Option<u32>>(
    solve: &F,
    goal: Pos,
    current: Current,
    low: u32,
    high: u32,
    arrival: Option<u64>,
    time_goal: u64,
    trace: Seq<Option<u64>>,
) -> bool
    decreases trace.len(),
{
    if bisect_continues(low, high, time_goal, arrival) {
        &&& trace.len() > 0
        &&& possible_arrival(solve, goal, current, bisect_mid(low, high), trace[0])
        &&& bisect_trace(
            solve,
            goal,
            current,
            bisect_spec(low, high, bisect_mid(low, high), time_goal, trace[0]).0,
            bisect_spec(low, high, bisect_mid(low, high), time_goal, trace[0]).1,
            trace[0],
            time_goal,
            trace.drop_first(),
        )
    } else {
        trace.len() == 0
    }
}

/// Searches, by bisection of `[0, max_speed]`, for a constant through-water
/// speed at which the fastest route to `goal` arrives within
/// `TIME_TOLERANCE` ticks of `time_goal`. Returns that speed and the arrival
/// time found with it, or `None` where the bracket shrank to adjacent speeds
/// first: no speed it tried fits.
pub fn find_optimal_speed<F: Fn(Current, i64, i64, u32) -> Option<u32>>(
    goal: Pos,
    current: Current,
    time_goal: u64,
    max_speed: u32,
    solve: &F,
) -> (r: Option<(u32, u64)>)
    requires
        solver_valid(solve),
    ensures
        r matches Some((speed, arrival)) ==> speed <= max_speed && within_tolerance(
            time_goal,
            Some(arrival),
        ) && possible_arrival(solve, goal, current, speed, Some(arrival)),
        exists|trace: Seq<Option<u64>>|
            bisect_trace(solve, goal, current, 0, max_speed, None, time_goal, trace) && r
                == bisect_outcome(0, max_speed, max_speed, None, time_goal, trace) && trace.len()
                <= 32 && (trace.len() > 0 ==> pow2((trace.len() - 1) as nat) <= max_speed),
{
    let mut low: u32 = 0;
    let mut high: u32 = max_speed;
    let mut mid: u32 = max_speed;
    let mut arrival: Option<u64> = None;
    let ghost mut done: Seq<Option<u64>> = seq![];
    proof {
        assert forall|rest: Seq<Option<u64>>|
            #[trigger] bisect_trace(solve, goal, current, low, high, arrival, time_goal, rest) implies bisect_trace(
            solve,
            goal,
            current,
            0,
            max_speed,
            None,
            time_goal,
            done + rest,
        ) && bisect_outcome(0, max_speed, max_speed, None, time_goal, done + rest)
            == bisect_outcome(low, high, mid, arrival, time_goal, rest) by {
            assert(done + rest =~= rest);
        }
        lemma2_to64();
    }
    while high - low > 1 && !arrival_within_tolerance(time_goal, arrival)
        invariant
            low <= high <= max_speed,
            mid <= max_speed,
            solver_valid(solve),
            arrival is Some ==> possible_arrival(solve, goal, current, mid, arrival),
            done.len() <= 32,
            done.len() > 0 ==> pow2((done.len() - 1) as nat) <= max_speed,
            (high - low) * pow2(done.len()) <= max_speed + pow2(done.len()),
            forall|rest: Seq<Option<u64>>|
                #[trigger] bisect_trace(solve, goal, current, low, high, arrival, time_goal, rest)
                    ==> bisect_trace(solve, goal, current, 0, max_speed, None, time_goal, done + rest)
                    && bisect_outcome(0, max_speed, max_speed, None, time_goal, done + rest)
                    == bisect_outcome(low, high, mid, arrival, time_goal, rest),
        decreases high - low,
    {
        let ghost (low0, high0, mid0, arrival0, done0) = (low, high, mid, arrival, done);
        mid = low + (high - low) / 2;
        let found = run_dijkstra(goal, current, mid, solve);
        arrival = match found {
            Some((_, ticks)) => Some(ticks),
            None => None,
        };
        proof {
            let answers = choose|answers: Seq<Option<u32>>|
                neighbor_answers(solve, current, mid, answers) && route_outcome(found, goal, answers);
            assert(fastest_arrival(goal, answers, arrival));
            assert(possible_arrival(solve, goal, current, mid, arrival));
        }
        let bracket = bisect_step(low, high, mid, time_goal, arrival);
        low = bracket.0;
        high = bracket.1;
        proof {
            let k = done0.len();
            let p = pow2(k);
            let w = high0 - low0;
            lemma2_to64();
            lemma_pow2_pos(k);
            assert(p <= max_speed) by (nonlinear_arith)
                requires w >= 2, w * p <= max_speed + p, p > 0;
            if k >= 32 {
                if k > 32 {
                    lemma_pow2_strictly_increases(32, k);
                }
                assert(false);
            }
            lemma_pow2_unfold(k + 1);
            assert(2 * (high - low) <= w + 1);
            assert((high - low) * pow2(k + 1) <= max_speed + pow2(k + 1)) by (nonlinear_arith)
                requires 2 * (high - low) <= w + 1, w * p <= max_speed + p, pow2(k + 1) == 2 * p,
                    high - low >= 0;
            done = done0.push(arrival);
            assert(mid == bisect_mid(low0, high0));
            assert(bisect_continues(low0, high0, time_goal, arrival0));
            assert forall|rest: Seq<Option<u64>>|
                #[trigger] bisect_trace(solve, goal, current, low, high, arrival, time_goal, rest) implies bisect_trace(
                solve,
                goal,
                current,
                0,
                max_speed,
                None,
                time_goal,
                done + rest,
            ) && bisect_outcome(0, max_speed, max_speed, None, time_goal, done + rest)
                == bisect_outcome(low, high, mid, arrival, time_goal, rest) by {
                let longer = seq![arrival] + rest;
                assert(longer[0] == arrival);
                assert(longer.drop_first() =~= rest);
                assert(bisect_trace(solve, goal, current, low0, high0, arrival0, time_goal, longer));
                assert(bisect_outcome(low0, high0, mid0, arrival0, time_goal, longer)
                    == bisect_outcome(low, high, mid, arrival, time_goal, rest));
                assert(done0 + longer =~= done + rest);
            }
        }
    }
    proof {
        assert(bisect_trace(solve, goal, current, low, high, arrival, time_goal, seq![]));
        assert(done + seq![] =~= done);
    }
    match arrival {
        Some(ticks) => if arrival_within_tolerance(time_goal, arrival) {
            Some((mid, ticks))
        } else {
            None
        },
        None => None,
    }
}

} // verus!
