use drift_planner::constant_speed::{
    arrival_within_tolerance, bisect_step, find_optimal_speed, run_dijkstra, TIME_TOLERANCE,
};
use drift_planner::dynamics::energy_use;
use drift_planner::kinematics::{calc_traversal_power, calculate_traversal_time, fit_deadline};
use drift_planner::planning::{
    at_goal, calc_power_hueristic, find_successors, heuristic_from, run_astar, solve_moves,
    successors_from_table, NUM_MOVES, UNREACHABLE_COST,
};
use drift_planner::state::{Current, PlanError, Pos, PosTime, PosTimeSpeed};
use drift_planner::fixed_speed;
use drift_planner::variable_speed;
use eqsolver::single_variable::FDNewton;

/// Time, in ticks, to cover the displacement `(dx, dy)` at `speed`
/// milli-speed while steering against `current`, found by Newton's method
/// from 0.5 and rounded to the nearest tick.
fn solver(current: Current, dx: i64, dy: i64, speed: u32) -> Option<u32> {
    let magnitude = current.magnitude as f64 / 1000.0;
    let direction = current.direction as f64 / 1000.0;
    let water_speed = speed as f64 / 1000.0;
    let distance = ((dx * dx + dy * dy) as f64).sqrt();
    let bearing = (dx as f64).atan2(dy as f64);
    let residual = |t: f64| {
        let x = distance * bearing.sin() - t * magnitude * direction.sin();
        let y = distance * bearing.cos() - t * magnitude * direction.cos();
        (x * x + y * y).sqrt() / water_speed - t
    };
    match FDNewton::new(residual).solve(0.5) {
        Ok(t) if t >= 0.0 && t * 1000.0 <= u32::MAX as f64 => Some((t * 1000.0).round() as u32),
        _ => None,
    }
}

const NO_CURRENT: Current = Current { magnitude: 0, direction: 0 };

#[test]
fn test_calculate_traversal_time_wo_current() {
    let result1 = calculate_traversal_time((0, 0), (2, 0), 0, 3000, NO_CURRENT, 2000, &solver);
    assert!(result1.is_some(), "Expected Time, got None");
    assert_eq!(result1.unwrap(), 1000);
    let result2 = calculate_traversal_time((2, 2), (2, 4), 2, 5000, NO_CURRENT, 4000, &solver);
    assert!(result2.is_some(), "Expected Time, got None");
    assert_eq!(result2.unwrap(), 500);
    let result3 = calculate_traversal_time((2, 2), (1, 1), 10, 12000, NO_CURRENT, 2000, &solver);
    assert!(result3.is_some(), "Expected Time, got None");
    assert_eq!(result3.unwrap(), 707);
}

#[test]
fn test_calculate_traversal_time_w_current() {
    let some_current = Current { magnitude: 1000, direction: 1570 };
    let result1 = calculate_traversal_time((0, 0), (2, 0), 0, 3000, some_current, 2000, &solver);
    assert!(result1.is_some(), "Expected Time, got None");
    assert_eq!(result1.unwrap(), 667);
    let result2 = calculate_traversal_time((2, 2), (2, 4), 2, 5000, some_current, 5000, &solver);
    assert!(result2.is_some(), "Expected Time, got None");
    assert_eq!(result2.unwrap(), 408);
    let strong_current = Current { magnitude: 3000, direction: 0 };
    let result3 = calculate_traversal_time((0, 2), (0, 0), 10, 12000, strong_current, 2000, &solver);
    assert!(result3.is_none(), "Expected None, got Time");
}

#[test]
fn energy_use_pieces() {
    assert_eq!(energy_use(0), 0);
    assert_eq!(energy_use(100), 0);
    assert_eq!(energy_use(101), 1111);
    assert_eq!(energy_use(1000), 2100);
    assert_eq!(energy_use(2500), 3750);
    assert_eq!(energy_use(5000), 8500);
    assert_eq!(energy_use(7500), 12250);
    assert_eq!(energy_use(10000), 15500);
}

#[test]
fn energy_use_never_decreases() {
    let mut previous = energy_use(0);
    for speed in 1..20000u32 {
        let rate = energy_use(speed);
        assert!(rate >= previous, "rate fell at {}", speed);
        previous = rate;
    }
    assert_eq!(energy_use(u32::MAX), 5_368_712_118);
}

#[test]
fn traversal_power_scales_time_by_rate() {
    assert_eq!(calc_traversal_power(1000, 2000), 3200);
    assert_eq!(calc_traversal_power(0, 9000), 0);
    assert_eq!(calc_traversal_power(333, 1000), 699);
    assert_eq!(calc_traversal_power(u32::MAX, u32::MAX), 23_058_442_963_080_180);
}

#[test]
fn deadline_drops_late_moves() {
    assert_eq!(fit_deadline(0, 400, Some(500)), None);
    assert_eq!(fit_deadline(100, 600, Some(500)), Some(500));
    assert_eq!(fit_deadline(0, 400, None), None);
    assert_eq!(fit_deadline(u32::MAX, u32::MAX, Some(1)), None);
}

#[test]
fn traversal_time_special_cases() {
    let never = |_c: Current, _dx: i64, _dy: i64, _s: u32| -> Option<u32> { panic!("solver called") };
    assert_eq!(calculate_traversal_time((3, 4), (3, 4), 5, 9, NO_CURRENT, 1000, &never), Some(0));
    assert_eq!(calculate_traversal_time((3, 4), (4, 4), 5, 9000, NO_CURRENT, 0, &never), None);
}

#[test]
fn zero_current_time_is_distance_over_speed() {
    for &(dx, dy) in &[(1, 0), (0, -1), (-3, 4), (5, 12), (-8, -6)] {
        for &speed in &[500u32, 1000, 2000, 4000] {
            let distance = ((dx * dx + dy * dy) as f64).sqrt();
            let expected = (distance / (speed as f64 / 1000.0) * 1000.0).round() as i64;
            let got = solver(NO_CURRENT, dx, dy, speed).unwrap() as i64;
            assert!((got - expected).abs() <= 1, "{} {} {}", dx, dy, speed);
            let through = calculate_traversal_time((0, 0), (dx as i32, dy as i32), 0, u32::MAX, NO_CURRENT, speed, &solver);
            assert_eq!(through, Some(got as u32));
        }
    }
}

#[test]
fn strong_opposing_current_is_unreachable() {
    let strong = Current { magnitude: 3000, direction: 0 };
    assert_eq!(calculate_traversal_time((0, 2), (0, 0), 10, 12000, strong, 2000, &solver), None);
    assert_eq!(calculate_traversal_time((5, 5), (5, 4), 0, 100000, strong, 2900, &solver), None);
}

#[test]
fn hold_at_goal_is_only_successor() {
    let current = Current { magnitude: 1000, direction: 0 };
    let table = vec![Some(100u32); NUM_MOVES];
    let goal = PosTime(2, 3, 5000);
    let out = successors_from_table(&PosTime(2, 3, 1000), &goal, &current, 4000, &table);
    assert_eq!(out, vec![(goal, 4000 * 2100 / 1000)]);
}

#[test]
fn moves_follow_table_and_deadline() {
    let mut table = vec![None; NUM_MOVES];
    table[1] = Some(900);
    table[12] = Some(300);
    table[13] = Some(5000);
    let goal = PosTime(10, 10, 2000);
    let out = successors_from_table(&PosTime(0, 0, 500), &goal, &NO_CURRENT, 10000, &table);
    assert_eq!(
        out,
        vec![
            (PosTime(1, 0, 1400), 900 * energy_use(1000) / 1000),
            (PosTime(-1, 0, 800), 300 * energy_use(1000) / 1000),
        ]
    );
}

#[test]
fn nothing_beyond_cutoff() {
    let table = vec![Some(1u32); NUM_MOVES];
    let out = successors_from_table(&PosTime(1001, 0, 0), &PosTime(0, 0, 10), &NO_CURRENT, 1000, &table);
    assert!(out.is_empty());
}

#[test]
fn successors_never_pass_goal_time() {
    let current = Current { magnitude: 1000, direction: 1570 };
    let goal = PosTime(4, 3, 3000);
    for &start in &[PosTime(0, 0, 0), PosTime(1, 1, 1200), PosTime(3, 3, 2900), PosTime(4, 3, 100)] {
        let out = find_successors(&start, &goal, &current, 5000, &solver);
        assert_eq!(out.is_empty(), start == PosTime(3, 3, 2900));
        for (next, _) in out {
            assert!(next.2 <= goal.2);
            assert!(next.2 >= start.2);
        }
    }
}

#[test]
fn solver_table_skips_zero_speed() {
    let table = solve_moves(NO_CURRENT, 2000, &solver);
    assert_eq!(table.len(), NUM_MOVES);
    assert_eq!(table[0], None);
    assert_eq!(table[10], Some(500));
    assert_eq!(table[5], Some(1000));
    assert_eq!(table[4 * 11 + 10], Some(707));
}

#[test]
fn heuristic_is_zero_at_goal() {
    let current = Current { magnitude: 2500, direction: 400 };
    let goal = PosTime(7, -3, 8000);
    assert_eq!(calc_power_hueristic(&goal, &goal, &current, 6000, &solver), 0);
    assert_eq!(heuristic_from(&goal, &goal, &current, 6000, Some(0)), 0);
    let g = PosTimeSpeed(7, -3, 8000, 0);
    assert_eq!(variable_speed::calc_power(&PosTimeSpeed(7, -3, 8000, 1234), &g, &current, 6000, &solver), 0);
}

#[test]
fn heuristic_adds_travel_and_hold() {
    let current = Current { magnitude: 1000, direction: 0 };
    let goal = PosTime(2, 0, 5000);
    let h = heuristic_from(&PosTime(0, 0, 0), &goal, &current, 2000, Some(1000));
    assert_eq!(h, 1000 * 3200 / 1000 + 4000 * 2100 / 1000);
    assert_eq!(heuristic_from(&PosTime(0, 0, 4500), &goal, &current, 2000, Some(1000)), UNREACHABLE_COST);
    assert_eq!(heuristic_from(&PosTime(0, 0, 0), &goal, &current, 2000, None), UNREACHABLE_COST);
    assert_eq!(calc_power_hueristic(&PosTime(0, 0, 0), &goal, &current, 0, &solver), UNREACHABLE_COST);
}

#[test]
fn goal_tests() {
    assert!(at_goal(&PosTime(1, 2, 3), &PosTime(1, 2, 3)));
    assert!(!at_goal(&PosTime(1, 2, 4), &PosTime(1, 2, 3)));
    assert!(variable_speed::goal_reached(&PosTimeSpeed(1, 2, 3, 9), &PosTimeSpeed(1, 2, 3, 0)));
    assert!(!variable_speed::goal_reached(&PosTimeSpeed(1, 1, 3, 0), &PosTimeSpeed(1, 2, 3, 0)));
}

#[test]
fn constant_speed_arrives_in_one_time_unit() {
    let (path, ticks) = run_dijkstra(Pos(2, 0), NO_CURRENT, 2000, &solver).expect("no path");
    assert_eq!(ticks, 1000);
    assert_eq!(path, vec![Pos(0, 0), Pos(1, 0), Pos(2, 0)]);
}

#[test]
fn planner_reaches_goal_on_time() {
    let goal = PosTime(2, 0, 1000);
    let (path, energy) = run_astar(goal, NO_CURRENT, 2000, &solver).unwrap().expect("no path");
    assert_eq!(path, vec![PosTime(0, 0, 0), PosTime(1, 0, 500), PosTime(2, 0, 1000)]);
    assert_eq!(energy, 2 * (500 * energy_use(2000) / 1000));
}

#[test]
fn planner_holds_when_early() {
    let current = Current { magnitude: 1000, direction: 0 };
    let goal = PosTime(1, 0, 3000);
    let (path, _) = run_astar(goal, current, 3000, &solver).unwrap().expect("no path");
    assert_eq!(path[0], PosTime(0, 0, 0));
    assert_eq!(*path.last().unwrap(), goal);
    for pair in path.windows(2) {
        assert!(pair[0].2 <= pair[1].2);
    }
}

#[test]
fn strong_current_leaves_no_path() {
    let strong = Current { magnitude: 3000, direction: 0 };
    assert!(run_dijkstra(Pos(0, -2), strong, 2000, &solver).is_none());
}

#[test]
fn strong_current_leaves_no_plan() {
    let strong = Current { magnitude: 3000, direction: 0 };
    assert_eq!(run_astar(PosTime(0, -2, 10000), strong, 2000, &solver), Ok(None));
}

#[test]
fn variable_speed_plan() {
    let goal = PosTimeSpeed(2, 0, 1000, 0);
    let (path, energy) = variable_speed::run_astar(goal, NO_CURRENT, 2000, &solver).unwrap().expect("no path");
    assert_eq!(path, vec![PosTimeSpeed(0, 0, 0, 0), PosTimeSpeed(1, 0, 500, 2000), PosTimeSpeed(2, 0, 1000, 2000)]);
    assert_eq!(energy, 3200);
}

#[test]
fn planning_is_repeatable() {
    let current = Current { magnitude: 1000, direction: 1570 };
    let goal = PosTime(3, 2, 4000);
    let first = run_astar(goal, current, 4000, &solver);
    let second = run_astar(goal, current, 4000, &solver);
    assert!(matches!(first, Ok(Some(_))));
    assert_eq!(first, second);
}

#[test]
fn bisection_steps() {
    assert_eq!(bisect_step(0, 100, 50, 5000, None), (50, 100));
    assert_eq!(bisect_step(0, 100, 50, 5000, Some(4000)), (0, 50));
    assert_eq!(bisect_step(0, 100, 50, 5000, Some(6000)), (50, 100));
    assert_eq!(bisect_step(0, 100, 50, 5000, Some(5000)), (50, 100));
    assert!(arrival_within_tolerance(5000, Some(5250)));
    assert!(arrival_within_tolerance(5000, Some(4750)));
    assert!(!arrival_within_tolerance(5000, Some(5251)));
    assert!(!arrival_within_tolerance(5000, None));
    assert!(arrival_within_tolerance(0, Some(TIME_TOLERANCE)));
}

#[test]
fn calibration_meets_arrival_time() {
    let current = Current { magnitude: 3000, direction: 0 };
    let (speed, arrival) = find_optimal_speed(Pos(90, 120), current, 50000, 10000, &solver).expect("infeasible");
    assert!(speed <= 10000);
    assert!(arrival.abs_diff(50000) <= TIME_TOLERANCE);
    let (_, again) = run_dijkstra(Pos(90, 120), current, speed, &solver).expect("no path");
    assert!(again.abs_diff(50000) <= TIME_TOLERANCE);
}

#[test]
fn calibration_reports_infeasible() {
    let strong = Current { magnitude: 3000, direction: 0 };
    assert_eq!(find_optimal_speed(Pos(0, -2), strong, 10000, 2000, &solver), None);
}

#[test]
fn fixed_speed_route() {
    let (path, ticks) = fixed_speed::run_astar(Pos(2, 0), NO_CURRENT, 2000, &solver).expect("no path");
    assert_eq!(ticks, 1000);
    assert_eq!(path, vec![Pos(0, 0), Pos(1, 0), Pos(2, 0)]);
    let strong = Current { magnitude: 3000, direction: 0 };
    assert!(fixed_speed::run_astar(Pos(0, -2), strong, 2000, &solver).is_none());
}

#[test]
fn fixed_speed_successors_drop_slow_moves() {
    let answers = vec![Some(500), None, Some(2_000_000), Some(1_000_000), None, None, None, Some(0)];
    let out = fixed_speed::fixed_speed_successors(&Pos(3, 3), &answers);
    assert_eq!(out, vec![(Pos(4, 3), 500), (Pos(3, 2), 1_000_000), (Pos(2, 2), 0)]);
    assert!(fixed_speed::fixed_speed_successors(&Pos(0, -1001), &answers).is_empty());
    assert_eq!(fixed_speed::traversal_time_from(None), fixed_speed::UNSOLVED_TICKS);
}

#[test]
fn fixed_speed_heuristic() {
    assert_eq!(fixed_speed::traversal_time(&Pos(4, 4), &Pos(4, 4), NO_CURRENT, 2000, &solver), 0);
    assert_eq!(fixed_speed::traversal_time(&Pos(0, 0), &Pos(3, 4), NO_CURRENT, 1000, &solver), 5000);
    assert_eq!(fixed_speed::traversal_time(&Pos(0, 0), &Pos(3, 4), NO_CURRENT, 0, &solver), fixed_speed::UNSOLVED_TICKS);
}

#[test]
fn constant_speed_successors_drop_slow_moves() {
    let answers = vec![Some(500), None, Some(10001), Some(10000), None, None, None, Some(7)];
    let out = Pos(0, 0).successors_from(&answers);
    assert_eq!(out, vec![(Pos(1, 0), 500), (Pos(0, -1), 10000), (Pos(-1, -1), 7)]);
    assert!(Pos(501, 0).successors_from(&answers).is_empty());
    let moved = Pos(0, 0).successors(NO_CURRENT, 1000, &solver);
    assert_eq!(moved.len(), 8);
    assert!(Pos(0, 0).successors(NO_CURRENT, 0, &solver).is_empty());
}

#[test]
fn variable_speed_successors_carry_speed() {
    let current = Current { magnitude: 1000, direction: 0 };
    let goal = PosTimeSpeed(1, 1, 4000, 0);
    let held = PosTimeSpeed(1, 1, 1000, 2000).successors(&goal, &current, 3000, &solver);
    assert_eq!(held, vec![(PosTimeSpeed(1, 1, 4000, 1000), 3000 * 2100 / 1000)]);
    let mut table = vec![None; NUM_MOVES];
    table[3 * 11 + 5] = Some(700);
    let out = PosTimeSpeed(0, 0, 0, 0).successors_from(&goal, &current, 3000, &table);
    assert_eq!(out, vec![(PosTimeSpeed(0, -1, 700, 1500), 700 * energy_use(1500) / 1000)]);
}

#[test]
fn zero_max_speed_is_refused() {
    assert_eq!(run_astar(PosTime(1, 0, 5000), NO_CURRENT, 0, &solver), Err(PlanError::NonPositiveMaxSpeed));
    assert_eq!(
        variable_speed::run_astar(PosTimeSpeed(1, 0, 5000, 0), NO_CURRENT, 0, &solver),
        Err(PlanError::NonPositiveMaxSpeed)
    );
}

#[test]
fn goal_at_origin_is_immediate() {
    assert_eq!(run_astar(PosTime(0, 0, 0), NO_CURRENT, 1000, &solver), Ok(Some((vec![PosTime(0, 0, 0)], 0))));
    assert_eq!(run_dijkstra(Pos(0, 0), NO_CURRENT, 1000, &solver), Some((vec![Pos(0, 0)], 0)));
    assert_eq!(fixed_speed::run_astar(Pos(0, 0), NO_CURRENT, 1000, &solver), Some((vec![Pos(0, 0)], 0)));
}

#[test]
fn goal_beyond_square_has_no_route() {
    assert_eq!(run_dijkstra(Pos(600, 0), NO_CURRENT, 2000, &solver), None);
}

#[test]
fn route_time_is_sum_of_moves() {
    let (path, ticks) = run_dijkstra(Pos(3, 1), NO_CURRENT, 1000, &solver).expect("no path");
    assert_eq!(path.len(), 4);
    assert_eq!(ticks, 1000 + 1000 + 1414);
}
