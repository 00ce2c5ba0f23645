use dice_race::rat::Rat;
use dice_race::solver::Solver;
use dice_race::solver::State;

#[test]
fn state_transitions() {
    let s = State::new(3);
    assert_eq!(s.original_pos, 3);
    assert_eq!(s.pos, 3);
    assert_eq!(s.dice, None);
    let m = s.dice(4);
    assert_eq!(m.original_pos, 3);
    assert_eq!(m.pos, 7);
    assert_eq!(m.dice, Some(4));
    let g = m.go_success();
    assert_eq!(g.original_pos, 3);
    assert_eq!(g.pos, 11);
    assert_eq!(g.dice, Some(4));
    let b = g.stop();
    assert_eq!(b.original_pos, 11);
    assert_eq!(b.pos, 11);
    assert_eq!(b.dice, None);
}

#[test]
fn boundary_positions_cost_nothing() {
    let mut solver = Solver::new(6, 20);
    let zero = Rat::from_int(0);
    assert_eq!(solver.solve(20).unwrap().eq_val(zero), Some(true));
    assert_eq!(solver.solve(25).unwrap().eq_val(zero), Some(true));
}

#[test]
fn solved_values_decrease_toward_the_goal() {
    let mut solver = Solver::new(6, 20);
    let mut previous = solver.solve(0).unwrap();
    for p in 1..=20 {
        let v = solver.solve(p).unwrap();
        assert_eq!(v.le(previous), Some(true));
        previous = v;
    }
}

#[test]
fn last_position_lies_strictly_between_zero_and_start() {
    let mut solver = Solver::new(6, 20);
    let last = solver.solve(19).unwrap();
    let first = solver.solve(0).unwrap();
    let goal = solver.solve(20).unwrap();
    assert_eq!(goal.eq_val(Rat::from_int(0)), Some(true));
    assert_eq!(goal.lt(last), Some(true));
    assert_eq!(last.lt(first), Some(true));
}

#[test]
fn one_face_race_takes_one_turn() {
    // With one die face, a continuation never fails, so a single turn
    // suffices from every position below the goal.
    let mut solver = Solver::new(1, 2);
    assert_eq!(solver.solve(1).unwrap().eq_val(Rat::from_int(1)), Some(true));
    assert_eq!(solver.solve(0).unwrap().eq_val(Rat::from_int(1)), Some(true));
}

#[test]
fn strategy_at_or_past_the_goal_is_zero() {
    let mut solver = Solver::new(6, 20);
    let zero = Rat::from_int(0);
    let (total, stop) = solver.strategy(19, 6).unwrap();
    assert_eq!(total.eq_val(zero), Some(true));
    assert_eq!(stop.eq_val(zero), Some(true));
    let (total, stop) = solver.strategy(14, 6).unwrap();
    assert_eq!(total.eq_val(zero), Some(true));
    assert_eq!(stop.eq_val(zero), Some(true));
}

#[test]
fn solved_values_below_the_goal_cost_at_least_one_turn() {
    let mut solver = Solver::new(6, 20);
    let one = Rat::from_int(1);
    for p in 0..20 {
        let v = solver.solve(p).unwrap();
        assert_eq!(one.le(v), Some(true));
    }
}

#[test]
fn goal_zero_is_trivial() {
    let mut solver = Solver::new(6, 0);
    assert_eq!(solver.solve(0).unwrap().eq_val(Rat::from_int(0)), Some(true));
}

#[test]
fn strategy_reports_stop_value_of_the_landing_position() {
    let mut solver = Solver::new(6, 20);
    let (total, stop) = solver.strategy(0, 3).unwrap();
    let landing = solver.solve(3).unwrap();
    assert_eq!(stop.eq_val(landing), Some(true));
    let zero = Rat::from_int(0);
    assert_eq!(zero.lt(total), Some(true));
    assert_eq!(zero.lt(stop), Some(true));
    // the optimal total exceeds the banking value by at most the tolerance
    let excess = total.sub(stop).unwrap();
    assert_eq!(excess.le(Rat::new(1, 1_000_000_000_000)), Some(true));
}
