use linear_programming::problem::{Constraint, ConstraintKind, Problem, ProblemKind};
use linear_programming::rational::Rational;
use linear_programming::simplex::{solve, SolveError, Tableau};

fn whole(v: i32) -> Rational {
    Rational::from_integer(v)
}

fn ints(vs: &[i32]) -> Vec<Rational> {
    vs.iter().map(|v| whole(*v)).collect()
}

fn reduced(r: Rational) -> (i32, i32) {
    let mut r = r;
    r.simplify();
    (r.numerator(), r.denominator())
}

fn production_problem() -> Problem<Rational> {
    let mut problem = Problem::new(&ints(&[3, 2, 5]), ProblemKind::Maximization);
    problem.add_constraint(Constraint::new(&ints(&[1, 2, 1]), whole(430), ConstraintKind::LessThan));
    problem.add_constraint(Constraint::new(&ints(&[3, 0, 2]), whole(460), ConstraintKind::LessThan));
    problem.add_constraint(Constraint::new(&ints(&[1, 4, 0]), whole(420), ConstraintKind::LessThan));
    problem
}

#[test]
fn builder_keeps_what_it_is_given() {
    let problem = production_problem();
    assert_eq!(problem.objective_function_coefficients().len(), 3);
    assert_eq!(problem.constraints().len(), 3);
    assert!(problem.goal() == ProblemKind::Maximization);
    let second = &problem.constraints()[1];
    assert!(second.kind() == ConstraintKind::LessThan);
    assert_eq!(reduced(second.constant), (460, 1));
    assert_eq!(reduced(second.coefficients[0]), (3, 1));
}

#[test]
fn production_optimum() {
    let solution = solve(production_problem()).unwrap();
    assert_eq!(reduced(solution.objective_value), (1350, 1));
    let values: Vec<(i32, i32)> = solution.values.iter().map(|v| reduced(*v)).collect();
    assert_eq!(values, vec![(0, 1), (100, 1), (230, 1)]);
}

#[test]
fn second_production_optimum() {
    let mut problem = Problem::new(&ints(&[4, 3, 6]), ProblemKind::Maximization);
    problem.add_constraint(Constraint::new(&ints(&[2, 3, 2]), whole(440), ConstraintKind::LessThan));
    problem.add_constraint(Constraint::new(&ints(&[4, 0, 3]), whole(470), ConstraintKind::LessThan));
    problem.add_constraint(Constraint::new(&ints(&[2, 5, 0]), whole(430), ConstraintKind::LessThan));
    let solution = solve(problem).unwrap();
    assert_eq!(reduced(solution.objective_value), (3200, 3));
    let values: Vec<(i32, i32)> = solution.values.iter().map(|v| reduced(*v)).collect();
    assert_eq!(values, vec![(0, 1), (380, 9), (470, 3)]);
}

#[test]
fn unbounded_variable_is_reported() {
    let mut problem = Problem::new(&ints(&[1]), ProblemKind::Maximization);
    problem.add_constraint(Constraint::new(&ints(&[-1]), whole(5), ConstraintKind::LessThan));
    assert_eq!(solve(problem).err(), Some(SolveError::Unbounded));
    let mut problem = Problem::new(&ints(&[1]), ProblemKind::Maximization);
    problem.add_constraint(Constraint::new(&ints(&[0]), whole(5), ConstraintKind::LessThan));
    assert_eq!(solve(problem).err(), Some(SolveError::Unbounded));
}

#[test]
fn unsupported_constraints_are_refused() {
    for kind in [ConstraintKind::Equal, ConstraintKind::GreaterThan] {
        let mut problem = production_problem();
        problem.add_constraint(Constraint::new(&ints(&[1, 1, 1]), whole(10), kind));
        assert_eq!(solve(problem).err(), Some(SolveError::UnsupportedConstraint));
    }
}

#[test]
fn mismatched_constraint_is_refused() {
    let mut problem = production_problem();
    problem.add_constraint(Constraint::new(&ints(&[1, 1]), whole(10), ConstraintKind::LessThan));
    assert_eq!(solve(problem).err(), Some(SolveError::DimensionMismatch));
}

#[test]
fn negative_constant_is_refused() {
    let mut problem = production_problem();
    problem.add_constraint(Constraint::new(&ints(&[1, 1, 1]), whole(-1), ConstraintKind::LessThan));
    assert_eq!(solve(problem).err(), Some(SolveError::NegativeConstant));
}

#[test]
fn minimization_with_positive_costs_stays_at_origin() {
    let mut problem = Problem::new(&ints(&[2, 3]), ProblemKind::Minimization);
    problem.add_constraint(Constraint::new(&ints(&[1, 1]), whole(4), ConstraintKind::LessThan));
    let solution = solve(problem).unwrap();
    assert_eq!(reduced(solution.objective_value), (0, 1));
    let values: Vec<(i32, i32)> = solution.values.iter().map(|v| reduced(*v)).collect();
    assert_eq!(values, vec![(0, 1), (0, 1)]);
}

#[test]
fn minimization_takes_negative_costs() {
    let mut problem = Problem::new(&ints(&[-1, 0]), ProblemKind::Minimization);
    problem.add_constraint(Constraint::new(&ints(&[2, 1]), whole(6), ConstraintKind::LessThan));
    let solution = solve(problem).unwrap();
    assert_eq!(reduced(solution.objective_value), (-3, 1));
    assert_eq!(reduced(solution.values[0]), (3, 1));
}

#[test]
fn empty_program_is_optimal_at_zero() {
    let problem = Problem::new(&ints(&[]), ProblemKind::Maximization);
    let solution = solve(problem).unwrap();
    assert!(solution.values.is_empty());
    assert_eq!(reduced(solution.objective_value), (0, 1));
}

#[test]
fn fractional_optimum() {
    let mut problem = Problem::new(&ints(&[1]), ProblemKind::Maximization);
    problem.add_constraint(Constraint::new(&ints(&[3]), whole(2), ConstraintKind::LessThan));
    let solution = solve(problem).unwrap();
    assert_eq!(reduced(solution.values[0]), (2, 3));
    assert_eq!(reduced(solution.objective_value), (2, 3));
}

#[test]
fn overflow_during_solve_is_reported() {
    let mut problem = Problem::new(&ints(&[i32::MAX]), ProblemKind::Maximization);
    problem.add_constraint(Constraint::new(&ints(&[1]), whole(i32::MAX), ConstraintKind::LessThan));
    assert_eq!(solve(problem).err(), Some(SolveError::Overflow));
}

#[test]
fn tableau_steps_by_hand() {
    let problem = production_problem();
    let mut t = Tableau::new(&problem).ok().unwrap();
    let rc = t.reduced_costs().unwrap();
    let costs: Vec<(i32, i32)> = rc.iter().map(|v| reduced(*v)).collect();
    assert_eq!(costs, vec![(3, 1), (2, 1), (5, 1), (0, 1), (0, 1), (0, 1)]);
    assert!(!Tableau::is_optimal(&rc, ProblemKind::Maximization));
    let e = Tableau::entering(&rc, ProblemKind::Maximization);
    assert_eq!(e, 2);
    assert_eq!(Tableau::entering(&rc, ProblemKind::Minimization), 3);
    // ratios: 430/1, 460/2 = 230, 420/0 excluded
    let l = t.leaving(e).unwrap().unwrap();
    assert_eq!(l, 1);
    t.pivot(e, l).unwrap();
    let rc = t.reduced_costs().unwrap();
    let costs: Vec<(i32, i32)> = rc.iter().map(|v| reduced(*v)).collect();
    assert_eq!(costs, vec![(-9, 2), (2, 1), (0, 1), (0, 1), (-5, 2), (0, 1)]);
    let partial = t.extract().ok().unwrap();
    assert_eq!(reduced(partial.objective_value), (1150, 1));
}

#[test]
fn entering_ties_go_to_the_first_column() {
    let rc = ints(&[1, 4, 4, 2]);
    assert_eq!(Tableau::entering(&rc, ProblemKind::Maximization), 1);
    let rc = ints(&[3, -2, 1, -2]);
    assert_eq!(Tableau::entering(&rc, ProblemKind::Minimization), 1);
}

fn frac(p: i32, q: i32) -> Rational {
    Rational::new(p, q).unwrap()
}

fn all_reduced(rs: &[Rational]) -> Vec<(i32, i32)> {
    rs.iter().map(|v| reduced(*v)).collect()
}

fn exact(r: Rational) -> (i32, i32) {
    (r.numerator(), r.denominator())
}

#[test]
fn fractional_costs_with_separate_bounds() {
    let mut problem = Problem::new(&[frac(1, 6), frac(1, 2)], ProblemKind::Maximization);
    problem.add_constraint(Constraint::new(&ints(&[1, 0]), whole(1), ConstraintKind::LessThan));
    problem.add_constraint(Constraint::new(&ints(&[0, 1]), whole(1), ConstraintKind::LessThan));
    let solution = solve(problem).unwrap();
    assert_eq!(all_reduced(&solution.values), vec![(1, 1), (1, 1)]);
    assert_eq!(exact(solution.objective_value), (2, 3));
}

#[test]
fn fractional_costs_with_shared_bound() {
    let mut problem = Problem::new(&[frac(1, 6), frac(1, 2)], ProblemKind::Maximization);
    problem.add_constraint(Constraint::new(&ints(&[1, 1]), whole(1), ConstraintKind::LessThan));
    let solution = solve(problem).unwrap();
    assert_eq!(all_reduced(&solution.values), vec![(0, 1), (1, 1)]);
    assert_eq!(reduced(solution.objective_value), (1, 2));
    assert_eq!(all_reduced(&solution.reduced_costs), vec![(-1, 3), (0, 1), (-1, 2)]);
}

#[test]
fn snapshots_report_each_iteration() {
    let mut problem = Problem::new(&[frac(1, 6), frac(1, 2)], ProblemKind::Maximization);
    problem.add_constraint(Constraint::new(&ints(&[1, 1]), whole(1), ConstraintKind::LessThan));
    let mut t = Tableau::new(&problem).ok().unwrap();
    let first = t.step(ProblemKind::Maximization, 10).ok().unwrap();
    assert_eq!(all_reduced(&first.reduced_costs), vec![(1, 6), (1, 2), (0, 1)]);
    assert_eq!(first.pivot, Some((1, 0)));
    let last = t.step(ProblemKind::Maximization, 9).ok().unwrap();
    assert_eq!(last.pivot, None);
    assert_eq!(all_reduced(&last.reduced_costs), vec![(-1, 3), (0, 1), (-1, 2)]);
}

#[test]
fn step_without_pivots_left_stops() {
    let mut t = Tableau::new(&production_problem()).ok().unwrap();
    assert_eq!(t.step(ProblemKind::Maximization, 0).err(), Some(SolveError::IterationLimitExceeded));
}

#[test]
fn objective_in_lowest_terms() {
    let mut problem = Problem::new(&[frac(1, 6)], ProblemKind::Maximization);
    problem.add_constraint(Constraint::new(&ints(&[1]), frac(1, 2), ConstraintKind::LessThan));
    let solution = solve(problem).unwrap();
    assert_eq!(reduced(solution.values[0]), (1, 2));
    assert_eq!(exact(solution.objective_value), (1, 12));
}

#[test]
fn tolerantly_equal_costs_pick_the_first_column() {
    let mut problem = Problem::new(&[frac(1, 6), frac(9, 54)], ProblemKind::Maximization);
    problem.add_constraint(Constraint::new(&ints(&[1, 1]), whole(1), ConstraintKind::LessThan));
    let solution = solve(problem).unwrap();
    assert_eq!(all_reduced(&solution.values), vec![(1, 1), (0, 1)]);
    assert_eq!(reduced(solution.objective_value), (1, 6));
}

#[test]
fn near_zero_divisor_leaves_the_ratio_test() {
    let mut problem = Problem::new(&ints(&[1]), ProblemKind::Maximization);
    problem.add_constraint(Constraint::new(&[frac(1, 20000)], whole(1), ConstraintKind::LessThan));
    problem.add_constraint(Constraint::new(&ints(&[1]), whole(5), ConstraintKind::LessThan));
    let solution = solve(problem).unwrap();
    assert_eq!(all_reduced(&solution.values), vec![(5, 1)]);
    assert_eq!(reduced(solution.objective_value), (5, 1));
}

#[test]
fn chained_tolerance_keeps_the_first_maximum() {
    let mut problem = Problem::new(
        &[frac(50003, 50000), whole(1), frac(25003, 25000)],
        ProblemKind::Maximization,
    );
    problem.add_constraint(Constraint::new(&ints(&[1, 1, 1]), whole(1), ConstraintKind::LessThan));
    let solution = solve(problem).unwrap();
    assert_eq!(all_reduced(&solution.values), vec![(1, 1), (0, 1), (0, 1)]);
    assert_eq!(reduced(solution.objective_value), (50003, 50000));
}

fn unreduced_problem() -> Problem<Rational> {
    let mut problem = Problem::new(&[frac(2, 4), frac(-3, -6)], ProblemKind::Maximization);
    problem.add_constraint(Constraint::new(&[frac(3, 3), frac(0, 7)], frac(4, 6), ConstraintKind::LessThan));
    problem.add_constraint(Constraint::new(&[frac(0, -5), frac(-2, -2)], frac(10, 20), ConstraintKind::LessThan));
    problem
}

#[test]
fn solve_reports_lowest_terms() {
    let solution = solve(unreduced_problem()).unwrap();
    assert!(solution.values[0] == frac(2, 3));
    assert!(solution.values[1] == frac(1, 2));
    assert!(solution.objective_value == frac(7, 12));
    for v in solution.values.iter() {
        assert_eq!(exact(*v), reduced(*v));
    }
    assert_eq!(exact(solution.objective_value), reduced(solution.objective_value));
    for rc in solution.reduced_costs.iter() {
        assert_eq!(exact(*rc), reduced(*rc));
    }
}

#[test]
fn reducing_inputs_first_changes_nothing() {
    let mut problem = Problem::new(&[frac(1, 2), frac(-1, -2)], ProblemKind::Maximization);
    problem.add_constraint(Constraint::new(&[frac(1, 1), frac(0, 1)], frac(2, 3), ConstraintKind::LessThan));
    problem.add_constraint(Constraint::new(&[frac(0, -1), frac(-1, -1)], frac(1, 2), ConstraintKind::LessThan));
    let a = solve(unreduced_problem()).unwrap();
    let b = solve(problem).unwrap();
    let exact_all = |rs: &[Rational]| rs.iter().map(|v| exact(*v)).collect::<Vec<_>>();
    assert_eq!(exact_all(&a.values), exact_all(&b.values));
    assert_eq!(exact(a.objective_value), exact(b.objective_value));
    assert_eq!(exact_all(&a.reduced_costs), exact_all(&b.reduced_costs));
}
