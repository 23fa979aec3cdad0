use sls_sat::cnf::{abs, calculate_variable_cost, evaluate_clause_with_flipped};
use sls_sat::index::occurrence_index;
use sls_sat::sls_solver::{get_first_negative, Solver};
use sls_sat::solver_manager::{Round, SolverManager};

fn holds(clause: &[i32], a: &[bool]) -> bool {
    clause.iter().any(|&l| if l > 0 { a[l as usize] } else { !a[(-l) as usize] })
}

fn check_coherent(s: &Solver) {
    let mut count = 0;
    for i in 0..s.clauses.len() {
        let direct = i == 0 || holds(&s.clauses[i], &s.assignment);
        assert_eq!(s.current_clause_assignment[i], direct);
        if direct {
            count += 1;
        }
    }
    assert_eq!(s.num_fulfilled_clauses, count);
    for v in 1..s.num_vars {
        let mut cost = 0;
        for &r in &s.clauses_containing_variable[v] {
            let i = r.unsigned_abs() as usize;
            let before = holds(&s.clauses[i], &s.assignment);
            let mut flipped = s.assignment.clone();
            flipped[v] = !flipped[v];
            let after = holds(&s.clauses[i], &flipped);
            if !after {
                cost += 1;
            } else if !before {
                cost -= 1;
            }
        }
        assert_eq!(s.cost[v], cost);
    }
}

fn sample_formula() -> Vec<Vec<i32>> {
    vec![vec![1, 2, -3], vec![-1, 3], vec![2, 3, 4], vec![-2, -4], vec![1, -4, 3], vec![-3, 4]]
}

#[test]
fn evaluate_matches_literal_polarity() {
    let clauses = vec![vec![], vec![1, -2], vec![-1]];
    let a = vec![false, false, true];
    assert!(!evaluate_clause_with_flipped(&clauses, &a, 1, 0));
    assert!(evaluate_clause_with_flipped(&clauses, &a, 2, 0));
    // the padding clause always holds
    assert!(evaluate_clause_with_flipped(&clauses, &a, 0, 0));
    // flipping variable 1 makes clause 1 hold and clause 2 fail
    assert!(evaluate_clause_with_flipped(&clauses, &a, 1, 1));
    assert!(!evaluate_clause_with_flipped(&clauses, &a, -2, 1));
    // flipping variable 2 makes clause 1 hold
    assert!(evaluate_clause_with_flipped(&clauses, &a, -1, 2));
}

#[test]
fn abs_of_literals() {
    assert_eq!(abs(-7), 7);
    assert_eq!(abs(5), 5);
    assert_eq!(abs(0), 0);
}

#[test]
fn cost_counts_breaks_and_makes() {
    // clause 1 = [1, 2] holds through 1 only; clause 2 = [1] holds; clause 3 = [-1, 2] fails
    let clauses = vec![vec![], vec![1, 2], vec![1], vec![-1, 2]];
    let a = vec![false, true, false];
    let sat = vec![true, true, true, false];
    // flipping 1 breaks clauses 1 and 2 and makes clause 3
    assert_eq!(calculate_variable_cost(&clauses, &a, &sat, &vec![1, 2, -3], 1), 1);
    // flipping 2 makes clause 3 and keeps clause 1
    assert_eq!(calculate_variable_cost(&clauses, &a, &sat, &vec![1, 3], 2), -1);
}

#[test]
fn index_records_each_reference_once() {
    let clauses = vec![vec![], vec![1, 1, -2], vec![-1, 2, 1]];
    let occ = occurrence_index(&clauses, 3);
    assert_eq!(occ[0], Vec::<i32>::new());
    assert_eq!(occ[1], vec![1, -2, 2]);
    assert_eq!(occ[2], vec![-1, 2]);
}

#[test]
fn first_negative_picks_lowest_minimum() {
    assert_eq!(get_first_negative(&vec![-9, 3, -2, 0, -5, -5, 1]), 4);
    assert_eq!(get_first_negative(&vec![-9, 3, 0, 2]), 0);
    assert_eq!(get_first_negative(&vec![0, -1]), 1);
    assert_eq!(get_first_negative(&vec![]), 0);
}

#[test]
fn construction_is_coherent() {
    for _ in 0..50 {
        let s = Solver::new(4, sample_formula());
        assert_eq!(s.num_vars, 5);
        assert_eq!(s.clauses.len(), 7);
        assert!(s.clauses[0].is_empty());
        check_coherent(&s);
    }
}

#[test]
fn flips_keep_caches_coherent() {
    for round in 0..20 {
        let mut s = Solver::new(4, sample_formula());
        for step in 0..30 {
            let v = 1 + (round * 7 + step * 3) % 4;
            let before = s.assignment.clone();
            let old_fulfilled = s.num_fulfilled_clauses as i64;
            let old_cost = s.cost[v] as i64;
            s.flip_var(v);
            assert_eq!(s.assignment[v], !before[v]);
            assert_eq!(s.num_fulfilled_clauses as i64, old_fulfilled - old_cost);
            check_coherent(&s);
        }
    }
}

#[test]
fn flipping_twice_restores_everything() {
    for v in 1..5 {
        let mut s = Solver::new(4, sample_formula());
        let a = s.assignment.clone();
        let cache = s.current_clause_assignment.clone();
        let cost = s.cost.clone();
        let count = s.num_fulfilled_clauses;
        s.flip_var(v);
        s.flip_var(v);
        assert_eq!(s.assignment, a);
        assert_eq!(s.current_clause_assignment, cache);
        assert_eq!(s.cost, cost);
        assert_eq!(s.num_fulfilled_clauses, count);
    }
}

#[test]
fn good_flip_improves_or_reports_none() {
    for _ in 0..50 {
        let mut s = Solver::new(4, sample_formula());
        let before = s.num_fulfilled_clauses;
        let any_negative = s.cost[1..].iter().any(|&c| c < 0);
        let a = s.assignment.clone();
        let flipped = s.flip_a_good_var();
        assert_eq!(flipped, any_negative);
        if flipped {
            assert!(s.num_fulfilled_clauses > before);
        } else {
            assert_eq!(s.assignment, a);
        }
    }
}

#[test]
fn random_flip_changes_one_variable() {
    let mut s = Solver::new(1, vec![vec![1]]);
    let a = s.assignment.clone();
    s.flip_random();
    assert_eq!(s.assignment[1], !a[1]);
    check_coherent(&s);
    let mut s = Solver::new(4, sample_formula());
    let a = s.assignment.clone();
    s.flip_random();
    let changed: Vec<usize> = (0..5).filter(|&v| s.assignment[v] != a[v]).collect();
    assert_eq!(changed.len(), 1);
    assert!(changed[0] >= 1);
}

#[test]
fn initial_assignments_vary() {
    let mut seen_true = false;
    let mut seen_false = false;
    for _ in 0..20 {
        let s = Solver::new(8, vec![vec![1, 2, 3, 4, 5, 6, 7, 8]]);
        for v in 1..9 {
            if s.assignment[v] {
                seen_true = true;
            } else {
                seen_false = true;
            }
        }
    }
    assert!(seen_true && seen_false);
}

#[test]
fn two_variable_formula_is_solved() {
    let clauses = vec![vec![1, 2], vec![-1, -2]];
    for _ in 0..100 {
        let mut s = Solver::new(2, clauses.clone());
        assert!(s.solve());
        assert!(s.is_solved());
        assert_ne!(s.assignment[1], s.assignment[2]);
    }
    for a1 in [false, true] {
        for a2 in [false, true] {
            let mut s = Solver::from_assignment(2, clauses.clone(), vec![false, a1, a2]);
            assert!(s.solve());
            assert_ne!(s.assignment[1], s.assignment[2]);
        }
    }
}

#[test]
fn from_assignment_keeps_the_values() {
    let s = Solver::from_assignment(4, sample_formula(), vec![false, true, false, true, true]);
    assert_eq!(s.assignment, vec![false, true, false, true, true]);
    check_coherent(&s);
}

#[test]
fn stall_round_flips_picks_and_applies_bound() {
    // 4 variables, 7 clauses with padding: the bound is 28
    let mut s = Solver::from_assignment(4, sample_formula(), vec![false, true, false, true, true]);
    assert!(!s.stall_round(3, &vec![1, 2, 1]));
    assert_eq!(s.assignment, vec![false, true, true, true, true]);
    check_coherent(&s);
    assert!(!s.stall_round(28, &vec![4, 4, 3, 3, 2, 2, 1, 1]));
    assert_eq!(s.assignment, vec![false, true, true, true, true]);
    assert!(s.stall_round(29, &vec![4, 3, 2, 1, 4, 3, 2, 1, 4]));
    assert_eq!(s.assignment, vec![false, true, true, true, false]);
    check_coherent(&s);
}

#[test]
fn first_round_on_two_variable_formula_succeeds() {
    for _ in 0..50 {
        let mut m = SolverManager::new(2, vec![vec![1, 2], vec![-1, -2]]);
        match m.solve_round(false) {
            Round::Solved(a) => {
                assert_eq!(a.len(), 3);
                assert_ne!(a[1], a[2]);
            }
            _ => panic!("the first round solves this formula"),
        }
    }
}

#[test]
fn contradiction_is_never_solved() {
    let clauses = vec![vec![1], vec![-1]];
    for _ in 0..200 {
        let mut s = Solver::new(1, clauses.clone());
        assert!(!s.solve());
        assert!(!s.is_solved());
    }
}

#[test]
fn empty_formula_is_solved_at_once() {
    let mut s = Solver::new(0, vec![]);
    assert!(s.is_solved());
    assert!(s.solve());
}

#[test]
fn halted_round_searches_nothing() {
    let mut m = SolverManager::new(4, sample_formula());
    let a = m.solver.assignment.clone();
    let cache = m.solver.current_clause_assignment.clone();
    assert!(matches!(m.solve_round(true), Round::Halted));
    assert_eq!(m.solver.assignment, a);
    assert_eq!(m.solver.current_clause_assignment, cache);
}

#[test]
fn round_returns_satisfying_assignment() {
    let clauses = sample_formula();
    let mut m = SolverManager::new(4, clauses.clone());
    for _ in 0..1000 {
        match m.solve_round(false) {
            Round::Solved(a) => {
                assert_eq!(a.len(), 5);
                for c in &clauses {
                    assert!(holds(c, &a));
                }
                return;
            }
            Round::Restarted => {}
            Round::Halted => panic!("not halted"),
        }
    }
    panic!("no solution found");
}

#[test]
fn unsatisfiable_rounds_restart() {
    let mut m = SolverManager::new(1, vec![vec![1], vec![-1]]);
    for _ in 0..20 {
        assert!(matches!(m.solve_round(false), Round::Restarted));
        check_coherent(&m.solver);
    }
}
