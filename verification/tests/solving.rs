use sat_solver::Assignment;
use sat_solver::Clause;
use sat_solver::Cnf;
use sat_solver::Entry;
use sat_solver::Header;
use sat_solver::Sign;
use sat_solver::SimpleSolution;
use sat_solver::Solution;
use sat_solver::Solver;
use sat_solver::SolverError;
use sat_solver::Var;
use sat_solver::solve;

fn lit(i: i64) -> Entry {
    if i < 0 {
        Entry::new(Sign::Neg, Var::new((-i) as usize))
    } else {
        Entry::new(Sign::Pos, Var::new(i as usize))
    }
}

fn clause(lits: &[i64]) -> Clause {
    Clause { entries: lits.iter().map(|&i| lit(i)).collect() }
}

fn formula(var_count: usize, clauses: &[&[i64]]) -> Cnf {
    Cnf {
        header: Header { var_count, clause_count: clauses.len() },
        clauses: clauses.iter().map(|ls| clause(ls)).collect(),
    }
}

/// The value of the entry's variable under the witness, found by identifier.
fn entry_value(e: &Entry, a: &Assignment) -> Option<bool> {
    a.get(e.var()).map(|b| e.sign().apply(b))
}

/// Every original clause has a literal made true by the witness.
fn satisfies(cnf: &Cnf, a: &Assignment) -> bool {
    cnf.clauses.iter().all(|c| c.entries.iter().any(|e| entry_value(e, a) == Some(true)))
}

/// Substitute a full assignment (vals[k] is the value of variable k+1).
fn eval_full(cnf: &Cnf, vals: &[bool]) -> bool {
    cnf.clauses.iter().all(|c| {
        c.entries.iter().any(|e| {
            (1..=vals.len()).any(|k| e.var() == Var::new(k) && e.sign().apply(vals[k - 1]))
        })
    })
}

/// Exhaustively decide satisfiability of a formula over `n` variables.
fn brute_force(cnf: &Cnf, n: usize) -> bool {
    (0..(1u32 << n)).any(|bits| {
        let vals: Vec<bool> = (0..n).map(|k| bits & (1 << k) != 0).collect();
        eval_full(cnf, &vals)
    })
}

#[test]
fn single_positive_unit_is_satisfiable() {
    let cnf = formula(1, &[&[1]]);
    match solve(cnf) {
        Ok(Solution::Satisfiable(a)) => {
            assert_eq!(a.get(Var::new(1)), Some(true));
        }
        other => panic!("expected a satisfiable verdict, got {:?}", other),
    }
}

#[test]
fn contradictory_units_are_unsatisfiable() {
    let cnf = formula(1, &[&[1], &[-1]]);
    assert!(matches!(solve(cnf), Ok(Solution::Unsatisfiable)));
}

#[test]
fn minimal_unsatisfiable_two_variable_instance() {
    let cnf = formula(2, &[&[1, 2], &[-1, 2], &[1, -2], &[-1, -2]]);
    assert!(matches!(solve(cnf), Ok(Solution::Unsatisfiable)));
}

#[test]
fn one_wide_clause_is_satisfiable_with_a_true_literal() {
    let cnf = formula(3, &[&[1, 2, 3]]);
    let reference = formula(3, &[&[1, 2, 3]]);
    match solve(cnf) {
        Ok(Solution::Satisfiable(a)) => {
            assert!(satisfies(&reference, &a));
            let some_true = (1..=3).any(|k| a.get(Var::new(k)) == Some(true));
            assert!(some_true);
        }
        other => panic!("expected a satisfiable verdict, got {:?}", other),
    }
}

#[test]
fn unit_propagation_forces_both_variables() {
    let cnf = formula(2, &[&[1], &[-1, 2]]);
    match solve(cnf) {
        Ok(Solution::Satisfiable(a)) => {
            assert_eq!(a.get(Var::new(1)), Some(true));
            assert_eq!(a.get(Var::new(2)), Some(true));
        }
        other => panic!("expected a satisfiable verdict, got {:?}", other),
    }
}

#[test]
fn empty_formula_is_satisfiable_with_empty_assignment() {
    let cnf = formula(2, &[]);
    match solve(cnf) {
        Ok(Solution::Satisfiable(a)) => {
            assert_eq!(a.get(Var::new(1)), None);
            assert_eq!(a.get(Var::new(2)), None);
        }
        other => panic!("expected a satisfiable verdict, got {:?}", other),
    }
}

#[test]
fn empty_clause_among_others_is_unsatisfiable() {
    let cnf = formula(1, &[&[], &[1]]);
    assert!(matches!(solve(cnf), Ok(Solution::Unsatisfiable)));
}

#[test]
fn lone_empty_clause_is_the_fatal_degenerate_case() {
    let cnf = formula(1, &[&[]]);
    assert!(matches!(solve(cnf), Err(SolverError::NoUnassignedVar)));
}

#[test]
fn witness_satisfies_every_original_clause() {
    let shape: &[&[i64]] = &[&[1, -2], &[2, 3], &[-1, -3], &[-2, -3]];
    let cnf = formula(3, shape);
    let reference = formula(3, shape);
    match solve(cnf) {
        Ok(Solution::Satisfiable(a)) => assert!(satisfies(&reference, &a)),
        other => panic!("expected a satisfiable verdict, got {:?}", other),
    }
}

#[test]
fn verdict_agrees_with_exhaustive_enumeration() {
    let instances: &[(usize, &[&[i64]])] = &[
        (1, &[&[1]]),
        (1, &[&[1], &[-1]]),
        (2, &[&[1, 2], &[-1, 2], &[1, -2], &[-1, -2]]),
        (2, &[&[1, 2], &[-1, 2], &[1, -2]]),
        (3, &[&[1, 2, 3]]),
        (3, &[&[1, -2], &[2, 3], &[-1, -3], &[-2, -3]]),
        (3, &[&[1], &[-1, 2], &[-2, 3], &[-3, -1]]),
        (4, &[&[1, 2], &[-1, 3], &[-2, -3], &[4, 1], &[-4, 2]]),
    ];
    for (n, shape) in instances {
        let expected = brute_force(&formula(*n, shape), *n);
        match solve(formula(*n, shape)) {
            Ok(Solution::Satisfiable(a)) => {
                assert!(expected, "engine found a witness where none exists");
                assert!(satisfies(&formula(*n, shape), &a));
            }
            Ok(Solution::Unsatisfiable) => {
                assert!(!expected, "engine missed a satisfying assignment");
            }
            Err(e) => panic!("unexpected solver error {:?}", e),
        }
    }
}

#[test]
fn solver_runs_from_an_explicit_work_list() {
    let mut solver = Solver::new(formula(2, &[&[1, 2], &[-1]]));
    match solver.solve() {
        Ok(Solution::Satisfiable(a)) => {
            assert_eq!(a.get(Var::new(1)), Some(false));
            assert_eq!(a.get(Var::new(2)), Some(true));
        }
        other => panic!("expected a satisfiable verdict, got {:?}", other),
    }
}

#[test]
fn find_unit_reports_a_unit_clause() {
    let cnf = formula(2, &[&[1, 2], &[-2]]);
    let e = Solver::find_unit(&cnf).expect("a unit clause exists");
    assert_eq!(e.var(), Var::new(2));
    assert!(matches!(e.sign(), Sign::Neg));
    let no_unit = formula(2, &[&[1, 2], &[-1, -2]]);
    assert!(Solver::find_unit(&no_unit).is_none());
}

#[test]
fn pick_var_prefers_the_most_frequent_variable() {
    let cnf = formula(3, &[&[1, 2], &[-2, 3], &[2, -3]]);
    let v = Solver::pick_var(&cnf).expect("variables exist");
    assert_eq!(v, Var::new(2));
    let empty = formula(3, &[]);
    assert!(Solver::pick_var(&empty).is_none());
}

#[test]
fn simple_solution_keeps_only_the_verdict_kind() {
    let sat = solve(formula(1, &[&[1]])).unwrap();
    assert_eq!(SimpleSolution::of_solution(&sat), SimpleSolution::Satisfiable);
    let unsat = solve(formula(1, &[&[1], &[-1]])).unwrap();
    assert_eq!(SimpleSolution::of_solution(&unsat), SimpleSolution::Unsatisfiable);
}

#[test]
fn three_pigeons_do_not_fit_two_holes() {
    // Variable 2*(i-1)+j says pigeon i sits in hole j.
    let shape: &[&[i64]] = &[
        &[1, 2],
        &[3, 4],
        &[5, 6],
        &[-1, -3],
        &[-1, -5],
        &[-3, -5],
        &[-2, -4],
        &[-2, -6],
        &[-4, -6],
    ];
    assert!(matches!(solve(formula(6, shape)), Ok(Solution::Unsatisfiable)));
}

#[test]
fn unit_propagation_cascades_through_a_chain() {
    let shape: &[&[i64]] = &[&[1], &[-1, 2], &[-2, 3], &[-3, 4], &[-4, 5]];
    match solve(formula(5, shape)) {
        Ok(Solution::Satisfiable(a)) => {
            for k in 1..=5 {
                assert_eq!(a.get(Var::new(k)), Some(true));
            }
        }
        other => panic!("expected a satisfiable verdict, got {:?}", other),
    }
}
