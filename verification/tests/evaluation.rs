use sat_solver::Assignment;
use sat_solver::Clause;
use sat_solver::Cnf;
use sat_solver::Entry;
use sat_solver::Header;
use sat_solver::Partial;
use sat_solver::PartialAssign;
use sat_solver::Sign;
use sat_solver::Var;

fn lit(i: i64) -> Entry {
    if i < 0 {
        Entry::new(Sign::Neg, Var::new((-i) as usize))
    } else {
        Entry::new(Sign::Pos, Var::new(i as usize))
    }
}

fn clause(lits: &[i64]) -> Clause {
    Clause { entries: lits.iter().map(|&i| lit(i)).collect() }
}

#[test]
fn assignment_extension_leaves_the_original_untouched() {
    let empty = Assignment::new();
    let one = empty.extend(Var::new(1), true);
    let two = one.extend(Var::new(2), false);
    assert_eq!(empty.get(Var::new(1)), None);
    assert_eq!(one.get(Var::new(1)), Some(true));
    assert_eq!(one.get(Var::new(2)), None);
    assert_eq!(two.get(Var::new(1)), Some(true));
    assert_eq!(two.get(Var::new(2)), Some(false));
}

#[test]
fn pick_unassigned_returns_the_smallest_free_variable() {
    let header = Header { var_count: 3, clause_count: 0 };
    let a = Assignment::new().extend(Var::new(1), true);
    assert_eq!(a.pick_unassigned(header), Some(Var::new(2)));
    let b = a.extend(Var::new(2), false).extend(Var::new(3), true);
    assert_eq!(b.pick_unassigned(header), None);
}

#[test]
fn var_validity_is_the_declared_bound() {
    let header = Header { var_count: 2, clause_count: 0 };
    assert!(Var::new(2).is_valid(header));
    assert!(!Var::new(3).is_valid(header));
}

#[test]
fn sign_application_flips_under_negation() {
    assert!(Sign::Pos.apply(true));
    assert!(!Sign::Pos.apply(false));
    assert!(!Sign::Neg.apply(true));
    assert!(Sign::Neg.apply(false));
}

#[test]
fn literal_evaluation_is_substitution_or_the_literal_itself() {
    let a = Assignment::new().extend(Var::new(1), false);
    match lit(-1).partial_assign(&a) {
        Partial::Definite(b) => assert!(b),
        Partial::Indefinite(_) => panic!("an assigned literal must become definite"),
    }
    match lit(2).partial_assign(&a) {
        Partial::Indefinite(e) => {
            assert_eq!(e.var(), Var::new(2));
            assert!(matches!(e.sign(), Sign::Pos));
        }
        Partial::Definite(_) => panic!("an unassigned literal stays indefinite"),
    }
}

#[test]
fn clause_evaluation_drops_false_literals_and_keeps_order() {
    let a = Assignment::new().extend(Var::new(2), false);
    match clause(&[2, 3, 1]).partial_assign(&a) {
        Partial::Indefinite(c) => {
            assert_eq!(c.entries.len(), 2);
            assert_eq!(c.entries[0].var(), Var::new(3));
            assert_eq!(c.entries[1].var(), Var::new(1));
        }
        Partial::Definite(_) => panic!("two literals are still unassigned"),
    }
}

#[test]
fn clause_evaluation_short_circuits_on_a_true_literal() {
    let a = Assignment::new().extend(Var::new(2), true);
    assert!(matches!(clause(&[1, 2, 3]).partial_assign(&a), Partial::Definite(true)));
}

#[test]
fn clause_with_all_literals_false_is_definitely_false() {
    let a = Assignment::new().extend(Var::new(1), false).extend(Var::new(2), true);
    assert!(matches!(clause(&[1, -2]).partial_assign(&a), Partial::Definite(false)));
}

#[test]
fn fully_assigned_formula_evaluates_as_direct_substitution() {
    // Idempotence of evaluation: with every variable bound, the outcome is
    // definite and equals substituting the values clause by clause.
    let sat_assignment = Assignment::new().extend(Var::new(1), true).extend(Var::new(2), false);
    let cnf = Cnf {
        header: Header { var_count: 2, clause_count: 2 },
        clauses: vec![clause(&[1, 2]), clause(&[-2])],
    };
    assert!(matches!(cnf.partial_assign(&sat_assignment), Partial::Definite(true)));
    let unsat_assignment = Assignment::new().extend(Var::new(1), false).extend(Var::new(2), false);
    assert!(matches!(cnf.partial_assign(&unsat_assignment), Partial::Definite(false)));
}

#[test]
fn irrelevant_binding_does_not_change_a_clause_outcome() {
    // The second half of the idempotence law, on concrete values: binding a
    // variable the clause never names changes nothing.
    let c = clause(&[1, -2]);
    let a = Assignment::new().extend(Var::new(2), true);
    let extended = a.extend(Var::new(7), false);
    let before = c.partial_assign(&a);
    let after = c.partial_assign(&extended);
    match (before, after) {
        (Partial::Indefinite(x), Partial::Indefinite(y)) => {
            assert_eq!(x.entries.len(), y.entries.len());
            assert_eq!(x.entries[0].var(), y.entries[0].var());
        }
        _ => panic!("both evaluations keep the one unassigned literal"),
    }
}

#[test]
fn satisfied_clause_stays_satisfied_under_extension() {
    // Monotonicity on concrete values: a clause made definitely true keeps
    // that outcome under any further binding.
    let c = clause(&[1, 2]);
    let a = Assignment::new().extend(Var::new(1), true);
    assert!(matches!(c.partial_assign(&a), Partial::Definite(true)));
    let more = a.extend(Var::new(2), false).extend(Var::new(3), true);
    assert!(matches!(c.partial_assign(&more), Partial::Definite(true)));
}

#[test]
fn formula_evaluation_drops_satisfied_clauses() {
    let a = Assignment::new().extend(Var::new(1), true);
    let cnf = Cnf {
        header: Header { var_count: 3, clause_count: 2 },
        clauses: vec![clause(&[1, 2]), clause(&[-1, 3])],
    };
    match cnf.partial_assign(&a) {
        Partial::Indefinite(res) => {
            assert_eq!(res.header.var_count, 3);
            assert_eq!(res.clauses.len(), 1);
            assert_eq!(res.clauses[0].entries.len(), 1);
            assert_eq!(res.clauses[0].entries[0].var(), Var::new(3));
        }
        Partial::Definite(_) => panic!("one clause is still open"),
    }
}

#[test]
fn clause_invalid_var_finds_the_first_out_of_range_literal() {
    let header = Header { var_count: 2, clause_count: 1 };
    let c = clause(&[1, 3, 4]);
    let (j, e) = c.invalid_var(header).expect("an out-of-range literal exists");
    assert_eq!(j, 1);
    assert_eq!(e.var(), Var::new(3));
    assert!(clause(&[1, -2]).invalid_var(header).is_none());
}
