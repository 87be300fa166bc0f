use vstd::prelude::*;

mod assignment;
mod cnf;
mod solver;

pub use assignment::Assignment;
pub use assignment::Partial;
pub use assignment::PartialAssign;
pub use assignment::clause_false_under;
pub use assignment::clause_sat;
pub use assignment::cnf_sat;
pub use assignment::entry_true;
pub use assignment::lemma_clause_sat_monotone;
pub use assignment::lemma_cnf_sat_monotone;
pub use assignment::lemma_empty_clause_unsat;
pub use assignment::lemma_empty_formula_sat;
pub use assignment::lemma_eval_fully_assigned;
pub use assignment::lemma_eval_fully_assigned_clause;
pub use assignment::lemma_irrelevant_extension;
pub use assignment::residual_of;
pub use assignment::unassigned_of;
pub use cnf::Clause;
pub use cnf::Cnf;
pub use cnf::Entry;
pub use cnf::Header;
pub use cnf::ParseClauseError;
pub use cnf::ParseCnfError;
pub use cnf::ParseEntryError;
pub use cnf::ParseHeaderError;
pub use cnf::Sign;
pub use cnf::Var;
pub use cnf::cnf_wf;
pub use cnf::digits_val;
pub use cnf::header_marked;
pub use cnf::int_token_val;
pub use cnf::is_digit;
pub use cnf::is_int_token;
pub use cnf::is_numeral;
pub use cnf::clause_from_tokens;
pub use cnf::clean_lits;
pub use cnf::clause_line_ok;
pub use cnf::clause_lines_ok;
pub use cnf::comment_line;
pub use cnf::duplicate_at;
pub use cnf::duplicate_in;
pub use cnf::header_at;
pub use cnf::header_err;
pub use cnf::header_from;
pub use cnf::header_pos;
pub use cnf::invalid_at;
pub use cnf::lines_of;
pub use cnf::linesplit;
pub use cnf::lit_of;
pub use cnf::lit_tok;
pub use cnf::lits_of;
pub use cnf::no_dup_vars;
pub use cnf::p_line;
pub use cnf::some_clause_line_ok;
pub use cnf::tokenize;
pub use cnf::tokens_of;
pub use cnf::var_out_of_range;
pub use cnf::ws_byte;
pub use cnf::zero_tok;
pub use solver::Solution;
pub use solver::Solver;
pub use solver::SolverError;
pub use solver::StackItem;
pub use solver::degenerate;
pub use solver::flat_vars;
pub use solver::fresh_vars;
pub use solver::occurrences;
pub use solver::occurs_in;
pub use solver::scope_of;
pub use solver::witness_solves;
pub use solver::total_over;

verus! {

/// Decide satisfiability of a well-formed formula. The verdict is exact:
/// `Satisfiable` comes with a witness satisfying every clause and binding
/// only variables the formula mentions, after `Unsatisfiable` no assignment
/// whatever satisfies the formula, and the fatal `NoUnassignedVar` error
/// comes exactly on the degenerate formulas that offer branching no
/// variable (nonempty, every clause empty). The empty conjunction is
/// satisfied by the empty assignment.
pub fn solve(cnf: Cnf) -> (r: Result<Solution, SolverError>)
    requires
        cnf.wf(),
    ensures
        match r {
            Ok(Solution::Satisfiable(a)) => cnf_sat(cnf@, a@) && forall|x: int|
                a@.contains_key(x) ==> occurs_in(cnf@, x) && 1 <= x <= cnf.header.var_count,
            Ok(Solution::Unsatisfiable) => forall|m: Map<int, bool>| !(#[trigger] cnf_sat(cnf@, m)),
            Err(e) => (e matches SolverError::NoUnassignedVar) && degenerate(cnf@),
        },
        degenerate(cnf@) ==> r is Err,
        cnf@.len() == 0 ==> (r matches Ok(Solution::Satisfiable(a)) && a@ == Map::<int,
            bool,
        >::empty()),
{
    let ghost cs = cnf@;
    let mut solver = Solver::new(cnf);
    proof {
        assert(solver.items()[0].cnf@ == cs);
        assert(forall|i: int, j: int|
            0 <= i < cs.len() && 0 <= j < cs[i].len() ==> !Map::<int, bool>::empty().contains_key(
                (#[trigger] cs[i][j]).var().id(),
            ));
        assert(fresh_vars(solver.items()[0].cnf@, solver.items()[0].assignment@));
        assert(solver.items().last() == solver.items()[0]);
    }
    let ghost items0 = solver.items();
    let r = solver.solve();
    proof {
        match &r {
            Ok(Solution::Satisfiable(a)) => {
                assert(witness_solves(items0, a@));
                let k = choose|k: int|
                    0 <= k < items0.len() && (#[trigger] items0[k]).assignment@.submap_of(a@)
                        && cnf_sat(items0[k].cnf@, a@) && (forall|x: int|
                        a@.contains_key(x) ==> scope_of(items0[k], x));
                assert(k == 0);
                assert(cnf_sat(cs, a@));
                assert forall|x: int| a@.contains_key(x) implies occurs_in(cs, x) && 1 <= x
                    <= cnf.header.var_count by {
                    assert(scope_of(items0[0], x));
                    assert(!items0[0].assignment@.contains_key(x));
                    assert(occurs_in(items0[0].cnf@, x));
                    let (i, j) = choose|i: int, j: int|
                        0 <= i < cs.len() && 0 <= j < cs[i].len() && (#[trigger] cs[i][j]).var().id()
                            == x;
                    assert(1 <= cs[i][j].var().id() <= cnf.header.var_count);
                }
            },
            Ok(Solution::Unsatisfiable) => {
                assert forall|m: Map<int, bool>| !(#[trigger] cnf_sat(cs, m)) by {
                    assert(items0[0].assignment@.submap_of(m));
                    if cnf_sat(cs, m) {
                        assert(cnf_sat(items0[0].cnf@, m));
                    }
                }
            },
            Err(e) => {
                let k = choose|k: int|
                    0 <= k < items0.len() && degenerate((#[trigger] items0[k]).cnf@);
                assert(k == 0);
                assert(degenerate(cs));
            },
        }
        if degenerate(cs) {
            assert(items0.len() > 0 && degenerate(items0.last().cnf@));
        }
        if cs.len() == 0 {
            match &r {
                Ok(Solution::Satisfiable(a)) => {
                    assert forall|x: int| !a@.contains_key(x) by {
                        if a@.contains_key(x) {
                            assert(occurs_in(cs, x));
                            let (i, j) = choose|i: int, j: int|
                                0 <= i < cs.len() && 0 <= j < cs[i].len() && (
                                #[trigger] cs[i][j]).var().id() == x;
                        }
                    }
                    assert(a@ =~= Map::<int, bool>::empty());
                },
                Ok(Solution::Unsatisfiable) => {
                    assert(items0[0].assignment@.submap_of(Map::<int, bool>::empty()));
                    assert(cnf_sat(items0[0].cnf@, Map::<int, bool>::empty()));
                    assert(false);
                },
                Err(_) => {
                    let k = choose|k: int|
                        0 <= k < items0.len() && degenerate((#[trigger] items0[k]).cnf@);
                    assert(false);
                },
            }
        }
    }
    r
}

/// The verdict kind alone, the witness assignment forgotten: what a driver
/// compares against an expected outcome.
#[derive(Debug, Clone, Copy, PartialEq, Eq, Structural)]
pub enum SimpleSolution {
    Satisfiable,
    Unsatisfiable,
}

impl SimpleSolution {
    /// The kind of a full verdict.
    pub fn of_solution(solution: &Solution) -> (r: Self)
        ensures
            r == (match solution {
                Solution::Satisfiable(_) => SimpleSolution::Satisfiable,
                Solution::Unsatisfiable => SimpleSolution::Unsatisfiable,
            }),
    {
        match solution {
            Solution::Satisfiable(_) => Self::Satisfiable,
            Solution::Unsatisfiable => Self::Unsatisfiable,
        }
    }
}

} // verus!
