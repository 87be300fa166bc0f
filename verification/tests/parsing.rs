use sat_solver::Cnf;
use sat_solver::Entry;
use sat_solver::Header;
use sat_solver::ParseClauseError;
use sat_solver::ParseCnfError;
use sat_solver::ParseEntryError;
use sat_solver::ParseHeaderError;
use sat_solver::Sign;
use sat_solver::Solution;
use sat_solver::Var;
use sat_solver::solve;

fn bytes(s: &str) -> Vec<u8> {
    s.as_bytes().to_vec()
}

fn tokens(words: &[&str]) -> Vec<Vec<u8>> {
    words.iter().map(|w| bytes(w)).collect()
}

#[test]
fn entry_parse_reads_signed_literals() {
    let e = Entry::parse(&bytes("12")).unwrap();
    assert_eq!(e.var(), Var::new(12));
    assert!(matches!(e.sign(), Sign::Pos));
    let e = Entry::parse(&bytes("-3")).unwrap();
    assert_eq!(e.var(), Var::new(3));
    assert!(matches!(e.sign(), Sign::Neg));
}

#[test]
fn entry_parse_rejects_the_terminator_and_junk() {
    assert_eq!(Entry::parse(&bytes("0")).unwrap_err(), ParseEntryError::Zero);
    assert_eq!(Entry::parse(&bytes("-0")).unwrap_err(), ParseEntryError::Zero);
    assert_eq!(Entry::parse(&bytes("x1")).unwrap_err(), ParseEntryError::InvalidInt);
    assert_eq!(Entry::parse(&bytes("")).unwrap_err(), ParseEntryError::InvalidInt);
    assert_eq!(Entry::parse(&bytes("-")).unwrap_err(), ParseEntryError::InvalidInt);
    assert_eq!(Entry::parse(&bytes("12a")).unwrap_err(), ParseEntryError::InvalidInt);
    assert_eq!(Entry::parse(&bytes("999999999999999999999999999999999999999")).unwrap_err(), ParseEntryError::InvalidInt);
}

#[test]
fn header_parse_reads_the_counts() {
    let h = Header::parse(&tokens(&["p", "cnf", "3", "2"])).unwrap();
    assert_eq!(h.var_count, 3);
    assert_eq!(h.clause_count, 2);
}

#[test]
fn header_parse_names_the_failing_part() {
    assert_eq!(Header::parse(&tokens(&["p", "cnf", "3"])).unwrap_err(), ParseHeaderError::NotCnf);
    assert_eq!(Header::parse(&tokens(&["q", "cnf", "3", "2"])).unwrap_err(), ParseHeaderError::NotCnf);
    assert_eq!(Header::parse(&tokens(&["p", "sat", "3", "2"])).unwrap_err(), ParseHeaderError::NotCnf);
    assert_eq!(Header::parse(&tokens(&["p", "cnf", "three", "2"])).unwrap_err(), ParseHeaderError::InvalidVarCount);
    assert_eq!(Header::parse(&tokens(&["p", "cnf", "3", "-2"])).unwrap_err(), ParseHeaderError::InvalidClauseCount);
}

#[test]
fn cnf_parse_reads_a_whole_problem() {
    let text = bytes("c a comment line\np cnf 3 2\n1 -2 0\n2 3 0\n");
    let cnf = Cnf::parse(&text).unwrap();
    assert_eq!(cnf.header.var_count, 3);
    assert_eq!(cnf.header.clause_count, 2);
    assert_eq!(cnf.clauses.len(), 2);
    assert_eq!(cnf.clauses[0].entries.len(), 2);
    assert_eq!(cnf.clauses[0].entries[0].var(), Var::new(1));
    assert!(matches!(cnf.clauses[0].entries[1].sign(), Sign::Neg));
    assert_eq!(cnf.clauses[1].entries[0].var(), Var::new(2));
}

#[test]
fn cnf_parse_then_solve_round() {
    let text = bytes("p cnf 2 2\n1 0\n-1 2 0\n");
    let cnf = Cnf::parse(&text).unwrap();
    match solve(cnf) {
        Ok(Solution::Satisfiable(a)) => {
            assert_eq!(a.get(Var::new(1)), Some(true));
            assert_eq!(a.get(Var::new(2)), Some(true));
        }
        other => panic!("expected a satisfiable verdict, got {:?}", other),
    }
}

#[test]
fn cnf_parse_requires_a_header() {
    assert_eq!(Cnf::parse(&bytes("")).unwrap_err(), ParseCnfError::NoHeader);
    assert_eq!(Cnf::parse(&bytes("c only comments\n")).unwrap_err(), ParseCnfError::NoHeader);
    assert_eq!(Cnf::parse(&bytes("1 2 0\n")).unwrap_err(), ParseCnfError::NoHeader);
    assert_eq!(Cnf::parse(&bytes("p cnf x 1\n1 0\n")).unwrap_err(), ParseCnfError::InvalidHeader(ParseHeaderError::InvalidVarCount));
}

#[test]
fn cnf_parse_localizes_a_bad_clause() {
    let text = bytes("p cnf 2 2\n1 0\n2 oops 0\n");
    assert_eq!(Cnf::parse(&text).unwrap_err(), ParseCnfError::InvalidClause(
            ParseClauseError::InvalidEntry(ParseEntryError::InvalidInt, 1),
            1
        ));
    let dup = bytes("p cnf 2 1\n1 -1 0\n");
    assert_eq!(Cnf::parse(&dup).unwrap_err(), ParseCnfError::InvalidClause(
            ParseClauseError::DuplicateVar(Var::new(1)),
            0
        ));
}

#[test]
fn cnf_parse_rejects_an_out_of_range_variable() {
    let text = bytes("p cnf 2 1\n1 3 0\n");
    assert_eq!(Cnf::parse(&text).unwrap_err(), ParseCnfError::InvalidVar(2, Var::new(3), 0, 1));
}

#[test]
fn cnf_parse_counts_the_clauses() {
    let text = bytes("p cnf 2 3\n1 0\n2 0\n");
    assert_eq!(Cnf::parse(&text).unwrap_err(), ParseCnfError::InsufficientClauses(3, 2));
}

#[test]
fn cnf_parse_ignores_tokens_after_the_terminator() {
    // The sentinel ends the clause; the solver never sees what follows it.
    let text = bytes("p cnf 2 1\n1 0 2\n");
    let cnf = Cnf::parse(&text).unwrap();
    assert_eq!(cnf.clauses[0].entries.len(), 1);
}
