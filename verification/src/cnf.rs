use vstd::prelude::*;

mod clause;
mod entry;
mod header;

pub use clause::Clause;
pub use clause::ParseClauseError;
pub use entry::Entry;
pub use entry::ParseEntryError;
pub use entry::Sign;
pub use entry::Var;
pub use clause::clause_from_tokens;

pub use clause::clean_lits;
pub use clause::duplicate_at;
pub use clause::duplicate_in;
pub use clause::invalid_at;
pub use clause::lits_of;
pub use clause::no_dup_vars;
pub use clause::tokenize;
pub use clause::tokens_of;
pub use clause::ws_byte;
pub use entry::digits_val;
pub use entry::int_token_val;
pub use entry::is_digit;
pub use entry::is_int_token;
pub use entry::is_numeral;
pub use entry::lit_of;
pub use entry::lit_tok;
pub use entry::zero_tok;
pub use header::Header;
pub use header::ParseHeaderError;
pub use header::header_err;
pub use header::header_from;
pub use header::header_marked;

use clause::split_ws;

verus! {

/// A formula in conjunctive normal form: a header and the conjunction of its
/// clauses. A formula with no clauses is trivially satisfied.
#[derive(Debug, Clone)]
pub struct Cnf {
    pub header: Header,
    pub clauses: Vec<Clause>,
}

impl View for Cnf {
    type V = Seq<Seq<Entry>>;

    open spec fn view(&self) -> Seq<Seq<Entry>> {
        self.clauses@.map_values(|c: Clause| c@)
    }
}

/// Every literal of every clause names a variable in `1..=n`.
pub open spec fn cnf_wf(cs: Seq<Seq<Entry>>, n: int) -> bool {
    forall|i: int, j: int|
        0 <= i < cs.len() && 0 <= j < cs[i].len() ==> 1 <= (#[trigger] cs[i][j]).var().id() <= n
}

impl Cnf {
    /// The invariant the parser establishes and the solver assumes: every
    /// literal's variable lies within the declared range.
    pub open spec fn wf(self) -> bool {
        cnf_wf(self@, self.header.var_count as int)
    }
}

/// Splitting the tail of `t` from position `i` into lines at each newline
/// byte, with the line read so far and the lines already complete; a final
/// line without a trailing newline counts, a trailing newline adds no
/// empty line.
pub open spec fn linesplit(t: Seq<u8>, i: int, cur: Seq<u8>, acc: Seq<Seq<u8>>) -> Seq<Seq<u8>>
    decreases t.len() - i,
{
    if i < 0 || i >= t.len() {
        if cur.len() > 0 {
            acc.push(cur)
        } else {
            acc
        }
    } else if t[i] == 10 {
        linesplit(t, i + 1, Seq::empty(), acc.push(cur))
    } else {
        linesplit(t, i + 1, cur.push(t[i]), acc)
    }
}

/// The lines of a text, in order.
pub open spec fn lines_of(t: Seq<u8>) -> Seq<Seq<u8>> {
    linesplit(t, 0, Seq::empty(), Seq::empty())
}

/// The line's first token is the comment mark `c`.
pub open spec fn comment_line(l: Seq<u8>) -> bool {
    tokens_of(l).len() > 0 && tokens_of(l)[0] == seq![99u8]
}

/// The line opens with the `p` mark of a header.
pub open spec fn p_line(l: Seq<u8>) -> bool {
    tokens_of(l).len() > 0 && tokens_of(l)[0] == seq![112u8]
}

/// `h` is the position of the first line that is no comment.
pub open spec fn header_pos(ls: Seq<Seq<u8>>, h: int) -> bool {
    0 <= h < ls.len() && !comment_line(ls[h]) && forall|k: int|
        0 <= k < h ==> comment_line(#[trigger] ls[k])
}

/// The first non-comment line stands at `h` and declares the header `hh`.
pub open spec fn header_at(ls: Seq<Seq<u8>>, h: int, hh: Header) -> bool {
    header_pos(ls, h) && header_from(tokens_of(ls[h]), hh)
}

/// The line parses as the clause `es`, every variable within `1..=n`.
pub open spec fn clause_line_ok(l: Seq<u8>, es: Seq<Entry>, n: int) -> bool {
    clause_from_tokens(tokens_of(l), es) && forall|j: int|
        0 <= j < es.len() ==> (#[trigger] es[j]).var().id() <= n
}

/// Some clause parses from the line, every variable within `1..=n`.
pub open spec fn some_clause_line_ok(l: Seq<u8>, n: int) -> bool {
    exists|es: Seq<Entry>| #[trigger] clause_line_ok(l, es, n)
}

/// The first `i` clause lines after line `h` all parse, with every variable
/// within `1..=n`.
pub open spec fn clause_lines_ok(ls: Seq<Seq<u8>>, h: int, i: int, n: int) -> bool {
    forall|p: int| 0 <= p < i ==> some_clause_line_ok(#[trigger] ls[h + 1 + p], n)
}

/// After a header at line `h` and `i` good clause lines, clause line `i`
/// parses but holds, at literal position `q`, a variable `v` above the
/// declared bound `vc` -- the first literal out of range.
pub open spec fn var_out_of_range(ls: Seq<Seq<u8>>, vc: usize, v: Var, i: usize, q: usize) -> bool {
    exists|h: int, hh: Header, es: Seq<Entry>|
        #![trigger header_at(ls, h, hh), clause_from_tokens(tokens_of(ls[h + 1 + i]), es)]
        header_at(ls, h, hh) && vc == hh.var_count && i < hh.clause_count && h + 1 + i < ls.len()
            && clause_lines_ok(ls, h, i as int, hh.var_count as int) && clause_from_tokens(
            tokens_of(ls[h + 1 + i]),
            es,
        ) && 0 <= q < es.len() && es[q as int].var() == v && v.id() > vc && (forall|q2: int|
            0 <= q2 < q ==> (#[trigger] es[q2]).var().id() <= vc)
}

/// Split a text into its lines; the result is exactly `lines_of` the text.
fn split_lines(text: &Vec<u8>) -> (r: Vec<Vec<u8>>)
    ensures
        r@.map_values(|l: Vec<u8>| l@) == lines_of(text@),
{
    let n = text.len();
    let mut lines: Vec<Vec<u8>> = Vec::new();
    let mut cur: Vec<u8> = Vec::new();
    let mut i: usize = 0;
    proof {
        assert(lines@.map_values(|l: Vec<u8>| l@) =~= Seq::<Seq<u8>>::empty());
        assert(cur@ =~= Seq::<u8>::empty());
    }
    while i < n
        invariant
            0 <= i <= n,
            n == text@.len(),
            lines_of(text@) == linesplit(
                text@,
                i as int,
                cur@,
                lines@.map_values(|l: Vec<u8>| l@),
            ),
        decreases n - i,
    {
        let c = text[i];
        let ghost acc0 = lines@.map_values(|l: Vec<u8>| l@);
        let ghost cur0 = cur@;
        if c == 10 {
            lines.push(cur);
            cur = Vec::new();
            proof {
                assert(cur@ =~= Seq::<u8>::empty());
                assert(lines@.map_values(|l: Vec<u8>| l@) =~= acc0.push(cur0));
                assert(linesplit(text@, i as int, cur0, acc0) == linesplit(
                    text@,
                    i + 1,
                    Seq::empty(),
                    acc0.push(cur0),
                ));
            }
        } else {
            cur.push(c);
            proof {
                assert(linesplit(text@, i as int, cur0, acc0) == linesplit(
                    text@,
                    i + 1,
                    cur@,
                    acc0,
                ));
            }
        }
        i += 1;
    }
    let ghost accn = lines@.map_values(|l: Vec<u8>| l@);
    let ghost curn = cur@;
    if cur.len() > 0 {
        lines.push(cur);
    }
    proof {
        assert(lines@.map_values(|l: Vec<u8>| l@) =~= if curn.len() > 0 {
            accn.push(curn)
        } else {
            accn
        });
        assert(linesplit(text@, n as int, curn, accn) == if curn.len() > 0 {
            accn.push(curn)
        } else {
            accn
        });
    }
    lines
}

impl Cnf {
    /// Parse a DIMACS-style text: comment lines led by a `c` token, then a
    /// `p cnf <vars> <clauses>` header, then exactly the declared number of
    /// clause lines. On success the header is read from the first
    /// non-comment line and each clause from its line in order, every
    /// literal's variable lies in `1..=var_count`, and no clause names a
    /// variable twice; each error names the first offending line and token.
    #[verifier::rlimit(60)]
    pub fn parse(text: &Vec<u8>) -> (r: Result<Cnf, ParseCnfError>)
        ensures
            ({
                let ls = lines_of(text@);
                match r {
                    Ok(cnf) => {
                        &&& exists|h: int|
                            #[trigger] header_at(ls, h, cnf.header) && h + 1
                                + cnf.header.clause_count <= ls.len() && (forall|p: int|
                                0 <= p < cnf@.len() ==> clause_line_ok(
                                    ls[h + 1 + p],
                                    #[trigger] cnf@[p],
                                    cnf.header.var_count as int,
                                ))
                        &&& cnf.wf()
                        &&& cnf@.len() == cnf.header.clause_count
                        &&& forall|i: int| 0 <= i < cnf@.len() ==> no_dup_vars(#[trigger] cnf@[i])
                    },
                    Err(ParseCnfError::NoHeader) => (forall|k: int|
                        0 <= k < ls.len() ==> comment_line(#[trigger] ls[k])) || exists|h: int|
                        #[trigger] header_pos(ls, h) && !p_line(ls[h]),
                    Err(ParseCnfError::InvalidHeader(e)) => exists|h: int|
                        #[trigger] header_pos(ls, h) && p_line(ls[h]) && header_err(
                            tokens_of(ls[h]),
                            e,
                        ),
                    Err(ParseCnfError::InvalidClause(ce, i)) => exists|h: int, hh: Header|
                        #[trigger] header_at(ls, h, hh) && i < hh.clause_count && h + 1 + i
                            < ls.len() && clause_lines_ok(ls, h, i as int, hh.var_count as int)
                            && match ce {
                            ParseClauseError::DuplicateVar(v) => crate::cnf::clause::duplicate_in(
                                tokens_of(ls[h + 1 + i]),
                                v,
                            ),
                            ParseClauseError::InvalidEntry(err, q) => err
                                == ParseEntryError::InvalidInt && crate::cnf::clause::invalid_at(
                                tokens_of(ls[h + 1 + i]),
                                q as int,
                            ),
                            ParseClauseError::NoTerminator => false,
                        },
                    Err(ParseCnfError::InvalidVar(vc, v, i, q)) => var_out_of_range(
                        ls,
                        vc,
                        v,
                        i,
                        q,
                    ),
                    Err(ParseCnfError::InsufficientClauses(cc, got)) => exists|h: int, hh: Header|
                        #[trigger] header_at(ls, h, hh) && cc == hh.clause_count && got == ls.len()
                            - (h + 1) && got < cc && clause_lines_ok(
                            ls,
                            h,
                            got as int,
                            hh.var_count as int,
                        ),
                }
            }),
    {
        let lines = split_lines(text);
        let ghost ls = lines_of(text@);
        proof {
            assert(ls == lines@.map_values(|l: Vec<u8>| l@));
            assert(forall|p: int| 0 <= p < lines@.len() ==> (#[trigger] lines@[p])@ == ls[p]);
        }
        let ln = lines.len();
        let mut li: usize = 0;
        let mut header_opt: Option<Header> = None;
        let ghost mut h0: int = 0;
        while li < ln && header_opt.is_none()
            invariant
                0 <= li <= ln,
                ln == lines@.len(),
                ls == lines_of(text@),
                ls.len() == ln,
                forall|p: int| 0 <= p < lines@.len() ==> (#[trigger] lines@[p])@ == ls[p],
                header_opt is None ==> forall|k: int| 0 <= k < li ==> comment_line(#[trigger] ls[k]),
                header_opt matches Some(hh) ==> header_at(ls, h0, hh) && li == h0 + 1,
            decreases ln - li,
        {
            let tokens = split_ws(&lines[li]);
            proof {
                assert(tokens@.map_values(|t: Vec<u8>| t@) == tokens_of(ls[li as int]));
            }
            if tokens.len() == 0 {
                proof {
                    assert(tokens_of(ls[li as int]).len() == 0);
                    assert(!comment_line(ls[li as int]));
                    assert(!p_line(ls[li as int]));
                    assert(header_pos(ls, li as int));
                }
                return Err(ParseCnfError::NoHeader);
            }
            let t0 = &tokens[0];
            if t0.len() == 1 && t0[0] == 99 {
                proof {
                    assert(tokens@[0]@ =~= seq![99u8]);
                    assert(tokens_of(ls[li as int])[0] == tokens@[0]@);
                    assert(comment_line(ls[li as int]));
                }
                li += 1;
            } else if t0.len() == 1 && t0[0] == 112 {
                proof {
                    assert(tokens@[0]@ =~= seq![112u8]);
                    assert(tokens_of(ls[li as int])[0] == tokens@[0]@);
                    assert(seq![112u8][0] != seq![99u8][0]);
                    assert(!comment_line(ls[li as int]));
                    assert(p_line(ls[li as int]));
                    assert(header_pos(ls, li as int));
                }
                match Header::parse(&tokens) {
                    Ok(h) => {
                        proof {
                            h0 = li as int;
                            assert(header_from(tokens_of(ls[h0]), h));
                            assert(header_at(ls, h0, h));
                        }
                        header_opt = Some(h);
                        li += 1;
                    },
                    Err(e) => {
                        proof {
                            assert(header_err(tokens_of(ls[li as int]), e));
                        }
                        return Err(ParseCnfError::InvalidHeader(e));
                    },
                }
            } else {
                proof {
                    assert(tokens_of(ls[li as int]).len() > 0);
                    assert(tokens_of(ls[li as int])[0] == tokens@[0]@);
                    assert(tokens@[0]@ != seq![99u8]);
                    assert(tokens@[0]@ != seq![112u8]);
                    assert(!comment_line(ls[li as int]));
                    assert(!p_line(ls[li as int]));
                    assert(header_pos(ls, li as int));
                }
                return Err(ParseCnfError::NoHeader);
            }
        }
        let header = match header_opt {
            Some(h) => h,
            None => {
                return Err(ParseCnfError::NoHeader);
            },
        };

        let mut clauses: Vec<Clause> = Vec::new();
        let mut i: usize = 0;
        while i < header.clause_count && li < ln
            invariant
                0 <= li <= ln,
                ln == lines@.len(),
                ls == lines_of(text@),
                ls.len() == ln,
                forall|p: int| 0 <= p < lines@.len() ==> (#[trigger] lines@[p])@ == ls[p],
                header_at(ls, h0, header),
                li == h0 + 1 + i,
                i <= header.clause_count,
                i == clauses@.len(),
                forall|p: int|
                    0 <= p < clauses@.len() ==> clause_line_ok(
                        ls[h0 + 1 + p],
                        (#[trigger] clauses@[p])@,
                        header.var_count as int,
                    ),
                forall|k: int, j: int|
                    0 <= k < clauses@.len() && 0 <= j < clauses@[k]@.len() ==> 1 <= (
                    #[trigger] clauses@[k]@[j]).var().id() <= header.var_count,
                forall|k: int| 0 <= k < clauses@.len() ==> no_dup_vars((#[trigger] clauses@[k])@),
            decreases ln - li,
        {
            match Clause::parse(&lines[li]) {
                Ok(clause) => {
                    proof {
                        assert(clause_from_tokens(tokens_of(ls[li as int]), clause@));
                    }
                    if let Some((q, entry)) = clause.invalid_var(header) {
                        proof {
                            assert forall|p: int| 0 <= p < i implies some_clause_line_ok(
                                #[trigger] ls[h0 + 1 + p],
                                header.var_count as int,
                            ) by {
                                assert(clause_line_ok(
                                    ls[h0 + 1 + p],
                                    clauses@[p]@,
                                    header.var_count as int,
                                ));
                            }
                            assert(clause_lines_ok(ls, h0, i as int, header.var_count as int));
                            assert(clause@[q as int] == entry);
                            assert(entry.var().id() > header.var_count);
                            assert(clause_from_tokens(tokens_of(ls[h0 + 1 + i]), clause@));
                            assert(var_out_of_range(
                                ls,
                                header.var_count,
                                entry.var(),
                                i,
                                q,
                            ));
                        }
                        return Err(
                            ParseCnfError::InvalidVar(header.var_count, entry.var(), i, q),
                        );
                    }
                    clauses.push(clause);
                    proof {
                        assert(clause_line_ok(
                            ls[h0 + 1 + i],
                            clauses@[i as int]@,
                            header.var_count as int,
                        ));
                    }
                },
                Err(e) => {
                    proof {
                        assert forall|p: int| 0 <= p < i implies some_clause_line_ok(
                            #[trigger] ls[h0 + 1 + p],
                            header.var_count as int,
                        ) by {
                            assert(clause_line_ok(
                                ls[h0 + 1 + p],
                                clauses@[p]@,
                                header.var_count as int,
                            ));
                        }
                        assert(clause_lines_ok(ls, h0, i as int, header.var_count as int));
                    }
                    return Err(ParseCnfError::InvalidClause(e, i));
                },
            }
            li += 1;
            i += 1;
        }
        if clauses.len() != header.clause_count {
            proof {
                assert(li == ln);
                assert forall|p: int| 0 <= p < i implies some_clause_line_ok(
                    #[trigger] ls[h0 + 1 + p],
                    header.var_count as int,
                ) by {
                    assert(clause_line_ok(ls[h0 + 1 + p], clauses@[p]@, header.var_count as int));
                }
                assert(clause_lines_ok(ls, h0, i as int, header.var_count as int));
                assert(clauses@.len() == ls.len() - (h0 + 1));
            }
            return Err(
                ParseCnfError::InsufficientClauses(header.clause_count, clauses.len()),
            );
        }
        let r = Cnf { header, clauses };
        proof {
            assert(r@.len() == r.clauses@.len());
            assert forall|a: int, b: int|
                0 <= a < r@.len() && 0 <= b < r@[a].len() implies 1 <= (#[trigger] r@[a][b]).var().id()
                <= r.header.var_count by {
                assert(r@[a] == r.clauses@[a]@);
            }
            assert forall|a: int| 0 <= a < r@.len() implies no_dup_vars(#[trigger] r@[a]) by {
                assert(r@[a] == r.clauses@[a]@);
            }
            assert forall|p: int| 0 <= p < r@.len() implies clause_line_ok(
                ls[h0 + 1 + p],
                #[trigger] r@[p],
                r.header.var_count as int,
            ) by {
                assert(r@[p] == r.clauses@[p]@);
            }
            assert(header_at(ls, h0, r.header) && h0 + 1 + r.header.clause_count <= ls.len());
        }
        Ok(r)
    }
}

/// Why a formula text fails to parse.
#[derive(Debug, Clone, PartialEq, Eq, Structural)]
pub enum ParseCnfError {
    /// The text ends, or a non-comment line appears, before a header line.
    NoHeader,
    /// The header line is malformed.
    InvalidHeader(ParseHeaderError),
    /// A clause line is malformed; its position among the clauses is attached.
    InvalidClause(ParseClauseError, usize),
    /// A literal names a variable outside the declared range: the declared
    /// count, the variable, the clause position and the literal position.
    InvalidVar(usize, Var, usize, usize),
    /// The text ends before the declared number of clauses.
    InsufficientClauses(usize, usize),
}

} // verus!
