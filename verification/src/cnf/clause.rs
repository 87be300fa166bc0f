use vstd::prelude::*;

use crate::cnf::entry::Entry;
use crate::cnf::entry::ParseEntryError;
use crate::cnf::entry::Var;
use crate::cnf::entry::lit_of;
use crate::cnf::entry::lit_tok;
use crate::cnf::entry::zero_tok;
use crate::cnf::header::Header;

verus! {

/// A disjunction of literals, in order. A clause with no literals can never
/// be satisfied.
#[derive(Debug, Clone)]
pub struct Clause {
    pub entries: Vec<Entry>,
}

impl View for Clause {
    type V = Seq<Entry>;

    open spec fn view(&self) -> Seq<Entry> {
        self.entries@
    }
}

impl Clause {
    /// The first literal, if any, whose variable lies outside the range the
    /// header declares, with its position.
    pub fn invalid_var(&self, header: Header) -> (r: Option<(usize, Entry)>)
        ensures
            match r {
                Some((j, e)) => {
                    &&& 0 <= j < self@.len()
                    &&& self@[j as int] == e
                    &&& e.var().id() > header.var_count
                    &&& forall|k: int|
                        0 <= k < j ==> #[trigger] self@[k].var().id() <= header.var_count
                },
                None => forall|k: int|
                    0 <= k < self@.len() ==> #[trigger] self@[k].var().id() <= header.var_count,
            },
    {
        let n = self.entries.len();
        let mut j: usize = 0;
        while j < n
            invariant
                0 <= j <= n,
                n == self.entries@.len(),
                forall|k: int| 0 <= k < j ==> #[trigger] self.entries@[k].var().id() <= header.var_count,
            decreases n - j,
        {
            let e = self.entries[j];
            if !e.var().is_valid(header) {
                return Some((j, e));
            }
            j += 1;
        }
        None
    }
}

/// No two literals of the clause name the same variable.
pub open spec fn no_dup_vars(es: Seq<Entry>) -> bool {
    forall|j1: int, j2: int|
        0 <= j1 < j2 < es.len() ==> (#[trigger] es[j1]).var().id() != (#[trigger] es[j2]).var().id()
}

/// Whether a byte separates tokens: space, tab or carriage return.
pub open spec fn ws_byte(c: u8) -> bool {
    c == 32 || c == 9 || c == 13
}

/// Splitting the tail of `l` from position `i` into whitespace-separated
/// tokens, with the token read so far and the tokens already complete.
pub open spec fn tokenize(l: Seq<u8>, i: int, cur: Seq<u8>, acc: Seq<Seq<u8>>) -> Seq<Seq<u8>>
    decreases l.len() - i,
{
    if i < 0 || i >= l.len() {
        if cur.len() > 0 {
            acc.push(cur)
        } else {
            acc
        }
    } else if ws_byte(l[i]) {
        tokenize(
            l,
            i + 1,
            Seq::empty(),
            if cur.len() > 0 {
                acc.push(cur)
            } else {
                acc
            },
        )
    } else {
        tokenize(l, i + 1, cur.push(l[i]), acc)
    }
}

/// The whitespace-separated tokens of a line, in order.
pub open spec fn tokens_of(l: Seq<u8>) -> Seq<Seq<u8>> {
    tokenize(l, 0, Seq::empty(), Seq::empty())
}

fn is_ws(c: u8) -> (r: bool)
    ensures
        r == ws_byte(c),
{
    c == 32 || c == 9 || c == 13
}

/// Split a line into its whitespace-separated tokens; the result is exactly
/// `tokens_of` the line, and every token is nonempty.
pub(crate) fn split_ws(line: &Vec<u8>) -> (r: Vec<Vec<u8>>)
    ensures
        r@.map_values(|t: Vec<u8>| t@) == tokens_of(line@),
        forall|k: int| 0 <= k < r@.len() ==> (#[trigger] r@[k])@.len() > 0,
{
    let n = line.len();
    let mut tokens: Vec<Vec<u8>> = Vec::new();
    let mut cur: Vec<u8> = Vec::new();
    let mut i: usize = 0;
    proof {
        assert(tokens@.map_values(|t: Vec<u8>| t@) =~= Seq::<Seq<u8>>::empty());
        assert(cur@ =~= Seq::<u8>::empty());
    }
    while i < n
        invariant
            0 <= i <= n,
            n == line@.len(),
            tokens_of(line@) == tokenize(
                line@,
                i as int,
                cur@,
                tokens@.map_values(|t: Vec<u8>| t@),
            ),
            forall|k: int| 0 <= k < tokens@.len() ==> (#[trigger] tokens@[k])@.len() > 0,
        decreases n - i,
    {
        let c = line[i];
        let ghost acc0 = tokens@.map_values(|t: Vec<u8>| t@);
        let ghost cur0 = cur@;
        if is_ws(c) {
            if cur.len() > 0 {
                tokens.push(cur);
                cur = Vec::new();
            }
            proof {
                assert(cur@ =~= Seq::<u8>::empty());
                assert(tokens@.map_values(|t: Vec<u8>| t@) =~= if cur0.len() > 0 {
                    acc0.push(cur0)
                } else {
                    acc0
                });
                assert(ws_byte(line@[i as int]));
                assert(tokenize(line@, i as int, cur0, acc0) == tokenize(
                    line@,
                    i + 1,
                    Seq::empty(),
                    tokens@.map_values(|t: Vec<u8>| t@),
                ));
            }
        } else {
            cur.push(c);
            proof {
                assert(tokenize(line@, i as int, cur0, acc0) == tokenize(
                    line@,
                    i + 1,
                    cur@,
                    acc0,
                ));
            }
        }
        i += 1;
    }
    let ghost accn = tokens@.map_values(|t: Vec<u8>| t@);
    let ghost curn = cur@;
    if cur.len() > 0 {
        tokens.push(cur);
    }
    proof {
        assert(tokens@.map_values(|t: Vec<u8>| t@) =~= if curn.len() > 0 {
            accn.push(curn)
        } else {
            accn
        });
        assert(tokenize(line@, n as int, curn, accn) == if curn.len() > 0 {
            accn.push(curn)
        } else {
            accn
        });
    }
    tokens
}

/// The literals the tokens denote, token by token.
pub open spec fn lits_of(toks: Seq<Seq<u8>>) -> Seq<Entry> {
    toks.map_values(|t: Seq<u8>| lit_of(t))
}

/// The first `n` tokens are literal tokens naming `n` distinct variables.
pub open spec fn clean_lits(toks: Seq<Seq<u8>>, n: int) -> bool {
    &&& 0 <= n <= toks.len()
    &&& forall|i: int| 0 <= i < n ==> lit_tok(#[trigger] toks[i])
    &&& no_dup_vars(lits_of(toks.take(n)))
}

/// The tokens parse as the clause `es`: a clean run of distinct literals up
/// to the `0` terminator or the end of the line, in order.
pub open spec fn clause_from_tokens(toks: Seq<Seq<u8>>, es: Seq<Entry>) -> bool {
    exists|n: int|
        #[trigger] clean_lits(toks, n) && (n == toks.len() || zero_tok(toks[n])) && es == lits_of(
            toks.take(n),
        )
}

/// After a clean run of `n` distinct literals, token `n` is a literal whose
/// variable `v` already occurred.
pub open spec fn duplicate_at(toks: Seq<Seq<u8>>, n: int, v: Var) -> bool {
    &&& clean_lits(toks, n)
    &&& n < toks.len()
    &&& lit_tok(toks[n])
    &&& lit_of(toks[n]).var() == v
    &&& exists|j: int| 0 <= j < n && lit_of(#[trigger] toks[j]).var().id() == v.id()
}

/// Some clean run of distinct literals ends at a literal whose variable
/// `v` already occurred.
pub open spec fn duplicate_in(toks: Seq<Seq<u8>>, v: Var) -> bool {
    exists|n: int| #[trigger] duplicate_at(toks, n, v)
}

/// After a clean run of `n` distinct literals, token `n` is neither a
/// literal nor the terminator.
pub open spec fn invalid_at(toks: Seq<Seq<u8>>, n: int) -> bool {
    clean_lits(toks, n) && n < toks.len() && !lit_tok(toks[n]) && !zero_tok(toks[n])
}

impl Clause {
    /// Parse one line as a clause: literal tokens up to a `0` terminator,
    /// rejecting a variable that occurs twice. On success the clause holds
    /// exactly the literals the tokens before the terminator denote, each
    /// naming a variable of at least 1 and no variable twice; each error
    /// names the first offending token.
    #[verifier::rlimit(100)]
    #[verifier::spinoff_prover]
    pub fn parse(line: &Vec<u8>) -> (r: Result<Clause, ParseClauseError>)
        ensures
            ({
                let toks = tokens_of(line@);
                match r {
                    Ok(c) => {
                        &&& clause_from_tokens(toks, c@)
                        &&& forall|j: int|
                            0 <= j < c@.len() ==> (#[trigger] c@[j]).var().id() >= 1
                        &&& no_dup_vars(c@)
                    },
                    Err(ParseClauseError::DuplicateVar(v)) => duplicate_in(toks, v),
                    Err(ParseClauseError::InvalidEntry(err, i)) => err
                        == ParseEntryError::InvalidInt && invalid_at(toks, i as int),
                    Err(ParseClauseError::NoTerminator) => false,
                }
            }),
    {
        let tokens = split_ws(line);
        let ghost toks = tokens_of(line@);
        proof {
            assert(toks == tokens@.map_values(|t: Vec<u8>| t@));
            assert(forall|p: int|
                0 <= p < tokens@.len() ==> (#[trigger] tokens@[p])@ == toks[p]);
        }
        let n = tokens.len();
        let mut entries: Vec<Entry> = Vec::new();
        let mut i: usize = 0;
        proof {
            assert(lits_of(toks.take(0)) =~= entries@);
        }
        while i < n
            invariant
                0 <= i <= n,
                n == tokens@.len(),
                toks == tokens_of(line@),
                toks == tokens@.map_values(|t: Vec<u8>| t@),
                forall|p: int| 0 <= p < tokens@.len() ==> (#[trigger] tokens@[p])@ == toks[p],
                clean_lits(toks, i as int),
                entries@ == lits_of(toks.take(i as int)),
                forall|j: int| 0 <= j < entries@.len() ==> (#[trigger] entries@[j]).var().id() >= 1,
                no_dup_vars(entries@),
            decreases n - i,
        {
            match Entry::parse(&tokens[i]) {
                Ok(e) => {
                    proof {
                        assert(lit_tok(toks[i as int]));
                        assert(e == lit_of(toks[i as int]));
                    }
                    let m = entries.len();
                    let mut dup = false;
                    let mut d: usize = 0;
                    while d < m
                        invariant
                            0 <= d <= m,
                            m == entries@.len(),
                            entries@ == lits_of(toks.take(i as int)),
                            toks == tokens_of(line@),
                            i < toks.len(),
                            e == lit_of(toks[i as int]),
                            clean_lits(toks, i as int),
                            i < tokens@.len(),
                            n == tokens@.len(),
                            lit_tok(toks[i as int]),
                            dup ==> exists|q: int|
                                #[trigger] duplicate_at(tokens_of(line@), q, e.var()),
                            !dup ==> forall|j: int|
                                0 <= j < d ==> (#[trigger] entries@[j]).var().id() != e.var().id(),
                        decreases m - d,
                    {
                        if entries[d].var() == e.var() {
                            proof {
                                assert(entries@[d as int] == lits_of(toks.take(i as int))[
                                    d as int]);
                                assert(lit_of(toks.take(i as int)[d as int]).var().id()
                                    == e.var().id());
                                assert(toks.take(i as int)[d as int] == toks[d as int]);
                                assert(0 <= d < i);
                                assert(lit_of(toks[d as int]).var().id() == e.var().id());
                                assert(duplicate_at(tokens_of(line@), i as int, e.var()));
                            }
                            dup = true;
                        }
                        proof {
                            Var::lemma_id_injective(entries@[d as int].var(), e.var());
                        }
                        d += 1;
                    }
                    if dup {
                        proof {
                            assert(duplicate_in(tokens_of(line@), e.var()));
                        }
                        return Err(ParseClauseError::DuplicateVar(e.var()));
                    }
                    entries.push(e);
                    proof {
                        assert forall|j1: int, j2: int|
                            0 <= j1 < j2 < entries@.len() implies (#[trigger] entries@[j1]).var().id()
                            != (#[trigger] entries@[j2]).var().id() by {
                            if j2 < entries@.len() - 1 {
                            } else {
                                assert(entries@[j2] == e);
                            }
                        }
                        assert(entries@ =~= lits_of(toks.take(i + 1)));
                    }
                },
                Err(ParseEntryError::Zero) => {
                    proof {
                        assert(zero_tok(toks[i as int]));
                        assert(clause_from_tokens(toks, entries@));
                    }
                    return Ok(Clause { entries });
                },
                Err(err) => {
                    proof {
                        assert(err == ParseEntryError::InvalidInt);
                        assert(!lit_tok(toks[i as int]) && !zero_tok(toks[i as int]));
                        assert(invalid_at(toks, i as int));
                        assert(entries@.len() == i as int);
                    }
                    return Err(ParseClauseError::InvalidEntry(err, entries.len()));
                },
            }
            i += 1;
        }
        proof {
            assert(clause_from_tokens(toks, entries@));
        }
        Ok(Clause { entries })
    }
}

/// Why a clause line fails to parse.
#[derive(Debug, Clone, PartialEq, Eq, Structural)]
pub enum ParseClauseError {
    /// A token of the line is not a literal; the position of the offending
    /// token is attached.
    InvalidEntry(ParseEntryError, usize),
    /// The line holds no terminating `0`.
    NoTerminator,
    /// Two literals of the clause name the same variable.
    DuplicateVar(Var),
}

} // verus!
