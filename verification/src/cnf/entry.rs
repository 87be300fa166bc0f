use vstd::prelude::*;

use crate::cnf::header::Header;

verus! {

/// A propositional variable, identified by an integer; the identifiers a
/// formula may use are `1..=var_count` of its header.
#[derive(Debug, Clone, Copy, PartialEq, Eq, Hash, Structural)]
pub struct Var(usize);

impl Var {
    /// The identifier of this variable, as a mathematical integer.
    pub closed spec fn id(self) -> int {
        self.0 as int
    }

    pub fn new(i: usize) -> (r: Self)
        ensures
            r.id() == i,
    {
        Var(i)
    }

    /// Whether this variable lies under the bound a header declares.
    pub fn is_valid(self, header: Header) -> (r: bool)
        ensures
            r == (self.id() <= header.var_count),
    {
        self.0 <= header.var_count
    }

    /// Two variables are equal exactly when their identifiers are.
    pub proof fn lemma_id_injective(a: Var, b: Var)
        ensures
            (a == b) <==> (a.id() == b.id()),
    {
    }
}

/// The polarity of a literal.
#[derive(Debug, Clone, Copy)]
pub enum Sign {
    Pos,
    Neg,
}

impl Sign {
    /// Applying a polarity to a boolean: `Neg` flips it, `Pos` keeps it.
    pub open spec fn spec_apply(self, b: bool) -> bool {
        match self {
            Sign::Pos => b,
            Sign::Neg => !b,
        }
    }

    #[verifier::when_used_as_spec(spec_apply)]
    pub fn apply(self, b: bool) -> (r: bool)
        ensures
            r == self.spec_apply(b),
    {
        match self {
            Sign::Pos => b,
            Sign::Neg => !b,
        }
    }
}

/// A literal: a variable together with a polarity.
#[derive(Debug, Clone, Copy)]
pub struct Entry {
    sign: Sign,
    var: Var,
}

impl Entry {
    pub closed spec fn spec_var(&self) -> Var {
        self.var
    }

    pub closed spec fn spec_sign(&self) -> Sign {
        self.sign
    }

    pub fn new(sign: Sign, var: Var) -> (r: Self)
        ensures
            r.spec_sign() == sign,
            r.spec_var() == var,
    {
        Entry { sign, var }
    }

    #[verifier::when_used_as_spec(spec_var)]
    pub fn var(&self) -> (v: Var)
        ensures
            v == self.spec_var(),
    {
        self.var
    }

    #[verifier::when_used_as_spec(spec_sign)]
    pub fn sign(&self) -> (s: Sign)
        ensures
            s == self.spec_sign(),
    {
        self.sign
    }
}

/// Whether a byte is an ASCII decimal digit.
pub open spec fn is_digit(c: u8) -> bool {
    48 <= c <= 57
}

/// The value of a digit string, most significant digit first.
pub open spec fn digits_val(s: Seq<u8>) -> int
    decreases s.len(),
{
    if s.len() == 0 {
        0
    } else {
        digits_val(s.drop_last()) * 10 + (s.last() - 48)
    }
}

/// A nonempty string of decimal digits.
pub open spec fn is_numeral(s: Seq<u8>) -> bool {
    s.len() > 0 && forall|i: int| 0 <= i < s.len() ==> is_digit(#[trigger] s[i])
}

/// A numeral with an optional leading minus sign.
pub open spec fn is_int_token(s: Seq<u8>) -> bool {
    if s.len() > 0 && s[0] == 45 {
        is_numeral(s.skip(1))
    } else {
        is_numeral(s)
    }
}

/// The signed value of an integer token.
pub open spec fn int_token_val(s: Seq<u8>) -> int {
    if s.len() > 0 && s[0] == 45 {
        -digits_val(s.skip(1))
    } else {
        digits_val(s)
    }
}

proof fn lemma_digits_val_bounds(s: Seq<u8>, i: int)
    requires
        forall|j: int| 0 <= j < s.len() ==> is_digit(#[trigger] s[j]),
        0 <= i <= s.len(),
    ensures
        0 <= digits_val(s.subrange(0, i)) <= digits_val(s),
    decreases s.len(),
{
    if s.len() == 0 {
        assert(s.subrange(0, i) =~= s);
    } else {
        let dl = s.drop_last();
        assert forall|j: int| 0 <= j < dl.len() implies is_digit(#[trigger] dl[j]) by {
            assert(dl[j] == s[j]);
        }
        lemma_digits_val_bounds(dl, s.len() - 1);
        assert(dl.subrange(0, s.len() - 1) =~= dl);
        assert(is_digit(s.last()));
        assert(digits_val(s) == digits_val(dl) * 10 + (s.last() - 48));
        if i == s.len() {
            assert(s.subrange(0, i) =~= s);
        } else {
            lemma_digits_val_bounds(dl, i);
            assert(s.subrange(0, i) =~= dl.subrange(0, i));
        }
    }
}

/// Parse the digits of `tok` from position `start` to its end as an
/// unsigned machine integer; `None` where they are not a numeral or the
/// value does not fit.
pub(crate) fn parse_digits(tok: &Vec<u8>, start: usize) -> (r: Option<usize>)
    requires
        start <= tok@.len(),
    ensures
        ({
            let s = tok@.skip(start as int);
            match r {
                Some(v) => is_numeral(s) && v == digits_val(s),
                None => !(is_numeral(s) && digits_val(s) <= usize::MAX),
            }
        }),
{
    let ghost s = tok@.skip(start as int);
    let n = tok.len();
    if start == n {
        proof {
            assert(s.len() == 0);
        }
        return None;
    }
    let mut v: usize = 0;
    let mut i: usize = start;
    while i < n
        invariant
            start <= i <= n,
            n == tok@.len(),
            s == tok@.skip(start as int),
            forall|j: int| 0 <= j < i - start ==> is_digit(#[trigger] s[j]),
            v == digits_val(s.subrange(0, i - start)),
        decreases n - i,
    {
        let c = tok[i];
        proof {
            assert(s[i - start] == tok@[i as int]);
            assert(s.subrange(0, i + 1 - start).drop_last() =~= s.subrange(0, i - start));
            assert(s.subrange(0, i + 1 - start).last() == s[i - start]);
        }
        if c < 48 || c > 57 {
            proof {
                assert(!is_digit(s[i - start]));
                assert(!is_numeral(s));
            }
            return None;
        }
        let d = (c - 48) as usize;
        if v > (usize::MAX - d) / 10 {
            proof {
                assert(10 * v + d > usize::MAX) by (nonlinear_arith)
                    requires
                        v > (usize::MAX - d) / 10,
                        0 <= d <= 9,
                ;
                assert(digits_val(s.subrange(0, i + 1 - start)) == v * 10 + d);
                if is_numeral(s) {
                    lemma_digits_val_bounds(s, i + 1 - start);
                    assert(digits_val(s) > usize::MAX);
                }
            }
            return None;
        }
        v = v * 10 + d;
        i += 1;
    }
    proof {
        assert(s.subrange(0, n - start) =~= s);
        assert(is_numeral(s));
    }
    Some(v)
}

/// A token that denotes a literal: an integer token, nonzero, whose
/// magnitude fits the machine.
pub open spec fn lit_tok(s: Seq<u8>) -> bool {
    &&& is_int_token(s)
    &&& int_token_val(s) != 0
    &&& -(usize::MAX as int) <= int_token_val(s) <= usize::MAX
}

/// A token that denotes the clause terminator: the integer zero.
pub open spec fn zero_tok(s: Seq<u8>) -> bool {
    is_int_token(s) && int_token_val(s) == 0
}

/// The literal a token denotes: its magnitude as the variable, its sign as
/// the polarity.
pub closed spec fn lit_of(s: Seq<u8>) -> Entry {
    if int_token_val(s) < 0 {
        Entry { sign: Sign::Neg, var: Var((-int_token_val(s)) as usize) }
    } else {
        Entry { sign: Sign::Pos, var: Var(int_token_val(s) as usize) }
    }
}

impl Entry {
    /// Parse one token as a literal: a signed decimal integer, positive for
    /// a positive literal, negative for a negated one; `0` is the clause
    /// terminator and no literal.
    pub fn parse(tok: &Vec<u8>) -> (r: Result<Entry, ParseEntryError>)
        ensures
            match r {
                Ok(e) => {
                    &&& lit_tok(tok@)
                    &&& e == lit_of(tok@)
                    &&& e.var().id() >= 1
                    &&& (int_token_val(tok@) > 0 ==> e.sign() == Sign::Pos && e.var().id()
                        == int_token_val(tok@))
                    &&& (int_token_val(tok@) < 0 ==> e.sign() == Sign::Neg && e.var().id()
                        == -int_token_val(tok@))
                },
                Err(ParseEntryError::Zero) => zero_tok(tok@),
                Err(ParseEntryError::InvalidInt) => !lit_tok(tok@) && !zero_tok(tok@),
            },
    {
        if tok.len() > 0 && tok[0] == 45 {
            proof {
                assert(tok@.skip(1) == tok@.skip(1));
            }
            match parse_digits(tok, 1) {
                Some(v) => {
                    if v == 0 {
                        Err(ParseEntryError::Zero)
                    } else {
                        let e = Entry::new(Sign::Neg, Var::new(v));
                        proof {
                            assert(int_token_val(tok@) == -(v as int));
                            assert(e == lit_of(tok@));
                        }
                        Ok(e)
                    }
                },
                None => Err(ParseEntryError::InvalidInt),
            }
        } else {
            proof {
                assert(tok@.skip(0) =~= tok@);
            }
            match parse_digits(tok, 0) {
                Some(v) => {
                    if v == 0 {
                        Err(ParseEntryError::Zero)
                    } else {
                        let e = Entry::new(Sign::Pos, Var::new(v));
                        proof {
                            assert(int_token_val(tok@) == v as int);
                            assert(e == lit_of(tok@));
                        }
                        Ok(e)
                    }
                },
                None => Err(ParseEntryError::InvalidInt),
            }
        }
    }
}

/// Why a literal token fails to parse.
#[derive(Debug, Clone, PartialEq, Eq, Structural)]
pub enum ParseEntryError {
    /// The token is not a signed decimal integer that fits the machine.
    InvalidInt,
    /// The token is the clause terminator `0`, which is not a literal.
    Zero,
}

} // verus!
