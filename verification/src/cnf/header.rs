use vstd::prelude::*;

use crate::cnf::entry::digits_val;
use crate::cnf::entry::is_numeral;
use crate::cnf::entry::parse_digits;

verus! {

/// The declared variable and clause counts of a formula. Every literal of a
/// well-formed formula names a variable in `1..=var_count`, and the formula
/// holds exactly `clause_count` clauses.
#[derive(Debug, Clone, Copy)]
pub struct Header {
    pub var_count: usize,
    pub clause_count: usize,
}

/// The tokens of a header line: at least `p cnf <vars> <clauses>`, extra
/// tokens ignored.
pub open spec fn header_marked(ts: Seq<Seq<u8>>) -> bool {
    &&& ts.len() >= 4
    &&& ts[0] == seq![112u8]
    &&& ts[1] == seq![99u8, 110u8, 102u8]
}

/// The tokens declare exactly the counts of `h`.
pub open spec fn header_from(ts: Seq<Seq<u8>>, h: Header) -> bool {
    &&& header_marked(ts)
    &&& is_numeral(ts[2]) && h.var_count == digits_val(ts[2])
    &&& is_numeral(ts[3]) && h.clause_count == digits_val(ts[3])
}

/// Which of the header line's three shapes fails, by error.
pub open spec fn header_err(ts: Seq<Seq<u8>>, e: ParseHeaderError) -> bool {
    match e {
        ParseHeaderError::NotCnf => !header_marked(ts),
        ParseHeaderError::InvalidVarCount => header_marked(ts) && !(is_numeral(ts[2])
            && digits_val(ts[2]) <= usize::MAX),
        ParseHeaderError::InvalidClauseCount => header_marked(ts) && is_numeral(ts[2])
            && digits_val(ts[2]) <= usize::MAX && !(is_numeral(ts[3]) && digits_val(ts[3])
            <= usize::MAX),
    }
}

impl Header {
    /// Parse the tokens of a header line, `p cnf <vars> <clauses>`: the two
    /// counts must be numerals that fit the machine; which of the three
    /// shapes fails decides the error.
    pub fn parse(tokens: &Vec<Vec<u8>>) -> (r: Result<Header, ParseHeaderError>)
        ensures
            ({
                let ts = tokens@.map_values(|t: Vec<u8>| t@);
                match r {
                    Ok(h) => header_from(ts, h),
                    Err(e) => header_err(ts, e),
                }
            }),
    {
        let ghost ts = tokens@.map_values(|t: Vec<u8>| t@);
        if tokens.len() < 4 {
            return Err(ParseHeaderError::NotCnf);
        }
        let t0 = &tokens[0];
        if !(t0.len() == 1 && t0[0] == 112) {
            proof {
                assert(ts[0] == tokens@[0]@);
                assert(ts[0] != seq![112u8]);
            }
            return Err(ParseHeaderError::NotCnf);
        }
        let t1 = &tokens[1];
        if !(t1.len() == 3 && t1[0] == 99 && t1[1] == 110 && t1[2] == 102) {
            proof {
                assert(ts[1] == tokens@[1]@);
                assert(ts[1] != seq![99u8, 110u8, 102u8]);
            }
            return Err(ParseHeaderError::NotCnf);
        }
        proof {
            assert(tokens@[0]@ =~= seq![112u8]);
            assert(tokens@[1]@ =~= seq![99u8, 110u8, 102u8]);
            assert(ts[0] == tokens@[0]@ && ts[1] == tokens@[1]@);
            assert(ts[2] == tokens@[2]@ && ts[3] == tokens@[3]@);
            assert(tokens@[2]@.skip(0) =~= tokens@[2]@);
            assert(tokens@[3]@.skip(0) =~= tokens@[3]@);
        }
        let var_count = match parse_digits(&tokens[2], 0) {
            Some(v) => v,
            None => {
                return Err(ParseHeaderError::InvalidVarCount);
            },
        };
        let clause_count = match parse_digits(&tokens[3], 0) {
            Some(v) => v,
            None => {
                return Err(ParseHeaderError::InvalidClauseCount);
            },
        };
        Ok(Header { var_count, clause_count })
    }
}

/// Why a header line fails to parse.
#[derive(Debug, Clone, PartialEq, Eq, Structural)]
pub enum ParseHeaderError {
    /// The line is not of the form `p cnf <vars> <clauses>`.
    NotCnf,
    /// The declared variable count is not an unsigned integer that fits.
    InvalidVarCount,
    /// The declared clause count is not an unsigned integer that fits.
    InvalidClauseCount,
}

} // verus!
