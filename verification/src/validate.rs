//! Validation of the raw input text. The rules, checked in order with the
//! first failure winning: the text has at least one line; the first line
//! parses as an integer `n`; every following line carries exactly two
//! integer tokens, both strictly positive; the number of edge lines equals
//! `n`; and no integer on an edge line exceeds `n + 1`.

use vstd::prelude::*;
use crate::parse::{int_tokens, int_vals, is_int_token, int_val, parse_i32, spec_lines, split_lines};

verus! {

/// The reason the input text was rejected, one variant per validation rule.
#[derive(Clone, Copy, Debug, PartialEq, Eq, Structural)]
pub enum ParseError {
    /// The text has no line at all.
    InputEmpty,
    /// The first line does not parse as an integer node count.
    MalformedCount,
    /// An edge line does not carry exactly two integer tokens.
    MalformedEdgeLine,
    /// An integer on an edge line is zero or negative.
    NonPositiveReference,
    /// The number of edge lines differs from the declared node count.
    EdgeCountMismatch,
    /// An integer on an edge line exceeds the declared node count plus one.
    ReferenceOutOfRange,
}

/// What is wrong with one edge line, if anything: first the token arity,
/// then positivity.
pub open spec fn line_error(l: Seq<u8>) -> Option<ParseError> {
    let vs = int_vals(l);
    if vs.len() != 2 {
        Some(ParseError::MalformedEdgeLine)
    } else if !(vs[0] > 0 && vs[1] > 0) {
        Some(ParseError::NonPositiveReference)
    } else {
        None
    }
}

/// The first per-line error among the edge lines `ls[i..]`, if any.
pub open spec fn edge_lines_error(ls: Seq<Seq<u8>>, i: int) -> Option<ParseError>
    decreases ls.len() - i,
{
    if i < 1 || i >= ls.len() {
        None
    } else if line_error(ls[i]) is Some {
        line_error(ls[i])
    } else {
        edge_lines_error(ls, i + 1)
    }
}

/// No integer on any edge line exceeds `n + 1`.
pub open spec fn refs_in_range(ls: Seq<Seq<u8>>, n: int) -> bool {
    forall|i: int, j: int|
        1 <= i < ls.len() && 0 <= j < int_vals(ls[i]).len() ==> #[trigger] int_vals(ls[i])[j]
            <= n + 1
}

/// The outcome of validating the raw text `t`: the first rule broken, or
/// `None` when the text is well-formed.
pub open spec fn validate_result(t: Seq<u8>) -> Option<ParseError> {
    let ls = spec_lines(t);
    if ls.len() == 0 {
        Some(ParseError::InputEmpty)
    } else if !is_int_token(ls[0]) {
        Some(ParseError::MalformedCount)
    } else if edge_lines_error(ls, 1) is Some {
        edge_lines_error(ls, 1)
    } else if ls.len() - 1 != int_val(ls[0]) {
        Some(ParseError::EdgeCountMismatch)
    } else if !refs_in_range(ls, int_val(ls[0])) {
        Some(ParseError::ReferenceOutOfRange)
    } else {
        None
    }
}

/// The raw text `t` passes every validation rule.
pub open spec fn valid_input(t: Seq<u8>) -> bool {
    validate_result(t) is None
}

/// Checks the raw text against every rule and reports the declared node
/// count, or the first rule broken.
#[verifier::loop_isolation(false)]
pub fn validate(contents: &Vec<u8>) -> (r: Result<i32, ParseError>)
    ensures
        r is Ok <==> valid_input(contents@),
        r matches Err(e) ==> validate_result(contents@) == Some(e),
        r matches Ok(n) ==> {
            let ls = spec_lines(contents@);
            &&& n as int == int_val(ls[0])
            &&& ls.len() == n + 1
            &&& n >= 0
        },
{
    let ghost ls = spec_lines(contents@);
    let lines = split_lines(contents);
    proof {
        assert(lines@.len() == ls.len());
        assert forall|i: int| 0 <= i < lines@.len() implies lines@[i]@ == ls[i] by {
            assert(lines.deep_view()[i] == lines@[i].deep_view());
            assert(lines@[i].deep_view() =~= lines@[i]@);
        }
    }
    if lines.len() == 0 {
        return Err(ParseError::InputEmpty);
    }
    let n = match parse_i32(&lines[0]) {
        Some(v) => v,
        None => {
            return Err(ParseError::MalformedCount);
        },
    };
    let mut max_ref: i32 = 0;
    let mut idx: usize = 1;
    while idx < lines.len()
        invariant
            1 <= idx <= lines@.len(),
            lines@.len() == ls.len(),
            forall|i: int| 0 <= i < lines@.len() ==> #[trigger] lines@[i]@ == ls[i],
            edge_lines_error(ls, 1) == edge_lines_error(ls, idx as int),
            max_ref >= 0,
            forall|i: int, j: int|
                1 <= i < idx && 0 <= j < int_vals(ls[i]).len() ==> #[trigger] int_vals(ls[i])[j]
                    <= max_ref,
            max_ref == 0 || exists|i: int, j: int|
                1 <= i < idx && 0 <= j < int_vals(ls[i]).len() && #[trigger] int_vals(ls[i])[j]
                    == max_ref,
        decreases lines@.len() - idx,
    {
        let vals = int_tokens(&lines[idx]);
        proof {
            assert(vals@ == int_vals(ls[idx as int]));
        }
        if vals.len() != 2 {
            proof {
                assert(line_error(ls[idx as int]) == Some(ParseError::MalformedEdgeLine));
            }
            return Err(ParseError::MalformedEdgeLine);
        }
        if vals[0] <= 0 || vals[1] <= 0 {
            proof {
                assert(vals@[0] == int_vals(ls[idx as int])[0]);
                assert(vals@[1] == int_vals(ls[idx as int])[1]);
                assert(line_error(ls[idx as int]) == Some(ParseError::NonPositiveReference));
            }
            return Err(ParseError::NonPositiveReference);
        }
        if vals[0] > max_ref {
            max_ref = vals[0];
        }
        if vals[1] > max_ref {
            max_ref = vals[1];
        }
        proof {
            assert(vals@[0] == int_vals(ls[idx as int])[0]);
            assert(vals@[1] == int_vals(ls[idx as int])[1]);
            assert(line_error(ls[idx as int]) is None);
            assert(edge_lines_error(ls, idx as int) == edge_lines_error(ls, idx + 1));
        }
        idx = idx + 1;
    }
    if n < 0 {
        return Err(ParseError::EdgeCountMismatch);
    }
    if lines.len() - 1 != n as usize {
        return Err(ParseError::EdgeCountMismatch);
    }
    if (max_ref as i64) > (n as i64) + 1 {
        proof {
            let (i, j) = choose|i: int, j: int|
                1 <= i < ls.len() && 0 <= j < int_vals(ls[i]).len() && #[trigger] int_vals(
                    ls[i],
                )[j] == max_ref;
            assert(int_vals(ls[i])[j] > n + 1);
            assert(!refs_in_range(ls, n as int));
        }
        return Err(ParseError::ReferenceOutOfRange);
    }
    proof {
        assert(refs_in_range(ls, n as int));
    }
    Ok(n)
}

/// The input text meets the expected line format: a node count on the first
/// line, then exactly that many edge lines of two positive integers each,
/// none referencing past the count plus one.
pub fn is_valid_input(contents: &Vec<u8>) -> (r: bool)
    ensures
        r == valid_input(contents@),
{
    match validate(contents) {
        Ok(_) => true,
        Err(_) => false,
    }
}

} // verus!
