//! What a parse gives back: the model of an outcome, the result that the
//! parsers hand out, and the relation between the two.
use vstd::prelude::*;

verus! {

/// The outcome of parsing a byte sequence, as the grammar defines it.
///
/// `Done(n, v)`: the first `n` bytes were read and stand for `v`.
/// `Incomplete`: the input ended before the construct did.
/// `Error`: the input does not start with the construct.
/// `Invalid`: the construct was read, but a text in it is not UTF-8; no
/// result exists for such an input.
pub enum Outcome<T> {
    Done(nat, T),
    Incomplete,
    Error,
    Invalid,
}

/// The result of a parser: the rest of the input with the value read, or why
/// nothing was read.
#[derive(Debug, PartialEq)]
pub enum ParseResult<'a, O> {
    Done(&'a [u8], O),
    Error,
    Incomplete,
}

impl<'a, O> ParseResult<'a, O> {
    /// The rest of the input and the value; only for a result that is `Done`.
    pub fn unwrap(self) -> (r: (&'a [u8], O))
        requires
            self is Done,
        ensures
            self == ParseResult::Done(r.0, r.1),
    {
        match self {
            ParseResult::Done(rest, v) => (rest, v),
            _ => { proof { assert(false); } unreached() },
        }
    }

    /// Whether the input does not start with the construct.
    pub fn is_err(&self) -> (b: bool)
        ensures
            b == (*self is Error),
    {
        match self {
            ParseResult::Error => true,
            _ => false,
        }
    }

    /// Whether the construct was read.
    pub fn is_done(&self) -> (b: bool)
        ensures
            b == (*self is Done),
    {
        match self {
            ParseResult::Done(_, _) => true,
            _ => false,
        }
    }

    /// Whether the input ended before the construct did.
    pub fn is_incomplete(&self) -> (b: bool)
        ensures
            b == (*self is Incomplete),
    {
        match self {
            ParseResult::Incomplete => true,
            _ => false,
        }
    }
}

/// `r` is what a parser gives back for `input` when the grammar's outcome is `o`.
pub open spec fn agrees<'a, O: View>(r: ParseResult<'a, O>, input: Seq<u8>, o: Outcome<O::V>) -> bool {
    match r {
        ParseResult::Done(rest, v) => {
            &&& o matches Outcome::Done(n, m)
            &&& n <= input.len()
            &&& rest@ == input.skip(n as int)
            &&& v@ == m
        },
        ParseResult::Error => o is Error,
        ParseResult::Incomplete => o is Incomplete,
    }
}

} // verus!
