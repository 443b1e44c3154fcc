//! The ways in which reading a frame can fail.

use vstd::prelude::*;

verus! {

/// An error met while reading a frame.
#[derive(Debug)]
pub enum ParseError {
    /// The text ended inside a frame's nine-line header.
    IncompleteHeader,
    /// The text ended inside a frame's atom blocks.
    IncompleteFrame,
    /// A line held another number of values than expected.
    InvalidVectorLength { expected: usize, found: usize },
    /// A token could not be read as the number it should be; carries the token.
    InvalidNumberFormat(String),
}

/// What a `ParseError` says, with the offending token as characters.
pub enum Fault {
    IncompleteHeader,
    IncompleteFrame,
    InvalidVectorLength { expected: nat, found: nat },
    InvalidNumberFormat(Seq<char>),
}

impl View for ParseError {
    type V = Fault;

    open spec fn view(&self) -> Fault {
        match self {
            ParseError::IncompleteHeader => Fault::IncompleteHeader,
            ParseError::IncompleteFrame => Fault::IncompleteFrame,
            ParseError::InvalidVectorLength { expected, found } => Fault::InvalidVectorLength {
                expected: *expected as nat,
                found: *found as nat,
            },
            ParseError::InvalidNumberFormat(s) => Fault::InvalidNumberFormat(s@),
        }
    }
}

} // verus!
