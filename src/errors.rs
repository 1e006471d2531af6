//! What can go wrong while tokenizing.

use vstd::prelude::*;

verus! {

/// Why a piece of text could not be read as a token.
#[derive(Clone, Copy, Debug, PartialEq, Eq, Structural)]
pub enum ErrorKind {
    /// The input ended where a character was needed.
    UnexpectedEOF,
    /// A character that starts no token.
    UnknownCharacter(char),
    /// Not a single character of the expected kind was found.
    NoMatches,
    /// An identifier cannot start with a digit.
    IdentifierStartsWithNumber,
    /// An integer literal too large for `usize`.
    IntParsing,
    /// A decimal literal without any digit.
    FloatParsing,
}

/// A failure of the tokenizer, with the byte offset of the token it was
/// reading when it failed.
#[derive(Clone, Copy, Debug, PartialEq, Eq, Structural)]
pub struct LexError {
    pub location: usize,
    pub kind: ErrorKind,
}

/// The description of each kind of failure.
pub open spec fn kind_description(k: ErrorKind) -> Seq<char> {
    match k {
        ErrorKind::UnexpectedEOF => "Unexpected EOF"@,
        ErrorKind::UnknownCharacter(_) => "Unknown Character"@,
        ErrorKind::NoMatches => "No Matches"@,
        ErrorKind::IdentifierStartsWithNumber => "Identifiers can't start with a number"@,
        ErrorKind::IntParsing => "An integer parsing error"@,
        ErrorKind::FloatParsing => "A float parsing error"@,
    }
}

impl ErrorKind {
    /// A human-readable description of the failure.
    pub fn description(&self) -> (r: &'static str)
        ensures
            r@ == kind_description(*self),
    {
        match self {
            ErrorKind::UnexpectedEOF => "Unexpected EOF",
            ErrorKind::UnknownCharacter(_) => "Unknown Character",
            ErrorKind::NoMatches => "No Matches",
            ErrorKind::IdentifierStartsWithNumber => "Identifiers can't start with a number",
            ErrorKind::IntParsing => "An integer parsing error",
            ErrorKind::FloatParsing => "A float parsing error",
        }
    }
}

impl LexError {
    /// What the tokenizer was doing when it failed.
    pub open spec fn spec_message() -> Seq<char> {
        "Couldn't read the next token"@
    }

    /// A human-readable description of what was being attempted; the
    /// location and `kind` say where and why it failed.
    pub fn message(&self) -> (r: &'static str)
        ensures
            r@ == Self::spec_message(),
    {
        "Couldn't read the next token"
    }
}

} // verus!
