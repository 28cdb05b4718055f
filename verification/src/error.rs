//! The parse error model: what was expected, at what position.
//!
//! Every failure is a recoverable value of `ParseError`; the parser never
//! panics. When two branches of an alternation both fail, their errors are
//! merged with [`ParseError::or`], which keeps the failure that got
//! furthest into the input — the more specific diagnostic.

use vstd::prelude::*;

verus! {

/// What the parser expected at the position where it failed.
#[derive(Clone, Copy, Debug, PartialEq, Eq, Structural)]
pub enum ErrorKind {
    /// No alternative of the value grammar starts at this byte.
    ExpectedValue,
    /// One of the literals `null`, `true`, `false` was expected.
    ExpectedLiteral,
    /// A digit was expected in a number.
    ExpectedDigit,
    /// The opening quote of a string was expected.
    ExpectedQuote,
    /// The input ended inside a string, before its closing quote.
    UnterminatedString,
    /// The character after a backslash does not begin a valid escape
    /// sequence, or a `uXXXX` escape does not denote a scalar value.
    InvalidEscape,
    /// The colon between an object key and its value was expected.
    ExpectedColon,
    /// After a collection element, either a comma or the closing delimiter
    /// was expected.
    ExpectedCommaOrClose,
}

/// A recoverable parse failure: the kind of construct expected and the
/// input position at which the expectation failed.
#[derive(Clone, Copy, Debug, PartialEq, Eq, Structural)]
pub struct ParseError {
    pub kind: ErrorKind,
    pub pos: usize,
}

/// The merge of two branch failures: the one that consumed the most input
/// survives; on a tie the later branch wins.
pub open spec fn or_spec(a: ParseError, b: ParseError) -> ParseError {
    if b.pos >= a.pos {
        b
    } else {
        a
    }
}

impl ParseError {
    /// Merge the failures of two alternation branches, keeping the one that
    /// consumed the most input — the more specific diagnostic.
    pub fn or(self, other: ParseError) -> (r: ParseError)
        ensures
            r == or_spec(self, other),
    {
        if other.pos >= self.pos {
            other
        } else {
            self
        }
    }
}

/// The merge of alternation failures is associative: however a chain of
/// alternatives is grouped, the surviving diagnostic is the same.
pub proof fn lemma_or_associative(a: ParseError, b: ParseError, c: ParseError)
    ensures
        or_spec(or_spec(a, b), c) == or_spec(a, or_spec(b, c)),
{
}

} // verus!
