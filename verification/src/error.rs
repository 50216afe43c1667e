//! Parse failures: what went wrong, and at which byte offset.

use crate::serialize::{append_decimal, append_text, decimal_text};
use vstd::prelude::*;
use vstd::string::*;
use vstd::utf8::*;

verus! {

/// The reasons for which a parse can fail.
#[derive(Clone, Copy, Debug, PartialEq, Eq, Structural)]
pub enum ErrorKind {
    /// The input ends where a keyword or character was due, or before the
    /// delimiter that was searched for.
    UnexpectedEnd,
    /// Something other than the expected keyword or character is at the
    /// offset.
    LiteralMismatch,
    /// At least one decimal digit was required and none was found.
    EmptyDigitRun,
    /// A quoted string has no closing quote before the end of the input.
    UnterminatedString,
    /// Nothing that begins a value is at the offset.
    NoAlternativeMatched,
    /// Something other than whitespace follows the top-level value.
    TrailingContent,
    /// An integer literal whose magnitude exceeds `i64::MAX`.
    NumberOutOfRange,
    /// Arrays and objects are nested more deeply than the parser allows.
    DepthLimitExceeded,
}

/// A parse failure: its kind and the byte offset it is reported at.
#[derive(Clone, Copy, Debug, PartialEq, Eq, Structural)]
pub struct ParseError {
    pub kind: ErrorKind,
    pub offset: usize,
}

/// The mathematical counterpart of [`ParseError`], with an unbounded offset.
pub struct Failure {
    pub kind: ErrorKind,
    pub offset: int,
}

impl View for ParseError {
    type V = Failure;

    open spec fn view(&self) -> Failure {
        Failure { kind: self.kind, offset: self.offset as int }
    }
}

impl ErrorKind {
    /// What was expected, or what was wrong, in words.
    pub open spec fn expectation_text(self) -> Seq<char> {
        match self {
            ErrorKind::UnexpectedEnd => "unexpected end of input"@,
            ErrorKind::LiteralMismatch => "expected keyword or character not found"@,
            ErrorKind::EmptyDigitRun => "expected a digit"@,
            ErrorKind::UnterminatedString => "expected closing quote"@,
            ErrorKind::NoAlternativeMatched => "no value could be parsed"@,
            ErrorKind::TrailingContent => "unexpected content after the value"@,
            ErrorKind::NumberOutOfRange => "integer out of range"@,
            ErrorKind::DepthLimitExceeded => "nesting too deep"@,
        }
    }

    /// What was expected, or what was wrong, in words.
    pub fn expectation(&self) -> (text: &'static str)
        ensures
            text@ == self.expectation_text(),
    {
        match self {
            ErrorKind::UnexpectedEnd => "unexpected end of input",
            ErrorKind::LiteralMismatch => "expected keyword or character not found",
            ErrorKind::EmptyDigitRun => "expected a digit",
            ErrorKind::UnterminatedString => "expected closing quote",
            ErrorKind::NoAlternativeMatched => "no value could be parsed",
            ErrorKind::TrailingContent => "unexpected content after the value",
            ErrorKind::NumberOutOfRange => "integer out of range",
            ErrorKind::DepthLimitExceeded => "nesting too deep",
        }
    }
}

impl ParseError {
    /// Builds the error of the given kind at the given offset.
    pub fn new(kind: ErrorKind, offset: usize) -> (e: ParseError)
        ensures
            e.kind == kind,
            e.offset == offset,
    {
        ParseError { kind, offset }
    }

    /// The error in words: what was expected, and the offset in decimal.
    pub fn message(&self) -> (text: String)
        ensures
            encode_utf8(text@) == encode_utf8(self.kind.expectation_text())
                + " at offset ".spec_bytes() + decimal_text(self.offset as nat),
    {
        let mut text = String::new();
        append_text(&mut text, self.kind.expectation());
        append_text(&mut text, " at offset ");
        append_decimal(&mut text, self.offset as u64);
        assert(encode_utf8(text@) =~= encode_utf8(self.kind.expectation_text())
            + " at offset ".spec_bytes() + decimal_text(self.offset as nat));
        text
    }
}

} // verus!
