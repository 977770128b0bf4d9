//! The reasons for which a parse fails.

use vstd::prelude::*;

verus! {

/// Why a parse stopped. A failure carries exactly one reason and no position.
#[derive(Clone, Copy, Debug, PartialEq, Eq, Structural)]
pub enum ParseError {
    /// The input ended where a value had to start.
    ExpectValue,
    /// The lookahead starts no value, or a string has no closing quote.
    InvalidValue,
    /// A literal keyword was misspelt or cut short.
    InvalidLiteral,
    /// An array element is followed by neither `,` nor `]`.
    InvalidArray,
    /// An object member lacks its quoted key, its `:`, or is followed by
    /// neither `,` nor `}`.
    InvalidObject,
}

impl ParseError {
    /// The words that describe the failure.
    pub open spec fn spec_message(self) -> Seq<char> {
        match self {
            ParseError::ExpectValue => "expect value error"@,
            ParseError::InvalidValue => "parse value error"@,
            ParseError::InvalidLiteral => "parse invalid literal"@,
            ParseError::InvalidArray => "parse invalid array"@,
            ParseError::InvalidObject => "parse invalid object"@,
        }
    }

    /// The words that describe the failure, for a reader.
    pub fn message(&self) -> (text: &'static str)
        ensures
            text@ == self.spec_message(),
    {
        match self {
            ParseError::ExpectValue => "expect value error",
            ParseError::InvalidValue => "parse value error",
            ParseError::InvalidLiteral => "parse invalid literal",
            ParseError::InvalidArray => "parse invalid array",
            ParseError::InvalidObject => "parse invalid object",
        }
    }
}

} // verus!
