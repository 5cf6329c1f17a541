//! What can go wrong when a path is read or built.

use crate::model::decimal;
use crate::text::push_decimal;
use vstd::prelude::*;
use vstd::string::StringExecFns;

verus! {

/// What the parser looked for at the place where it gave up.
#[derive(Debug, Clone, Copy, PartialEq, Eq, Structural)]
pub enum Expected {
    /// The start of a segment.
    Segment,
    /// A dot, an opening square bracket, or the end of the text.
    Separator,
    /// A decimal digit.
    Digit,
    /// An index that fits the machine's word.
    IndexInRange,
    /// `]`
    ClosingBracket,
    /// `"`
    ClosingQuote,
    /// ` | ` between two alternatives.
    AlternativeSeparator,
    /// `)`
    ClosingParen,
}

/// Why a text is no path, or why a value could not be built.
#[derive(Debug, Clone, Copy, PartialEq, Eq, Structural)]
pub enum LookupError {
    /// The text, or the list of segments, is empty.
    EmptyPath,
    /// The text breaks the grammar at `position`, counted in characters.
    MalformedSegment { position: usize, expected: Expected },
    /// A group with fewer than two alternatives, or with an empty one.
    InvalidStructure,
}

/// The words for what the parser looked for.
pub open spec fn expected_text(expected: Expected) -> Seq<char> {
    match expected {
        Expected::Segment => "a field, an index or a group"@,
        Expected::Separator => "a dot, an index or the end of the path"@,
        Expected::Digit => "a digit"@,
        Expected::IndexInRange => "an index that fits the machine word"@,
        Expected::ClosingBracket => "a closing square bracket"@,
        Expected::ClosingQuote => "a closing double quote"@,
        Expected::AlternativeSeparator => "a bar between two spaces"@,
        Expected::ClosingParen => "a closing round bracket"@,
    }
}

/// The message of an error.
pub open spec fn error_text(e: LookupError) -> Seq<char> {
    match e {
        LookupError::EmptyPath => "the path is empty"@,
        LookupError::MalformedSegment { position, expected } => "malformed path at character "@
            + decimal(position as nat) + ": expected "@ + expected_text(expected),
        LookupError::InvalidStructure =>
            "a group needs two or more alternatives, none of them empty"@,
    }
}

impl Expected {
    /// The words for what the parser looked for.
    pub fn describe(&self) -> (s: &'static str)
        ensures
            s@ == expected_text(*self),
    {
        match self {
            Expected::Segment => "a field, an index or a group",
            Expected::Separator => "a dot, an index or the end of the path",
            Expected::Digit => "a digit",
            Expected::IndexInRange => "an index that fits the machine word",
            Expected::ClosingBracket => "a closing square bracket",
            Expected::ClosingQuote => "a closing double quote",
            Expected::AlternativeSeparator => "a bar between two spaces",
            Expected::ClosingParen => "a closing round bracket",
        }
    }
}

impl LookupError {
    /// The message of this error, for a reader.
    pub fn to_string(&self) -> (s: String)
        ensures
            s@ == error_text(*self),
    {
        match self {
            LookupError::EmptyPath => String::from_str("the path is empty"),
            LookupError::MalformedSegment { position, expected } => {
                let mut s = String::from_str("malformed path at character ");
                push_decimal(&mut s, *position);
                s.append(": expected ");
                s.append(expected.describe());
                s
            },
            LookupError::InvalidStructure => String::from_str(
                "a group needs two or more alternatives, none of them empty",
            ),
        }
    }
}

} // verus!
