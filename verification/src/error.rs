//! The ways in which values and documents are rejected.

use vstd::prelude::*;

verus! {

/// Why a value was refused by its constructor.
#[derive(Debug, Clone, Copy, PartialEq, Eq, Structural)]
pub enum ValidationError {
    /// A task identifier of zero.
    ZeroTaskId,
    /// A property key without a word.
    KeyEmpty,
    /// A property key that does not begin with an uppercase letter.
    KeyNotCapitalized,
    /// A property key of more than three words.
    KeyTooManyWords,
    /// An email address without `@`.
    EmailMissingAt,
    /// An email address with more than one `@`.
    EmailMultipleAt,
    /// An email address with nothing before or nothing after its `@`.
    EmailEmptyPart,
}

/// What is wrong with a line of a document.
#[derive(Debug, Clone, Copy, PartialEq, Eq, Structural)]
pub enum ParseErrorKind {
    /// A task heading with fewer than two tokens.
    InvalidHeading,
    /// A task heading whose second token is not an unsigned integer.
    InvalidTaskId,
    /// A value on the line that its constructor refused.
    Invalid(ValidationError),
}

/// A document that could not be parsed: the first offending line, counted
/// from one, and what is wrong with it.
#[derive(Debug, Clone, Copy, PartialEq, Eq, Structural)]
pub struct ParseError {
    pub line: usize,
    pub kind: ParseErrorKind,
}

} // verus!
