//! The single, flat error taxonomy of the parser.

use vstd::prelude::*;

verus! {

/// What went wrong. The first violation ends the parse; there is no recovery.
#[derive(Debug, Copy, Clone, PartialEq, Eq, Structural, PartialOrd, Ord, Hash)]
pub enum ErrorKind {
    /// The buffer ended where a byte was needed.
    EndOfInput,
    /// The next byte cannot start what was asked for.
    UnexpectedToken,
    /// A required part of a number is missing.
    InvalidNumber,
    /// A backslash is followed by something that is no escape.
    InvalidEscape,
    /// A raw byte below 32 inside a string.
    ControlCharacterInString,
    /// The buffer ended before the closing quote.
    UnterminatedString,
    /// The bytes between the quotes are not UTF-8.
    InvalidUtf8,
    /// An object member does not start with a string.
    ExpectedKey,
    /// A key is not followed by a colon.
    ExpectedColon,
    /// After an element comes neither a comma nor the closing delimiter.
    ExpectedCommaOrCloseBracket,
    /// Something other than whitespace follows the document.
    TrailingData,
}

/// A parse failure.
#[derive(Debug, Copy, Clone, PartialEq, Eq, Structural, PartialOrd, Ord, Hash)]
pub struct Error {
    pub kind: ErrorKind,
}

impl Error {
    /// The kind of this failure.
    pub fn kind(&self) -> (k: ErrorKind)
        ensures
            k == self.kind,
    {
        self.kind
    }

    /// A short description of the failure.
    pub fn message(&self) -> (m: &'static str)
        ensures
            m@ == message_of(self.kind)@,
    {
        match self.kind {
            ErrorKind::EndOfInput => "unexpected end of input",
            ErrorKind::UnexpectedToken => "unexpected token",
            ErrorKind::InvalidNumber => "invalid number",
            ErrorKind::InvalidEscape => "invalid escape sequence",
            ErrorKind::ControlCharacterInString => "control character in string",
            ErrorKind::UnterminatedString => "unterminated string",
            ErrorKind::InvalidUtf8 => "invalid UTF-8 in string",
            ErrorKind::ExpectedKey => "expected an object key",
            ErrorKind::ExpectedColon => "expected a colon",
            ErrorKind::ExpectedCommaOrCloseBracket => "expected a comma or a closing delimiter",
            ErrorKind::TrailingData => "trailing data after the document",
        }
    }
}

/// The text that [`Error::message`] returns for each kind.
pub open spec fn message_of(kind: ErrorKind) -> &'static str {
    match kind {
        ErrorKind::EndOfInput => "unexpected end of input",
        ErrorKind::UnexpectedToken => "unexpected token",
        ErrorKind::InvalidNumber => "invalid number",
        ErrorKind::InvalidEscape => "invalid escape sequence",
        ErrorKind::ControlCharacterInString => "control character in string",
        ErrorKind::UnterminatedString => "unterminated string",
        ErrorKind::InvalidUtf8 => "invalid UTF-8 in string",
        ErrorKind::ExpectedKey => "expected an object key",
        ErrorKind::ExpectedColon => "expected a colon",
        ErrorKind::ExpectedCommaOrCloseBracket => "expected a comma or a closing delimiter",
        ErrorKind::TrailingData => "trailing data after the document",
    }
}

} // verus!
