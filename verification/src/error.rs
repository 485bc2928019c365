//! The errors of the parser and of the serializer.

use vstd::prelude::*;

verus! {

/// `quick_xml::Error`, carried as it is.
#[verifier::external_type_specification]
#[verifier::external_body]
pub struct ExXmlError(quick_xml::Error);

/// What the parser found in place of what the grammar asks for.
#[derive(Debug, Clone, Copy, PartialEq, Eq, Structural)]
pub enum TurtleErrorKind {
    /// A byte that cannot stand where it stands.
    UnexpectedByte(u8),
    /// The input ended inside a statement.
    PrematureEof,
    /// An escape names a number that is no Unicode scalar value.
    InvalidCodePoint(u32),
    /// The decoded text of a term is not UTF-8.
    InvalidUtf8,
    /// An identifier does not begin with a scheme.
    RelativeIdentifier,
}

/// A violation of the grammar, with the number of the line on which it was
/// found. Lines are counted from one.
#[derive(Debug, Clone, Copy, PartialEq, Eq, Structural)]
pub struct TurtleError {
    pub kind: TurtleErrorKind,
    pub line_number: usize,
}

impl TurtleError {
    /// A sentence that describes the kind of the error.
    pub fn message(&self) -> (r: &'static str)
        ensures
            r@ == match self.kind {
                TurtleErrorKind::UnexpectedByte(_) => "unexpected character"@,
                TurtleErrorKind::PrematureEof => "unexpected end of input"@,
                TurtleErrorKind::InvalidCodePoint(_) => "escape of a number that is no character"@,
                TurtleErrorKind::InvalidUtf8 => "text that is not valid UTF-8"@,
                TurtleErrorKind::RelativeIdentifier => "identifier without a scheme"@,
            },
    {
        match self.kind {
            TurtleErrorKind::UnexpectedByte(_) => "unexpected character",
            TurtleErrorKind::PrematureEof => "unexpected end of input",
            TurtleErrorKind::InvalidCodePoint(_) => "escape of a number that is no character",
            TurtleErrorKind::InvalidUtf8 => "text that is not valid UTF-8",
            TurtleErrorKind::RelativeIdentifier => "identifier without a scheme",
        }
    }
}

/// Why a step of the serializer failed.
#[derive(Debug)]
pub enum FormatError {
    /// An element was to be closed while none was open: the caller closed
    /// more elements than it opened.
    CloseWithoutOpen,
    /// The document writer refused an event. The writer of this library
    /// fills a vector and refuses nothing, so that no function gives this
    /// error; it is kept so that a refusal could not pass in silence.
    Write(quick_xml::Error),
    /// The indentation of one more nested element would take more spaces
    /// than a vector of bytes can hold.
    TooDeep,
}

impl FormatError {
    /// A sentence that describes the error.
    pub fn message(&self) -> (r: &'static str)
        ensures
            r@ == match self {
                FormatError::CloseWithoutOpen => "close when no close is available"@,
                FormatError::Write(_) => "the document writer failed"@,
                FormatError::TooDeep => "the indentation of the document is too deep"@,
            },
    {
        match self {
            FormatError::CloseWithoutOpen => "close when no close is available",
            FormatError::Write(_) => "the document writer failed",
            FormatError::TooDeep => "the indentation of the document is too deep",
        }
    }
}

} // verus!
