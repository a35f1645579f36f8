//! Parse errors.

use vstd::prelude::*;
use vstd::utf8::encode_utf8;

verus! {

/// What went wrong while parsing a template.
#[derive(Debug, PartialEq, Eq)]
pub enum ParseErrorKind {
    /// A `{` that no `}` closes.
    UnclosedArg,
    /// A `}` outside an argument that is not doubled as `}}`.
    InvalidClosedArg,
    /// A selector starting with a digit that is not a `usize` in decimal.
    NotANumber { what: String },
    /// A selector that is neither empty, nor a number, nor an identifier.
    NotAnIdent { what: String },
    /// Formatting text outside the `#`, `b`, `x`, `?` grammar.
    UnknownFormatting { what: String },
}

/// A parse failure, at a byte offset into the template.
#[derive(Debug, PartialEq, Eq)]
pub struct ParseError {
    pub pos: usize,
    pub kind: ParseErrorKind,
}

/// The abstract form of an error kind: texts as their UTF-8 bytes.
pub enum ErrorKindModel {
    UnclosedArg,
    InvalidClosedArg,
    NotANumber(Seq<u8>),
    NotAnIdent(Seq<u8>),
    UnknownFormatting(Seq<u8>),
}

/// The abstract form of an error: its byte offset and its kind.
pub struct ErrorModel {
    pub pos: int,
    pub kind: ErrorKindModel,
}

impl View for ParseErrorKind {
    type V = ErrorKindModel;

    open spec fn view(&self) -> ErrorKindModel {
        match self {
            ParseErrorKind::UnclosedArg => ErrorKindModel::UnclosedArg,
            ParseErrorKind::InvalidClosedArg => ErrorKindModel::InvalidClosedArg,
            ParseErrorKind::NotANumber { what } => ErrorKindModel::NotANumber(encode_utf8(what@)),
            ParseErrorKind::NotAnIdent { what } => ErrorKindModel::NotAnIdent(encode_utf8(what@)),
            ParseErrorKind::UnknownFormatting { what } => ErrorKindModel::UnknownFormatting(
                encode_utf8(what@),
            ),
        }
    }
}

impl View for ParseError {
    type V = ErrorModel;

    open spec fn view(&self) -> ErrorModel {
        ErrorModel { pos: self.pos as int, kind: self.kind@ }
    }
}

} // verus!
