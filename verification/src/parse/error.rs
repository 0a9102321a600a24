//! The errors that parsing gives.
use vstd::prelude::*;
use crate::pdf::object::Name;

verus! {

/// Why the dictionary of a trailer is no trailer.
#[derive(Debug, Clone, Copy, PartialEq, Eq)]
pub enum TrailerError {
    InvalidSize,
    MissingSize,
    InvalidRoot,
    MissingRoot,
    InvalidXRefStm,
    InvalidPrevious,
    InvalidInfo,
    InvalidId,
}

/// Why a cross-reference stream is none.
#[derive(Debug, Clone, Copy, PartialEq, Eq)]
pub enum XrefError {
    /// The object is no indirect object that holds a stream.
    StreamObject,
    /// The `W` entry of the stream's dictionary is missing or malformed.
    WEntry,
    /// The content of the stream cannot be read as entries.
    StreamContent,
}

/// Why the payload of a stream could not be decoded.
#[derive(Debug, Clone, PartialEq, Eq)]
pub enum FilterError {
    /// The filter's name is none that PDF defines.
    UnknownFilter(Name),
    /// The filter is one of PDF's, but not supported here.
    UnsupportedFilter(Name),
    /// The data is not what the filter takes.
    InvalidData,
    /// The `Filter` entry is neither a name nor an array of names.
    InvalidFilter,
}

/// A [`FilterError`] as a mathematical value.
pub enum FilterFault {
    UnknownFilter(Seq<u8>),
    UnsupportedFilter(Seq<u8>),
    InvalidData,
    InvalidFilter,
}

impl View for FilterError {
    type V = FilterFault;

    open spec fn view(&self) -> FilterFault {
        match *self {
            FilterError::UnknownFilter(n) => FilterFault::UnknownFilter(n@),
            FilterError::UnsupportedFilter(n) => FilterFault::UnsupportedFilter(n@),
            FilterError::InvalidData => FilterFault::InvalidData,
            FilterError::InvalidFilter => FilterFault::InvalidFilter,
        }
    }
}

/// The part of the grammar that did not match.
#[derive(Debug, Clone, Copy, PartialEq, Eq)]
pub enum Context {
    /// The `%PDF-` line.
    Header,
    /// Any object.
    Object,
    /// A name.
    Name,
    /// A dictionary.
    Dictionary,
    /// An array.
    Array,
    /// A stream.
    Stream,
    /// A reference or an indirect object.
    IndirectObject,
    /// The end of a token.
    Termination,
    /// A cross-reference table.
    Xref,
    /// The content of an object stream.
    ObjectStream,
    /// A byte offset that lies outside the input.
    Offset,
}

/// The kinds of parse errors.
#[derive(Debug, Clone, PartialEq, Eq)]
pub enum CbParseErrorKind {
    /// The trailer's dictionary lacks an entry or holds a malformed one.
    InvalidTrailer(TrailerError),
    /// A `#` in a name is not followed by two hexadecimal digits.
    InvalidName,
    /// No offset follows `startxref`, or one that does not fit.
    StartxrefInvalid,
    /// The keyword does not stand inside the window.
    BackwardSearchNotFound,
    /// The cross-reference stream is malformed.
    XrefInvalid(XrefError),
    /// A stream's payload could not be decoded.
    StreamError(FilterError),
    /// The input does not match the grammar.
    Generic(Context),
}

/// A [`CbParseErrorKind`] as a mathematical value.
pub enum ParseFault {
    InvalidTrailer(TrailerError),
    InvalidName,
    StartxrefInvalid,
    BackwardSearchNotFound,
    XrefInvalid(XrefError),
    StreamError(FilterFault),
    Generic(Context),
}

impl View for CbParseErrorKind {
    type V = ParseFault;

    open spec fn view(&self) -> ParseFault {
        match *self {
            CbParseErrorKind::InvalidTrailer(e) => ParseFault::InvalidTrailer(e),
            CbParseErrorKind::InvalidName => ParseFault::InvalidName,
            CbParseErrorKind::StartxrefInvalid => ParseFault::StartxrefInvalid,
            CbParseErrorKind::BackwardSearchNotFound => ParseFault::BackwardSearchNotFound,
            CbParseErrorKind::XrefInvalid(e) => ParseFault::XrefInvalid(e),
            CbParseErrorKind::StreamError(e) => ParseFault::StreamError(e@),
            CbParseErrorKind::Generic(c) => ParseFault::Generic(c),
        }
    }
}

/// A parse error: what went wrong, and at which byte of the input.
#[derive(Debug, Clone, PartialEq, Eq)]
pub struct CbParseError {
    /// The position in the input, counted from its first byte.
    pub position: usize,
    pub kind: CbParseErrorKind,
    /// The offset of the revision that was being read, where there was one.
    pub revision: Option<usize>,
}

impl View for CbParseError {
    type V = (nat, ParseFault, Option<usize>);

    open spec fn view(&self) -> (nat, ParseFault, Option<usize>) {
        (self.position as nat, self.kind@, self.revision)
    }
}

impl CbParseError {
    /// The error of kind `kind` at `position`, outside any revision.
    pub fn new(position: usize, kind: CbParseErrorKind) -> (r: Self)
        ensures
            r.position == position,
            r.kind == kind,
            r.revision is None,
    {
        Self { position, kind, revision: None }
    }

    /// The same error, met while the revision at `offset` was read.
    pub fn in_revision(self, offset: usize) -> (r: Self)
        ensures
            r.position == self.position,
            r.kind == self.kind,
            r.revision == Some(offset),
    {
        Self { position: self.position, kind: self.kind, revision: Some(offset) }
    }
}

} // verus!
