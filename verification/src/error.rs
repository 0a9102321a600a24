//! The error of the library as a whole.
use vstd::prelude::*;
use vstd::std_specs::convert::FromSpecImpl;
use crate::parse::error::CbParseError;

verus! {

/// What reading a document can fail with.
#[derive(Debug, Clone, PartialEq, Eq)]
pub enum CbError {
    /// The bytes are no document that can be read.
    Parse(CbParseError),
    /// The bytes could not be had.
    Io,
}

impl From<CbParseError> for CbError {
    fn from(err: CbParseError) -> (r: Self) {
        CbError::Parse(err)
    }
}

impl FromSpecImpl<CbParseError> for CbError {
    open spec fn obeys_from_spec() -> bool {
        true
    }

    open spec fn from_spec(err: CbParseError) -> Self {
        CbError::Parse(err)
    }
}

} // verus!
