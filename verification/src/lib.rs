//! Reading PDF files into an in-memory document model, and writing the model
//! back out.
//!
//! The parsers work on byte buffers; every one of them is specified against a
//! grammar written as spec functions over `Seq<u8>`.
pub mod error;
pub mod lex;
pub mod parse;
pub mod pdf;
pub mod simple_encode;
pub mod writer;

use vstd::prelude::*;
use crate::error::CbError;
use crate::parse::assemble::{offsets_fall, parse_complete, spec_parse};
use crate::parse::error::ParseFault;
use crate::parse::Span;
use crate::pdf::{PdfValue, RawPdf};

verus! {

/// Reads the document that `bytes` holds.
pub fn read(bytes: &[u8]) -> (r: Result<RawPdf, CbError>)
    ensures
        match r {
            Ok(pdf) => spec_parse(bytes@) == Ok::<PdfValue, (int, ParseFault, Option<usize>)>(
                pdf@,
            ) && offsets_fall(pdf@.sections),
            Err(e) => spec_parse(bytes@) is Err && e is Parse && e->Parse_0.position == (spec_parse(
                bytes@,
            )->Err_0).0 && e->Parse_0.kind@ == (spec_parse(bytes@)->Err_0).1
                && e->Parse_0.revision == (spec_parse(bytes@)->Err_0).2,
        },
{
    match parse_complete(Span::new(bytes)) {
        Ok((_, pdf)) => Ok(pdf),
        Err(e) => Err(CbError::Parse(e)),
    }
}

} // verus!
