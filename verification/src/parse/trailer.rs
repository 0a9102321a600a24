//! Finding and reading the trailer of a revision.
use vstd::prelude::*;
use vstd::string::*;
use crate::lex::{matches_at_no_case, run_end, skip_while, tag_no_case, ByteClass};
use crate::parse::error::{CbParseError, CbParseErrorKind, Context, ParseFault};
use crate::parse::grammar::{kw, lemma_keywords, spec_dictionary};
use crate::parse::object::parse_dictionary;
use crate::parse::{find_last, last_match, Span};
use crate::pdf::trailer::{spec_trailer, Trailer, TrailerValue};

verus! {

/// The trailer whose keyword stands at `pos`: after the keyword and optional
/// whitespace a dictionary, which must describe a trailer.
pub open spec fn spec_trailer_at(s: Seq<u8>, pos: int) -> Result<TrailerValue, ParseFault> {
    match spec_dictionary(s, run_end(s, pos + 7, ByteClass::Space)) {
        None => Err(ParseFault::Generic(Context::Dictionary)),
        Some((d, _)) => match spec_trailer(d) {
            Ok(t) => Ok(t),
            Err(e) => Err(ParseFault::InvalidTrailer(e)),
        },
    }
}

/// The last trailer of `s`: the keyword `trailer`, in any case, is searched
/// for backward from the end, among the last 4103 positions. Gives the
/// position of the keyword and the trailer.
pub open spec fn spec_trailer_tail(s: Seq<u8>) -> Result<(int, TrailerValue), ParseFault> {
    match last_match(s, kw("trailer"), true, 4103) {
        None => Err(ParseFault::BackwardSearchNotFound),
        Some(p) => match spec_trailer_at(s, p) {
            Ok(t) => Ok((p, t)),
            Err(f) => Err(f),
        },
    }
}

/// The trailer that follows at `pos`, after optional whitespace, where the
/// keyword `trailer` stands there.
pub open spec fn spec_trailer_after(s: Seq<u8>, pos: int) -> Result<
    Option<TrailerValue>,
    ParseFault,
> {
    let p = run_end(s, pos, ByteClass::Space);
    if matches_at_no_case(s, p, kw("trailer")) {
        match spec_trailer_at(s, p) {
            Ok(t) => Ok(Some(t)),
            Err(f) => Err(f),
        }
    } else {
        Ok(None)
    }
}

/// Reads the trailer whose keyword stands at `pos`.
pub fn trailer_at(input: &[u8], pos: usize) -> (r: Result<Trailer, CbParseErrorKind>)
    requires
        pos + 7 <= input.len(),
    ensures
        match r {
            Ok(t) => spec_trailer_at(input@, pos as int) == Ok::<TrailerValue, ParseFault>(t@),
            Err(kind) => spec_trailer_at(input@, pos as int) == Err::<TrailerValue, ParseFault>(
                kind@,
            ),
        },
{
    let start = skip_while(input, pos + 7, ByteClass::Space);
    match parse_dictionary(input, start) {
        None => Err(CbParseErrorKind::Generic(Context::Dictionary)),
        Some((dictionary, _)) => match Trailer::try_from(&dictionary) {
            Ok(t) => Ok(t),
            Err(e) => Err(CbParseErrorKind::InvalidTrailer(e)),
        },
    }
}

/// Reads the trailer that follows at `pos`, if the keyword stands there.
pub fn trailer_after(input: &[u8], pos: usize) -> (r: Result<Option<Trailer>, CbParseErrorKind>)
    requires
        pos <= input.len(),
    ensures
        match r {
            Ok(Some(t)) => spec_trailer_after(input@, pos as int) == Ok::<
                Option<TrailerValue>,
                ParseFault,
            >(Some(t@)),
            Ok(None) => spec_trailer_after(input@, pos as int) == Ok::<
                Option<TrailerValue>,
                ParseFault,
            >(None),
            Err(kind) => spec_trailer_after(input@, pos as int) == Err::<
                Option<TrailerValue>,
                ParseFault,
            >(kind@),
        },
{
    proof {
        lemma_keywords();
    }
    let p = skip_while(input, pos, ByteClass::Space);
    if tag_no_case(input, p, "trailer".as_bytes()) {
        match trailer_at(input, p) {
            Ok(t) => Ok(Some(t)),
            Err(kind) => Err(kind),
        }
    } else {
        Ok(None)
    }
}

/// Finds the last `trailer` keyword of `input`, searching backward from its
/// end, and reads the trailer that follows it. Bytes that follow the
/// trailer's dictionary are passed over.
pub fn trailer_tail(input: Span) -> (r: Result<(Span, Trailer), CbParseError>)
    ensures
        match r {
            Ok((rest, t)) => {
                let expected = spec_trailer_tail(input@);
                &&& expected is Ok
                &&& t@ == (expected->Ok_0).1
                &&& rest@ == input@.take((expected->Ok_0).0)
                &&& rest.offset() == input.offset()
            },
            Err(e) => spec_trailer_tail(input@) is Err && e.kind@ == spec_trailer_tail(
                input@,
            )->Err_0 && e.position == input.offset() && e.revision is None,
        },
{
    proof {
        lemma_keywords();
    }
    let bytes = input.fragment();
    let p = match find_last(bytes, 4103, "trailer".as_bytes(), true) {
        Some(p) => p,
        None => {
            return Err(
                CbParseError::new(
                    input.location_offset(),
                    CbParseErrorKind::BackwardSearchNotFound,
                ),
            );
        },
    };
    match trailer_at(bytes, p) {
        Ok(t) => Ok((input.truncate(p), t)),
        Err(kind) => Err(CbParseError::new(input.location_offset(), kind)),
    }
}

} // verus!
