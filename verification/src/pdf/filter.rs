//! The filters that undo the encoding of a stream's payload.
use std::io::Read;
use vstd::prelude::*;
use vstd::string::*;
use crate::lex::{hex_char_to_nibble, is_ascii_whitespace, spec_hex_char_to_nibble, GREATER_THAN};
use crate::parse::error::{FilterError, FilterFault};
use crate::parse::grammar::kw;
use crate::pdf::object::{Bytes, Dictionary, Name};

verus! {

/// What is left of the output of the ASCII-hex filter when `data` has been
/// read up to `pos` and `pending` is the high half of a byte that waits for
/// its low half. Whitespace is passed over, `>` and the end of the data end
/// the output, and a half that still waits then becomes a byte whose low
/// half is zero. `None` where another byte than these and the hexadecimal
/// digits stands before the end.
pub open spec fn ascii_hex_from(data: Seq<u8>, pos: int, pending: Option<u8>) -> Option<Seq<u8>>
    decreases data.len() - pos,
{
    let last: Seq<u8> = match pending {
        Some(high) => seq![(high * 16) as u8],
        None => Seq::empty(),
    };
    if pos < 0 || pos >= data.len() {
        Some(last)
    } else if is_ascii_whitespace(data[pos]) {
        ascii_hex_from(data, pos + 1, pending)
    } else if data[pos] == GREATER_THAN {
        Some(last)
    } else {
        match spec_hex_char_to_nibble(data[pos]) {
            None => None,
            Some(n) => match pending {
                Some(high) => match ascii_hex_from(data, pos + 1, None) {
                    Some(rest) => Some(seq![(high * 16 + n) as u8] + rest),
                    None => None,
                },
                None => ascii_hex_from(data, pos + 1, Some(n)),
            },
        }
    }
}

/// The bytes that `data` writes in hexadecimal digits.
pub open spec fn ascii_hex_decoded(data: Seq<u8>) -> Option<Seq<u8>> {
    ascii_hex_from(data, 0, None)
}

/// Undoes the ASCII-hex encoding.
pub fn decode_ascii_hex(data: &[u8]) -> (r: Result<Bytes, FilterError>)
    ensures
        match r {
            Ok(b) => ascii_hex_decoded(data@) == Some(b@),
            Err(e) => ascii_hex_decoded(data@) is None && e == FilterError::InvalidData,
        },
{
    let mut buffer: Vec<u8> = Vec::new();
    let mut pending: Option<u8> = None;
    let mut i: usize = 0;
    while i < data.len()
        invariant
            i <= data.len(),
            pending matches Some(high) ==> high < 16,
            ascii_hex_decoded(data@) == (match ascii_hex_from(data@, i as int, pending) {
                Some(rest) => Some(buffer@ + rest),
                None => None,
            }),
        decreases data.len() - i,
    {
        let c = data[i];
        if c == 32 || c == 9 || c == 10 || c == 12 || c == 13 {
            i += 1;
        } else if c == GREATER_THAN {
            return Ok(flush_pending(buffer, pending));
        } else {
            match hex_char_to_nibble(c) {
                None => {
                    return Err(FilterError::InvalidData);
                },
                Some(n) => {
                    match pending {
                        Some(high) => {
                            let byte: u8 = high * 16 + n;
                            proof {
                                let rest = ascii_hex_from(data@, i + 1, None);
                                if rest is Some {
                                    assert(buffer@.push(byte) + rest->0 =~= buffer@ + (seq![byte]
                                        + rest->0));
                                }
                            }
                            buffer.push(byte);
                            pending = None;
                        },
                        None => {
                            pending = Some(n);
                        },
                    }
                    i += 1;
                },
            }
        }
    }
    Ok(flush_pending(buffer, pending))
}

/// Ends the output: a half byte that still waits becomes a byte whose low
/// half is zero.
fn flush_pending(buffer: Vec<u8>, pending: Option<u8>) -> (r: Bytes)
    requires
        pending matches Some(high) ==> high < 16,
    ensures
        r@ == buffer@ + (match pending {
            Some(high) => seq![(high * 16) as u8],
            None => Seq::empty(),
        }),
{
    let mut buffer = buffer;
    match pending {
        Some(high) => {
            assert(buffer@.push((high * 16) as u8) =~= buffer@ + seq![(high * 16) as u8]);
            buffer.push(high * 16);
        },
        None => {
            assert(buffer@ + Seq::<u8>::empty() =~= buffer@);
        },
    }
    Bytes(buffer)
}

/// What zlib decompression makes of `data`: the decompressed bytes, or
/// `None` where `data` is no complete zlib stream.
pub uninterp spec fn zlib_inflated(data: Seq<u8>) -> Option<Seq<u8>>;

/// Decompresses a zlib stream with `flate2::read::ZlibDecoder`, read to its
/// end with `read_to_end`. The decoder returns an error for a stream that is
/// corrupt or incomplete, and the same input always gives the same output:
/// that output is what `zlib_inflated` names.
#[verifier::external_body]
fn inflate(data: &[u8]) -> (r: Option<Vec<u8>>)
    ensures
        r is Some == zlib_inflated(data@) is Some,
        r matches Some(out) ==> zlib_inflated(data@) == Some(out@),
{
    let mut out = Vec::new();
    match flate2::read::ZlibDecoder::new(data).read_to_end(&mut out) {
        Ok(_) => Some(out),
        Err(_) => None,
    }
}

/// The bytes of an optional vector.
pub open spec fn bytes_of(v: Option<Vec<u8>>) -> Option<Seq<u8>> {
    match v {
        Some(bytes) => Some(bytes@),
        None => None,
    }
}

/// What the Flate filter gives for the outcome `inflated` of the
/// decompression.
pub open spec fn flate_result(inflated: Option<Seq<u8>>) -> Result<Seq<u8>, FilterFault> {
    match inflated {
        Some(out) => Ok(out),
        None => Err(FilterFault::InvalidData),
    }
}

/// Turns the outcome of the decompression into the filter's result: any
/// failure of the decompressor is `InvalidData`.
pub fn flate_outcome(inflated: Option<Vec<u8>>) -> (r: Result<Bytes, FilterError>)
    ensures
        match r {
            Ok(b) => flate_result(bytes_of(inflated)) == Ok::<Seq<u8>, FilterFault>(b@),
            Err(e) => flate_result(bytes_of(inflated)) == Err::<Seq<u8>, FilterFault>(
                e@,
            ),
        },
{
    match inflated {
        Some(out) => Ok(Bytes(out)),
        None => Err(FilterError::InvalidData),
    }
}

/// Undoes the Flate encoding.
pub fn decode_flate(data: &Bytes) -> (r: Result<Bytes, FilterError>)
    ensures
        match r {
            Ok(b) => flate_result(zlib_inflated(data@)) == Ok::<Seq<u8>, FilterFault>(b@),
            Err(e) => flate_result(zlib_inflated(data@)) == Err::<Seq<u8>, FilterFault>(e@),
        },
{
    flate_outcome(inflate(data.as_slice()))
}

/// The filter is one that PDF defines and that is not supported here.
pub open spec fn is_unsupported_filter(name: Seq<u8>) -> bool {
    name == kw("ASCII85Decode") || name == kw("LZWDecode") || name == kw("RunLengthDecode") || name
        == kw("CCITTFaxDecode") || name == kw("JBIG2Decode") || name == kw("DCTDecode") || name
        == kw("JPXDecode") || name == kw("Crypt")
}

/// What the filter called `name` makes of `data`.
pub open spec fn spec_filter(name: Seq<u8>, data: Seq<u8>) -> Result<Seq<u8>, FilterFault> {
    if name == kw("ASCIIHexDecode") {
        match ascii_hex_decoded(data) {
            Some(out) => Ok(out),
            None => Err(FilterFault::InvalidData),
        }
    } else if name == kw("FlateDecode") {
        flate_result(zlib_inflated(data))
    } else if is_unsupported_filter(name) {
        Err(FilterFault::UnsupportedFilter(name))
    } else {
        Err(FilterFault::UnknownFilter(name))
    }
}

/// `r` is the executable form of `expected`.
pub open spec fn filter_outcome(r: Result<Bytes, FilterError>, expected: Result<Seq<u8>, FilterFault>) -> bool {
    match r {
        Ok(b) => expected == Ok::<Seq<u8>, FilterFault>(b@),
        Err(e) => expected == Err::<Seq<u8>, FilterFault>(e@),
    }
}

/// Applies the filter called `filter_name` to `data`. The parameters are
/// taken and not used: neither of the two supported filters has any.
pub fn filter(filter_name: &Name, _p: Option<&Dictionary>, data: &Bytes) -> (r: Result<
    Bytes,
    FilterError,
>)
    ensures
        filter_outcome(r, spec_filter(filter_name@, data@)),
{
    if filter_name.is("ASCIIHexDecode".as_bytes()) {
        decode_ascii_hex(data.as_slice())
    } else if filter_name.is("FlateDecode".as_bytes()) {
        decode_flate(data)
    } else if filter_name.is("ASCII85Decode".as_bytes()) || filter_name.is("LZWDecode".as_bytes())
        || filter_name.is("RunLengthDecode".as_bytes()) || filter_name.is(
        "CCITTFaxDecode".as_bytes(),
    ) || filter_name.is("JBIG2Decode".as_bytes()) || filter_name.is("DCTDecode".as_bytes())
        || filter_name.is("JPXDecode".as_bytes()) || filter_name.is("Crypt".as_bytes()) {
        Err(FilterError::UnsupportedFilter(filter_name.duplicate()))
    } else {
        Err(FilterError::UnknownFilter(filter_name.duplicate()))
    }
}

} // verus!
