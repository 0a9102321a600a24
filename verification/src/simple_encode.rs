//! Simple serialization of a [`RawPdf`](crate::pdf::RawPdf).
//!
//! The implementation is as simple as possible and will result in an
//! unoptimized PDF file, one that uses more bytes than necessary.
pub mod document_laws;
pub mod laws;
pub mod object;
pub mod parsed_laws;
pub mod round_trip;
pub mod section;
pub mod text;

use vstd::prelude::*;
use crate::pdf::object::{
    Array, CbString, Dictionary, IndirectObject, Name, Object, Stream, Value,
};
use crate::simple_encode::object::{
    object_text, value_text, write_array, write_dictionary, write_indirect, write_object,
    write_stream,
};
use crate::pdf::trailer::Trailer;
use crate::pdf::xref::Xref;
use crate::pdf::RawPdf;
use crate::simple_encode::section::{
    document_text, encode_document, trailer_text, write_trailer, write_xref_object, xref_text,
};
use crate::simple_encode::text::{encode_name, encode_string, name_text, string_text};
use crate::writer::{Encoder, Writer};

verus! {

/// Encodes a document in the most simple way.
///
/// * Cross-reference streams are used and no table or trailer
/// * Nothing is compressed
/// * Several revisions are merged into one
pub struct SimpleEncoder;

impl Encoder<Name> for SimpleEncoder {
    open spec fn encoding(n: &Name) -> Seq<u8> {
        name_text(n@)
    }

    fn encoded_len(n: &Name) -> (r: usize) {
        encode_name(n.as_slice()).len()
    }

    fn write_to<W: Writer>(n: &Name, writer: &mut W) {
        let text = encode_name(n.as_slice());
        writer.write(text.as_slice());
    }
}

impl Encoder<CbString> for SimpleEncoder {
    open spec fn encoding(s: &CbString) -> Seq<u8> {
        string_text(s@)
    }

    fn encoded_len(s: &CbString) -> (r: usize) {
        encode_string(s.as_slice()).len()
    }

    fn write_to<W: Writer>(s: &CbString, writer: &mut W) {
        let text = encode_string(s.as_slice());
        writer.write(text.as_slice());
    }
}

impl Encoder<Array> for SimpleEncoder {
    open spec fn encoding(a: &Array) -> Seq<u8> {
        value_text(Value::Array(a@))
    }

    fn write_to<W: Writer>(a: &Array, writer: &mut W) {
        write_array(a, writer);
    }
}

impl Encoder<Dictionary> for SimpleEncoder {
    open spec fn encoding(d: &Dictionary) -> Seq<u8> {
        value_text(Value::Dictionary(d@))
    }

    fn write_to<W: Writer>(d: &Dictionary, writer: &mut W) {
        write_dictionary(d, writer);
    }
}

impl Encoder<Stream> for SimpleEncoder {
    open spec fn encoding(s: &Stream) -> Seq<u8> {
        value_text(Value::Stream(s.dictionary@, s.data@))
    }

    fn write_to<W: Writer>(s: &Stream, writer: &mut W) {
        write_stream(s, writer);
    }
}

impl Encoder<IndirectObject> for SimpleEncoder {
    open spec fn encoding(o: &IndirectObject) -> Seq<u8> {
        value_text(Value::Indirect(o.index, o.generation, Box::new(o.object@)))
    }

    fn write_to<W: Writer>(o: &IndirectObject, writer: &mut W) {
        write_indirect(o, writer);
    }
}

impl Encoder<Object> for SimpleEncoder {
    /// An object is written as its value and a line feed.
    open spec fn encoding(o: &Object) -> Seq<u8> {
        object_text(o@)
    }

    fn write_to<W: Writer>(o: &Object, writer: &mut W) {
        write_object(o, writer);
    }
}

impl Encoder<Xref> for SimpleEncoder {
    /// A cross-reference section is written as a cross-reference stream,
    /// whatever its form was in the file.
    open spec fn encoding(x: &Xref) -> Seq<u8> {
        xref_text(x@, x.spec_kind())
    }

    fn write_to<W: Writer>(x: &Xref, writer: &mut W) {
        let entries = x.entries();
        write_xref_object(&entries, x.kind(), Dictionary::new(), writer);
    }
}

impl Encoder<Trailer> for SimpleEncoder {
    open spec fn encoding(t: &Trailer) -> Seq<u8> {
        trailer_text(t@)
    }

    fn write_to<W: Writer>(t: &Trailer, writer: &mut W) {
        write_trailer(t, writer);
    }
}

impl Encoder<RawPdf> for SimpleEncoder {
    /// A document is written as one revision. The byte offsets in it are
    /// counted from its first byte.
    open spec fn encoding(pdf: &RawPdf) -> Seq<u8> {
        document_text(pdf@)
    }

    fn write_to<W: Writer>(pdf: &RawPdf, writer: &mut W) {
        let text = encode_document(pdf);
        writer.write(text.as_slice());
    }
}

} // verus!
