//! How objects are written.
use vstd::prelude::*;
use vstd::string::*;
use crate::lex::{GREATER_THAN, LEFT_BRACKET, LESS_THAN, LF, RIGHT_BRACKET};
use crate::parse::grammar::kw;
use crate::pdf::object::{
    dict_get, lemma_model, Array, Dictionary, IndirectObject, Object, Reference, Stream, Value,
};
use crate::simple_encode::text::{
    encode_name, encode_string, hex_encode, hex_encoding, integer_digits, integer_text, name_text,
    string_text, unsigned_digits, unsigned_text,
};
use crate::writer::Writer;

verus! {

/// A space.
pub const SPACE: u8 = 32;

/// How a reference is written: `N G R`.
pub open spec fn reference_text(index: u32, generation: u32) -> Seq<u8> {
    unsigned_text(index as nat) + seq![SPACE] + unsigned_text(generation as nat) + seq![SPACE, 82u8]
}

/// How a hexadecimal string is written.
pub open spec fn hex_string_text(bytes: Seq<u8>) -> Seq<u8> {
    seq![LESS_THAN] + hex_encoding(bytes) + seq![GREATER_THAN]
}

/// What separates an element from the one before it: a space, and nothing
/// before the first.
pub open spec fn separator(index: int) -> Seq<u8> {
    if index > 0 {
        seq![SPACE]
    } else {
        Seq::empty()
    }
}

/// How a value is written.
pub open spec fn value_text(v: Value) -> Seq<u8>
    decreases v, 0nat,
{
    match v {
        Value::String(s) => string_text(s),
        Value::HexString(b) => hex_string_text(b),
        Value::Float(text) => text,
        Value::Integer(i) => integer_text(i as int),
        Value::Bool(b) => if b {
            kw("true")
        } else {
            kw("false")
        },
        Value::Name(n) => name_text(n),
        Value::Array(a) => seq![LEFT_BRACKET] + items_text(a, 0) + seq![RIGHT_BRACKET],
        Value::Dictionary(d) => kw("<<") + entries_text(d, 0, None) + kw(">>"),
        Value::Stream(d, data) => stream_dictionary_text(d, unsigned_text(data.len())) + kw(
            " stream\n",
        ) + data + kw("\nendstream"),
        Value::Null => kw("null"),
        Value::Indirect(index, generation, inner) => unsigned_text(index as nat) + seq![SPACE]
            + unsigned_text(generation as nat) + kw(" obj\n") + value_text(*inner) + seq![LF] + kw(
            "endobj\n",
        ),
        Value::Reference(index, generation) => reference_text(index, generation),
    }
}

/// How an object is written where an object is expected: its value and a
/// line feed.
pub open spec fn object_text(v: Value) -> Seq<u8> {
    value_text(v) + seq![LF]
}

/// How the elements `a[from..]` of an array are written: one after another,
/// with a space between them.
pub open spec fn items_text(a: Seq<Value>, from: int) -> Seq<u8>
    decreases a, a.len() - from,
{
    if from < 0 || from >= a.len() {
        Seq::empty()
    } else {
        separator(from) + value_text(a[from]) + items_text(a, from + 1)
    }
}

/// How the entries `d[from..]` of a dictionary are written: the key, a
/// space and the value of each, with a space between the entries. With
/// `length`, that text stands in the place of the value under `Length`.
pub open spec fn entries_text(d: Seq<(Seq<u8>, Value)>, from: int, length: Option<Seq<u8>>) -> Seq<
    u8,
>
    decreases d, d.len() - from,
{
    if from < 0 || from >= d.len() {
        Seq::empty()
    } else {
        separator(from) + name_text(d[from].0) + seq![SPACE] + (if length is Some && d[from].0
            == kw("Length") {
            length->0
        } else {
            value_text(d[from].1)
        }) + entries_text(d, from + 1, length)
    }
}

/// How the dictionary of a stream is written: as it is, but with the
/// length of the payload, written `length`, under `Length`.
pub open spec fn stream_dictionary_text(d: Seq<(Seq<u8>, Value)>, length: Seq<u8>) -> Seq<u8>
    decreases d, d.len() + 1,
{
    kw("<<") + entries_text(d, 0, Some(length)) + (if dict_get(d, kw("Length")) is None {
        separator(d.len() as int) + name_text(kw("Length")) + seq![SPACE] + length
    } else {
        Seq::empty()
    }) + kw(">>")
}

/// Writes one byte.
pub fn write_byte<W: Writer>(writer: &mut W, byte: u8)
    ensures
        final(writer).written() == old(writer).written() + seq![byte],
{
    let bytes: [u8; 1] = [byte];
    assert(bytes@ =~= seq![byte]);
    writer.write(bytes.as_slice());
}

/// Writes a keyword.
pub fn write_keyword<W: Writer>(writer: &mut W, keyword: &str)
    ensures
        final(writer).written() == old(writer).written() + kw(keyword),
{
    writer.write(keyword.as_bytes());
}

/// Writes a space before every element but the first.
fn write_separator<W: Writer>(writer: &mut W, index: usize)
    ensures
        final(writer).written() == old(writer).written() + separator(index as int),
{
    if index > 0 {
        write_byte(writer, SPACE);
    } else {
        assert(writer.written() + Seq::<u8>::empty() =~= writer.written());
    }
}

/// Writes a reference.
pub fn write_reference<W: Writer>(reference: &Reference, writer: &mut W)
    ensures
        final(writer).written() == old(writer).written() + reference_text(
            reference.index,
            reference.generation,
        ),
{
    let ghost start = writer.written();
    writer.write(unsigned_digits(reference.index as u64).as_slice());
    write_byte(writer, SPACE);
    writer.write(unsigned_digits(reference.generation as u64).as_slice());
    write_byte(writer, SPACE);
    write_byte(writer, 82);
    assert(writer.written() =~= start + reference_text(reference.index, reference.generation));
}

/// Writes an array.
pub fn write_array<W: Writer>(array: &Array, writer: &mut W)
    ensures
        final(writer).written() == old(writer).written() + value_text(Value::Array(array@)),
    decreases array,
{
    let ghost start = writer.written();
    write_byte(writer, LEFT_BRACKET);
    let mut i: usize = 0;
    while i < array.0.len()
        invariant
            i <= array.0@.len(),
            array@.len() == array.0@.len(),
            start + seq![LEFT_BRACKET] + items_text(array@, 0) == writer.written() + items_text(
                array@,
                i as int,
            ),
        decreases array.0@.len() - i,
    {
        let ghost before = writer.written();
        write_separator(writer, i);
        write_value(&array.0[i], writer);
        assert(writer.written() + items_text(array@, i + 1) =~= before + (separator(i as int)
            + value_text(array@[i as int]) + items_text(array@, i + 1)));
        i += 1;
    }
    write_byte(writer, RIGHT_BRACKET);
    assert(writer.written() =~= start + (seq![LEFT_BRACKET] + items_text(array@, 0) + seq![
        RIGHT_BRACKET,
    ]));
}

/// Writes the entries of a dictionary. With `length`, that text is written
/// in the place of the value under `Length`.
pub fn write_entries<W: Writer>(dictionary: &Dictionary, length: Option<&Vec<u8>>, writer: &mut W)
    ensures
        final(writer).written() == old(writer).written() + entries_text(
            dictionary@,
            0,
            match length {
                Some(text) => Some(text@),
                None => None,
            },
        ),
    decreases dictionary, 0nat,
{
    let ghost start = writer.written();
    let ghost override_text: Option<Seq<u8>> = match length {
        Some(text) => Some(text@),
        None => None,
    };
    let mut i: usize = 0;
    assert(start + entries_text(dictionary@, 0, override_text) == writer.written() + entries_text(
        dictionary@,
        0,
        override_text,
    ));
    while i < dictionary.len()
        invariant
            i <= dictionary@.len(),
            override_text == (match length {
                Some(text) => Some(text@),
                None => None,
            }),
            start + entries_text(dictionary@, 0, override_text) == writer.written() + entries_text(
                dictionary@,
                i as int,
                override_text,
            ),
        decreases dictionary@.len() - i,
    {
        let ghost before = writer.written();
        write_separator(writer, i);
        let key = &dictionary.entries[i].0;
        writer.write(encode_name(key.as_slice()).as_slice());
        write_byte(writer, SPACE);
        match length {
            Some(text) if key.is("Length".as_bytes()) => {
                writer.write(text.as_slice());
            },
            _ => {
                write_value(&dictionary.entries[i].1, writer);
            },
        }
        assert(writer.written() + entries_text(dictionary@, i + 1, override_text) =~= before + (
        separator(i as int) + name_text(dictionary@[i as int].0) + seq![SPACE] + (if override_text is Some
            && dictionary@[i as int].0 == kw("Length") {
            override_text->0
        } else {
            value_text(dictionary@[i as int].1)
        }) + entries_text(dictionary@, i + 1, override_text)));
        i += 1;
    }
    assert(writer.written() + Seq::<u8>::empty() =~= writer.written());
}

/// Writes a dictionary.
pub fn write_dictionary<W: Writer>(dictionary: &Dictionary, writer: &mut W)
    ensures
        final(writer).written() == old(writer).written() + value_text(
            Value::Dictionary(dictionary@),
        ),
    decreases dictionary, 1nat,
{
    let ghost start = writer.written();
    write_keyword(writer, "<<");
    write_entries(dictionary, None, writer);
    write_keyword(writer, ">>");
    assert(writer.written() =~= start + (kw("<<") + entries_text(dictionary@, 0, None) + kw(
        ">>",
    )));
}

/// Writes a stream: its dictionary with the length of the payload under
/// `Length`, and the payload between `stream` and `endstream`.
pub fn write_stream<W: Writer>(stream: &Stream, writer: &mut W)
    ensures
        final(writer).written() == old(writer).written() + value_text(
            Value::Stream(stream.dictionary@, stream.data@),
        ),
    decreases stream,
{
    let ghost start = writer.written();
    let length = unsigned_digits(stream.data.0.len() as u64);
    write_keyword(writer, "<<");
    write_entries(&stream.dictionary, Some(&length), writer);
    if !stream.dictionary.contains_key("Length".as_bytes()) {
        write_separator(writer, stream.dictionary.len());
        writer.write(encode_name("Length".as_bytes()).as_slice());
        write_byte(writer, SPACE);
        writer.write(length.as_slice());
    }
    write_keyword(writer, ">>");
    let ghost dictionary_end = writer.written();
    assert(dictionary_end =~= start + stream_dictionary_text(stream.dictionary@, length@));
    write_keyword(writer, " stream\n");
    writer.write(stream.data.as_slice());
    write_keyword(writer, "\nendstream");
    assert(writer.written() =~= start + (stream_dictionary_text(stream.dictionary@, length@) + kw(
        " stream\n",
    ) + stream.data@ + kw("\nendstream")));
}

/// Writes an indirect object: `N G obj`, the object, `endobj`.
pub fn write_indirect<W: Writer>(indirect: &IndirectObject, writer: &mut W)
    ensures
        final(writer).written() == old(writer).written() + value_text(
            Value::Indirect(indirect.index, indirect.generation, Box::new(indirect.object@)),
        ),
    decreases indirect,
{
    let ghost start = writer.written();
    writer.write(unsigned_digits(indirect.index as u64).as_slice());
    write_byte(writer, SPACE);
    writer.write(unsigned_digits(indirect.generation as u64).as_slice());
    write_keyword(writer, " obj\n");
    write_value(&*indirect.object, writer);
    write_byte(writer, LF);
    write_keyword(writer, "endobj\n");
    assert(writer.written() =~= start + (unsigned_text(indirect.index as nat) + seq![SPACE]
        + unsigned_text(indirect.generation as nat) + kw(" obj\n") + value_text(indirect.object@)
        + seq![LF] + kw("endobj\n")));
}

/// Writes a value.
pub fn write_value<W: Writer>(o: &Object, writer: &mut W)
    ensures
        final(writer).written() == old(writer).written() + value_text(o@),
    decreases o, 2nat,
{
    proof {
        lemma_model(*o);
    }
    let ghost start = writer.written();
    match o {
        Object::String(s) => {
            writer.write(encode_string(s.as_slice()).as_slice());
        },
        Object::HexString(bytes) => {
            write_byte(writer, LESS_THAN);
            writer.write(hex_encode(bytes.as_slice()).as_slice());
            write_byte(writer, GREATER_THAN);
            assert(writer.written() =~= start + hex_string_text(bytes@));
        },
        Object::Float(text) => {
            writer.write(text.as_slice());
        },
        Object::Integer(i) => {
            writer.write(integer_digits(*i).as_slice());
        },
        Object::Bool(true) => {
            write_keyword(writer, "true");
        },
        Object::Bool(false) => {
            write_keyword(writer, "false");
        },
        Object::Name(n) => {
            writer.write(encode_name(n.as_slice()).as_slice());
        },
        Object::Array(a) => {
            write_array(a, writer);
        },
        Object::Dictionary(d) => {
            write_dictionary(d, writer);
        },
        Object::Stream(s) => {
            write_stream(s, writer);
        },
        Object::Null => {
            write_keyword(writer, "null");
        },
        Object::Indirect(i) => {
            write_indirect(i, writer);
        },
        Object::Reference(r) => {
            write_reference(r, writer);
        },
    }
}

/// Writes an object where an object is expected: the value and a line
/// feed.
pub fn write_object<W: Writer>(o: &Object, writer: &mut W)
    ensures
        final(writer).written() == old(writer).written() + object_text(o@),
{
    let ghost start = writer.written();
    write_value(o, writer);
    write_byte(writer, LF);
    assert(writer.written() =~= start + object_text(o@));
}

} // verus!
