//! What the grammar reads can be written so that it is read back.
use vstd::prelude::*;
use crate::lex::{
    after_sign, decimal, lemma_run_end, run_end, spec_signed32, ByteClass, BACKSLASH, LEFT_PAREN,
    RIGHT_PAREN,
};
use crate::parse::grammar::{
    float_end, hex_decoded, mantissa_end, spec_hex_string, spec_number, spec_string,
    string_close,
};
use crate::parse::grammar::{
    advances, kw, skip_noise, spec_array, spec_bool, spec_dictionary, spec_elements,
    spec_entries, spec_indirect, spec_indirect_body, spec_name, spec_null, spec_object,
    spec_stream,
};
use crate::pdf::object::{
    dict_find, dict_get, dict_insert, distinct_keys, lemma_dict_find, lemma_dict_insert, Value,
};
use crate::parse::assemble::{
    as_indirect, find_container, insert_all, spec_children, spec_head, spec_heads, spec_parse,
    spec_resolve, spec_resolve_entries, spec_resolve_section,
    spec_revision_trailer, spec_used_objects, next_offset,
};
use crate::parse::error::ParseFault;
use crate::parse::object_stream::{spec_object_stream, spec_stream_content};
use crate::parse::trailer::spec_trailer_at;
use crate::parse::xref::{spec_xref, spec_xref_stream};
use crate::pdf::stream::spec_filtered;
use crate::pdf::trailer::{spec_trailer, TrailerValue};
use crate::pdf::xref::{compressed_of, used_of, UsedCompressedObject, UsedObject};
use crate::pdf::{lookup, PdfValue, SectionValue};
use crate::pdf::document::spec_document_catalog;
use crate::parse::stored::lemma_revision_exists;
use crate::simple_encode::document_laws::{
    all_indirect, lemma_catalog_survives, lemma_merged_single, lemma_single_serves, listed_data,
    newest_serve, plain_document, read_document, stored_value, writable_identity,
    writable_objects,
};
use crate::simple_encode::section::{document_text, is_listing, listing, merged};
use crate::simple_encode::round_trip::{writable_body, writable_stream};
use crate::simple_encode::round_trip::{balanced, lemma_close_from, writable};

verus! {

/// The parenthesis that closes a string closes it in the content alone
/// too, when a closing parenthesis is put behind the content.
pub proof fn lemma_close_extracted(s: Seq<u8>, base: int, close: int, p: int, depth: nat)
    requires
        0 <= base,
        0 <= p,
        base + p <= close < s.len(),
        string_close(s, base + p, depth) == Some(close),
    ensures
        string_close(s.subrange(base, close).push(RIGHT_PAREN), p, depth) == Some(close - base),
    decreases close - base - p,
{
    let x = s.subrange(base, close);
    let t = x.push(RIGHT_PAREN);
    let at = base + p;
    lemma_close_from(s, at, depth);
    assert(t.len() == close - base + 1);
    if at < close {
        assert(t[p] == s[at]);
        if s[at] == BACKSLASH {
            assert(at + 1 < s.len());
            lemma_close_from(s, at + 2, depth);
            assert(p + 1 < t.len());
            lemma_close_extracted(s, base, close, p + 2, depth);
        } else if s[at] == LEFT_PAREN {
            lemma_close_from(s, at + 1, depth + 1);
            lemma_close_extracted(s, base, close, p + 1, depth + 1);
        } else if s[at] == RIGHT_PAREN {
            assert(depth > 0);
            lemma_close_from(s, at + 1, (depth - 1) as nat);
            lemma_close_extracted(s, base, close, p + 1, (depth - 1) as nat);
        } else {
            lemma_close_from(s, at + 1, depth);
            lemma_close_extracted(s, base, close, p + 1, depth);
        }
    } else {
        assert(t[p] == RIGHT_PAREN);
        assert(s[at] == RIGHT_PAREN);
        if depth > 0 {
            lemma_close_from(s, at + 1, (depth - 1) as nat);
        }
        assert(depth == 0);
    }
}

/// What is read as the content of a literal string can stand between
/// parentheses as it is.
pub proof fn lemma_read_string_is_balanced(s: Seq<u8>, pos: int)
    ensures
        spec_string(s, pos) matches Some((x, _)) ==> balanced(x),
{
    if let Some((x, _)) = spec_string(s, pos) {
        let close = string_close(s, pos + 1, 0)->0;
        lemma_close_from(s, pos + 1, 0);
        lemma_close_extracted(s, pos + 1, close, 0, 0);
    }
}

/// What is read as a hexadecimal string has at least one byte.
pub proof fn lemma_read_hex_string(s: Seq<u8>, pos: int)
    ensures
        spec_hex_string(s, pos) matches Some((b, _)) ==> b.len() > 0,
{
    reveal(hex_decoded);
}

/// The run of bytes of a class in a part of a sequence ends where it ends
/// in the sequence, or where the part ends.
pub proof fn lemma_run_extracted(s: Seq<u8>, pos: int, end: int, k: int, class: ByteClass)
    requires
        0 <= pos,
        0 <= k,
        pos + k <= end <= s.len(),
    ensures
        run_end(s.subrange(pos, end), k, class) == (if run_end(s, pos + k, class) < end {
            run_end(s, pos + k, class) - pos
        } else {
            end - pos
        }),
    decreases end - pos - k,
{
    let t = s.subrange(pos, end);
    lemma_run_end(s, pos + k, class);
    if pos + k < end {
        assert(t[k] == s[pos + k]);
        if class.holds(s[pos + k]) {
            lemma_run_extracted(s, pos, end, k + 1, class);
        }
    }
}

/// The digits of a part of a sequence write the same number as in the
/// sequence.
pub proof fn lemma_decimal_extracted(s: Seq<u8>, pos: int, end: int, from: int, to: int)
    requires
        0 <= pos,
        0 <= from <= to,
        pos + to <= end <= s.len(),
    ensures
        decimal(s.subrange(pos, end), from, to) == decimal(s, pos + from, pos + to),
    decreases to - from,
{
    if from < to {
        lemma_decimal_extracted(s, pos, end, from, to - 1);
        assert(s.subrange(pos, end)[to - 1] == s[pos + to - 1]);
    }
}

/// The text of what is read as a decimal number is the text of a decimal
/// number.
pub proof fn lemma_read_number_is_writable(s: Seq<u8>, pos: int)
    ensures
        spec_number(s, pos) matches Some((v, _)) ==> writable(v),
{
    if let Some((v, _)) = spec_number(s, pos) {
        if let Value::Float(t) = v {
            let e = float_end(s, pos)->0;
            lemma_float_extracted(s, pos, e);
            let at0 = after_sign(s, pos);
            lemma_run_end(s, at0, ByteClass::Digit);
            lemma_run_extracted(s, pos, e, at0 - pos, ByteClass::Digit);
            let int_end = run_end(s, at0, ByteClass::Digit);
            if int_end >= e {
                lemma_decimal_extracted(s, pos, e, at0 - pos, e - pos);
                assert(spec_signed32(s, pos) is None);
                if pos < e {
                    assert(t[0] == s[pos]);
                }
                assert(after_sign(t, 0) == at0 - pos);
                assert(spec_signed32(t, 0) is None);
            }
        }
    }
}

/// Where a decimal number ends in a sequence, the part of the sequence up
/// to there is a decimal number.
pub proof fn lemma_float_extracted(s: Seq<u8>, pos: int, e: int)
    requires
        float_end(s, pos) == Some(e),
    ensures
        pos < e <= s.len(),
        s.subrange(pos, e).len() == e - pos,
        float_end(s.subrange(pos, e), 0) == Some(e - pos),
        after_sign(s.subrange(pos, e), 0) == after_sign(s, pos) - pos,
        after_sign(s, pos) <= e,
{
    let at0 = after_sign(s, pos);
    lemma_run_end(s, at0, ByteClass::Digit);
    let int_end = run_end(s, at0, ByteClass::Digit);
    if int_end < s.len() {
        lemma_run_end(s, int_end + 1, ByteClass::Digit);
    }
    if at0 < s.len() {
        lemma_run_end(s, at0 + 1, ByteClass::Digit);
    }
    let m = mantissa_end(s, at0)->0;
    assert(at0 < m <= s.len());
    if m < s.len() && (s[m] == 101 || s[m] == 69) {
        let digits = after_sign(s, m + 1);
        lemma_run_end(s, digits, ByteClass::Digit);
    }
    assert(m <= e <= s.len());
    let t = s.subrange(pos, e);
    assert(t[0] == s[pos]);
    assert(after_sign(t, 0) == at0 - pos);
    lemma_run_extracted(s, pos, e, at0 - pos, ByteClass::Digit);
    if int_end < e {
        assert(t[int_end - pos] == s[int_end]);
        lemma_run_extracted(s, pos, e, int_end + 1 - pos, ByteClass::Digit);
    }
    if at0 < e {
        assert(t[at0 - pos] == s[at0]);
        lemma_run_extracted(s, pos, e, at0 + 1 - pos, ByteClass::Digit);
    }
    assert(mantissa_end(t, at0 - pos) == Some(m - pos));
    if m < e {
        assert(t[m - pos] == s[m]);
        let digits = after_sign(s, m + 1);
        if m + 1 < e {
            assert(t[m + 1 - pos] == s[m + 1]);
        }
        assert(after_sign(t, m + 1 - pos) == digits - pos);
        lemma_run_extracted(s, pos, e, digits - pos, ByteClass::Digit);
    }
}

/// Every stream in `v` holds the length of its payload under `Length` in
/// its dictionary, and the length is an integer of 32 bits.
pub open spec fn true_lengths(v: Value) -> bool
    decreases v,
{
    match v {
        Value::Array(a) => forall|i: int| 0 <= i < a.len() ==> true_lengths(#[trigger] a[i]),
        Value::Dictionary(d) => forall|i: int|
            0 <= i < d.len() ==> true_lengths(#[trigger] d[i].1),
        Value::Stream(d, data) => data.len() <= i32::MAX && dict_get(d, kw("Length")) == Some(
            Value::Integer(data.len() as i32),
        ) && forall|i: int| 0 <= i < d.len() ==> true_lengths(#[trigger] d[i].1),
        Value::Indirect(_, _, inner) => true_lengths(*inner),
        _ => true,
    }
}

/// The values of a dictionary whose streams hold their lengths do so.
pub proof fn lemma_lengths_in_dictionary(v: Value, i: int)
    requires
        true_lengths(v),
        v is Dictionary,
        0 <= i < v->Dictionary_0.len(),
    ensures
        true_lengths(v->Dictionary_0[i].1),
{
    match v {
        Value::Dictionary(d) => {
            assert(true_lengths(d[i].1));
        },
        _ => {},
    }
}

/// The elements of an array whose streams hold their lengths do so.
pub proof fn lemma_lengths_in_array(v: Value, i: int)
    requires
        true_lengths(v),
        v is Array,
        0 <= i < v->Array_0.len(),
    ensures
        true_lengths(v->Array_0[i]),
{
    match v {
        Value::Array(a) => {
            assert(true_lengths(a[i]));
        },
        _ => {},
    }
}

/// The values of the dictionary of a stream whose streams hold their
/// lengths do so, and the dictionary holds the length of the payload.
pub proof fn lemma_lengths_in_stream(v: Value, i: int)
    requires
        true_lengths(v),
        v is Stream,
        0 <= i < v->Stream_0.len(),
    ensures
        true_lengths(v->Stream_0[i].1),
        v->Stream_1.len() <= i32::MAX,
        dict_get(v->Stream_0, kw("Length")) == Some(Value::Integer(v->Stream_1.len() as i32)),
{
    match v {
        Value::Stream(d, data) => {
            assert(true_lengths(d[i].1));
        },
        _ => {},
    }
}

/// A stream whose streams hold their lengths holds the length of its
/// payload.
pub proof fn lemma_length_of_stream(v: Value)
    requires
        true_lengths(v),
        v is Stream,
    ensures
        v->Stream_1.len() <= i32::MAX,
        dict_get(v->Stream_0, kw("Length")) == Some(Value::Integer(v->Stream_1.len() as i32)),
{
    match v {
        Value::Stream(d, data) => {},
        _ => {},
    }
}

/// An array of values that can be written so that they are read back can
/// be.
pub proof fn lemma_writable_array(v: Value)
    requires
        v is Array,
        forall|i: int| 0 <= i < v->Array_0.len() ==> writable(#[trigger] v->Array_0[i]),
    ensures
        writable(v),
{
    match v {
        Value::Array(a) => {
            assert forall|i: int| 0 <= i < a.len() implies writable(#[trigger] a[i]) by {
                assert(writable(v->Array_0[i]));
            }
        },
        _ => {},
    }
}

/// A dictionary with distinct keys of values that can be written so that
/// they are read back can be.
pub proof fn lemma_writable_dictionary(v: Value)
    requires
        v is Dictionary,
        distinct_keys(v->Dictionary_0),
        forall|i: int|
            0 <= i < v->Dictionary_0.len() ==> writable(#[trigger] v->Dictionary_0[i].1),
    ensures
        writable(v),
{
    match v {
        Value::Dictionary(d) => {
            assert forall|i: int| 0 <= i < d.len() implies writable(#[trigger] d[i].1) by {
                assert(writable(v->Dictionary_0[i].1));
            }
        },
        _ => {},
    }
}

/// What can be said of every value that is read as an object: it is no
/// stream, and it can be written so that it is read back if the streams in
/// it hold their lengths.
pub open spec fn object_value(v: Value) -> bool {
    !(v is Stream) && (true_lengths(v) ==> writable(v))
}

/// What can be said of the entries of every dictionary that is read: no
/// key occurs twice, and the values are values that are read as objects.
pub open spec fn read_entries(d: Seq<(Seq<u8>, Value)>) -> bool {
    distinct_keys(d) && forall|i: int| 0 <= i < d.len() ==> object_value(#[trigger] d[i].1)
}

/// What can be said of the elements of every array that is read.
pub open spec fn read_elements(a: Seq<Value>) -> bool {
    forall|i: int| 0 <= i < a.len() ==> object_value(#[trigger] a[i])
}

/// Putting a value that was read into a dictionary that was read gives
/// such a dictionary.
pub proof fn lemma_insert_read(d: Seq<(Seq<u8>, Value)>, key: Seq<u8>, v: Value)
    requires
        read_entries(d),
        object_value(v),
    ensures
        read_entries(dict_insert(d, key, v)),
{
    lemma_dict_insert(d, key, v);
    lemma_dict_find(d, key, 0);
    let r = dict_insert(d, key, v);
    let at = dict_find(d, key, 0);
    assert forall|i: int| 0 <= i < r.len() implies object_value(#[trigger] r[i].1) by {
        if i != at {
            assert(r[i] == d[i]);
        }
    }
}

/// The entries that are read into a dictionary that was read give such a
/// dictionary.
pub proof fn lemma_entries_read(s: Seq<u8>, pos: int, acc: Seq<(Seq<u8>, Value)>)
    requires
        read_entries(acc),
    ensures
        read_entries(spec_entries(s, pos, acc).0),
    decreases s.len() - pos, 20int,
{
    if let Some((key, p)) = spec_name(s, pos) {
        if advances(s, pos, p) {
            if let Some((v, e)) = spec_object(s, p) {
                let next = skip_noise(s, e);
                if advances(s, pos, next) {
                    lemma_object_read(s, p);
                    lemma_insert_read(acc, key, v);
                    lemma_entries_read(s, next, dict_insert(acc, key, v));
                }
            }
        }
    }
}

/// A dictionary that is read has distinct keys and values that were read
/// as objects.
pub proof fn lemma_dictionary_read(s: Seq<u8>, pos: int)
    ensures
        spec_dictionary(s, pos) matches Some((d, _)) ==> read_entries(d),
    decreases s.len() - pos, 5int,
{
    if spec_dictionary(s, pos) is Some {
        let p = skip_noise(s, pos + 2);
        lemma_entries_read(s, p, Seq::empty());
    }
}

/// The elements that are read into an array that was read give such an
/// array.
pub proof fn lemma_elements_read(s: Seq<u8>, pos: int, acc: Seq<Value>)
    requires
        read_elements(acc),
    ensures
        read_elements(spec_elements(s, pos, acc).0),
    decreases s.len() - pos, 20int,
{
    if let Some((v, e)) = spec_object(s, pos) {
        if advances(s, pos, e) {
            lemma_object_read(s, pos);
            let next = acc.push(v);
            assert forall|i: int| 0 <= i < next.len() implies object_value(#[trigger] next[i]) by {
                if i < acc.len() {
                    assert(next[i] == acc[i]);
                }
            }
            lemma_elements_read(s, e, next);
        }
    }
}

/// The elements of an array that is read are values that were read as
/// objects.
pub proof fn lemma_array_read(s: Seq<u8>, pos: int)
    ensures
        spec_array(s, pos) matches Some((a, _)) ==> read_elements(a),
    decreases s.len() - pos, 5int,
{
    if spec_array(s, pos) is Some {
        let p = skip_noise(s, pos + 1);
        lemma_elements_read(s, p, Seq::empty());
    }
}

/// What stands between `obj` and `endobj` can be written so that it is
/// read back, if the streams in it hold their lengths.
pub proof fn lemma_body_read(s: Seq<u8>, pos: int)
    ensures
        spec_indirect_body(s, pos) matches Some((v, _)) ==> (true_lengths(v) ==> writable_body(
            v,
        )),
    decreases s.len() - pos, 12int,
{
    match spec_stream(s, pos) {
        Some((d, data, _)) => {
            lemma_dictionary_read(s, pos);
            let v = Value::Stream(d, data);
            if true_lengths(v) {
                assert forall|i: int| 0 <= i < d.len() implies writable(#[trigger] d[i].1) by {
                    lemma_lengths_in_stream(v, i);
                    assert(object_value(d[i].1));
                }
                lemma_length_of_stream(v);
                assert(writable_stream(d, data));
            }
        },
        None => {
            lemma_object_read(s, pos);
        },
    }
}

/// A reference or an indirect object that is read can be written so that
/// it is read back, if the streams in it hold their lengths.
pub proof fn lemma_indirect_read(s: Seq<u8>, pos: int)
    ensures
        spec_indirect(s, pos) matches Some((v, _)) ==> object_value(v),
    decreases s.len() - pos, 8int,
{
    if let Some((v, _)) = spec_indirect(s, pos) {
        if let Value::Indirect(_, _, inner) = v {
            if let Some((_, _, p)) = crate::parse::grammar::spec_object_id(s, pos) {
                let body = skip_noise(s, p + 3);
                lemma_body_read(s, body);
            }
        }
    }
}

/// An object that is read can be written so that it is read back, if the
/// streams in it hold their lengths; and it is no stream.
pub proof fn lemma_object_read(s: Seq<u8>, pos: int)
    ensures
        spec_object(s, pos) matches Some((v, _)) ==> object_value(v),
    decreases s.len() - pos, 10int,
{
    if let Some((v, _)) = spec_object(s, pos) {
        if let Some((d, _)) = spec_dictionary(s, pos) {
            lemma_dictionary_read(s, pos);
            if true_lengths(v) {
                assert forall|i: int| 0 <= i < d.len() implies writable(#[trigger] d[i].1) by {
                    lemma_lengths_in_dictionary(v, i);
                    assert(object_value(d[i].1));
                }
                lemma_writable_dictionary(v);
            }
        } else if let Some((a, _)) = spec_array(s, pos) {
            lemma_array_read(s, pos);
            if true_lengths(v) {
                assert forall|i: int| 0 <= i < a.len() implies writable(#[trigger] a[i]) by {
                    lemma_lengths_in_array(v, i);
                    assert(object_value(a[i]));
                }
                lemma_writable_array(v);
            }
        } else if spec_string(s, pos) is Some {
            lemma_read_string_is_balanced(s, pos);
        } else if spec_indirect(s, pos) is Some {
            lemma_indirect_read(s, pos);
        } else if spec_number(s, pos) is Some {
            lemma_read_number_is_writable(s, pos);
        } else if spec_bool(s, pos) is Some {
        } else if spec_null(s, pos) is Some {
        } else if spec_hex_string(s, pos) is Some {
            lemma_read_hex_string(s, pos);
        }
    }
}

/// What can be said of every object of a document that is read: if it is
/// an indirect object and the streams in it hold their lengths, it can be
/// written so that it is read back.
pub open spec fn read_object(o: Value) -> bool {
    (o is Indirect && true_lengths(o)) ==> writable(o)
}

/// What can be said of the objects of every revision that is read: there
/// are finitely many, and each of them is an object of a document that is
/// read.
pub open spec fn read_objects(objects: Map<usize, Value>) -> bool {
    objects.dom().finite() && forall|number: usize|
        objects.contains_key(number) ==> read_object(#[trigger] objects[number])
}

/// An object that was read, as the indirect object of an object stream,
/// is an object of a document that is read.
pub proof fn lemma_child_is_read(number: u32, child: Value)
    requires
        object_value(child),
    ensures
        read_object(as_indirect(number, child)),
{
    let o = as_indirect(number, child);
    if true_lengths(o) {
        match o {
            Value::Indirect(_, _, inner) => {
                assert(true_lengths(*inner));
                assert(writable(child));
            },
            _ => {},
        }
    }
}

/// The objects that are read at byte offsets are objects of a document
/// that is read.
pub proof fn lemma_used_objects_read(
    s: Seq<u8>,
    used: Seq<UsedObject>,
    from: int,
    acc: Map<usize, Value>,
)
    requires
        read_objects(acc),
    ensures
        spec_used_objects(s, used, from, acc) matches Ok(objects) ==> read_objects(objects),
    decreases used.len() - from,
{
    if 0 <= from < used.len() && used[from].byte_offset <= s.len() {
        if let Some((v, _)) = spec_indirect(s, used[from].byte_offset as int) {
            lemma_indirect_read(s, used[from].byte_offset as int);
            let next = acc.insert(used[from].number, v);
            assert(next.dom() =~= acc.dom().insert(used[from].number));
            lemma_used_objects_read(s, used, from + 1, next);
        }
    }
}

/// The objects that an object stream holds are values that were read as
/// objects.
pub proof fn lemma_stream_content_read(
    data: Seq<u8>,
    count: nat,
    first: nat,
    pos: int,
    acc: Seq<(u32, Value)>,
)
    requires
        forall|j: int| 0 <= j < acc.len() ==> object_value(#[trigger] acc[j].1),
    ensures
        spec_stream_content(data, count, first, pos, acc) matches Ok(children) ==> forall|j: int|
            0 <= j < children.len() ==> object_value(#[trigger] children[j].1),
    decreases count,
{
    if count > 0 {
        if let Some((number, at1)) = crate::lex::spec_unsigned(data, pos, u32::MAX as nat) {
            let at2 = run_end(data, at1, ByteClass::Space);
            if let Some((offset, at3)) = crate::lex::spec_unsigned(data, at2, u32::MAX as nat) {
                if at2 != at1 && first + offset <= data.len() {
                    if let Some((v, _)) = spec_object(data, (first + offset) as int) {
                        lemma_object_read(data, (first + offset) as int);
                        let next = acc.push((number as u32, v));
                        assert forall|j: int| 0 <= j < next.len() implies object_value(
                            #[trigger] next[j].1,
                        ) by {
                            if j < acc.len() {
                                assert(next[j] == acc[j]);
                            }
                        }
                        lemma_stream_content_read(
                            data,
                            (count - 1) as nat,
                            first,
                            run_end(data, at3, ByteClass::Space),
                            next,
                        );
                    }
                }
            }
        }
    }
}

/// The objects that the container of an object stream holds are values
/// that were read as objects.
pub proof fn lemma_children_read(container: Option<Value>)
    ensures
        spec_children(container) matches Ok(children) ==> forall|j: int|
            0 <= j < children.len() ==> object_value(#[trigger] children[j].1),
{
    if let Some(Value::Indirect(_, _, inner)) = container {
        if let Value::Stream(d, data) = *inner {
            if let Ok(decoded) = spec_filtered(d, data) {
                if let Ok(children) = spec_object_stream(d, data) {
                    lemma_stream_content_read(
                        decoded,
                        crate::parse::object_stream::unsigned_entry(d, kw("N")).unwrap() as nat,
                        crate::parse::object_stream::unsigned_entry(d, kw("First")).unwrap() as nat,
                        0,
                        Seq::empty(),
                    );
                }
            }
        }
    }
}

/// Putting the objects of an object stream among objects of a document
/// that is read gives such objects.
pub proof fn lemma_insert_all_read(
    objects: Map<usize, Value>,
    children: Seq<(u32, Value)>,
    from: int,
)
    requires
        read_objects(objects),
        forall|j: int| 0 <= j < children.len() ==> object_value(#[trigger] children[j].1),
    ensures
        read_objects(insert_all(objects, children, from)),
    decreases children.len() - from,
{
    if 0 <= from < children.len() {
        let number = children[from].0;
        let o = as_indirect(number, children[from].1);
        lemma_child_is_read(number, children[from].1);
        let next = objects.insert(number as usize, o);
        assert(next.dom() =~= objects.dom().insert(number as usize));
        lemma_insert_all_read(next, children, from + 1);
    }
}

/// Reading the object streams of a revision gives objects of a document
/// that is read.
pub proof fn lemma_resolve_entries_read(
    compressed: Seq<UsedCompressedObject>,
    from: int,
    own: Map<usize, Value>,
    older: Seq<SectionValue>,
)
    requires
        read_objects(own),
    ensures
        spec_resolve_entries(compressed, from, own, older) matches Ok(objects) ==> read_objects(
            objects,
        ),
    decreases compressed.len() - from,
{
    if 0 <= from < compressed.len() {
        let container = find_container(own, older, compressed[from].containing_object);
        if let Ok(children) = spec_children(container) {
            lemma_children_read(container);
            lemma_insert_all_read(own, children, 0);
            lemma_resolve_entries_read(compressed, from + 1, insert_all(own, children, 0), older);
        }
    }
}

/// What can be said of every trailer that is read: the dictionary under
/// `Encrypt` can be written so that it is read back if the streams in it
/// hold their lengths, and the two strings of the identifier are not
/// empty.
pub open spec fn read_trailer_value(t: TrailerValue) -> bool {
    (t.encrypt matches Some(e) ==> (true_lengths(Value::Dictionary(e)) ==> writable(
        Value::Dictionary(e),
    ))) && (t.id matches Some((a, b)) ==> a.len() > 0 && b.len() > 0)
}

/// What is found in a dictionary that was read is a value that was read as
/// an object.
pub proof fn lemma_get_read(d: Seq<(Seq<u8>, Value)>, key: Seq<u8>)
    requires
        read_entries(d),
    ensures
        dict_get(d, key) matches Some(v) ==> object_value(v),
{
    lemma_dict_find(d, key, 0);
    let at = dict_find(d, key, 0);
    if at < d.len() {
        assert(object_value(d[at].1));
    }
}

/// An array of hexadecimal strings that can be written so that it is read
/// back holds strings that are not empty.
pub proof fn lemma_identifier_strings(v: Value)
    requires
        object_value(v),
        v is Array,
        v->Array_0.len() == 2,
        v->Array_0[0] is HexString,
        v->Array_0[1] is HexString,
    ensures
        v->Array_0[0]->HexString_0.len() > 0,
        v->Array_0[1]->HexString_0.len() > 0,
{
    match v {
        Value::Array(a) => {
            assert(true_lengths(a[0]));
            assert(true_lengths(a[1]));
            assert(true_lengths(v));
            assert(writable(a[0]));
            assert(writable(a[1]));
        },
        _ => {},
    }
}

/// The trailer that a dictionary that was read describes is a trailer of
/// this kind.
pub proof fn lemma_trailer_read(d: Seq<(Seq<u8>, Value)>)
    requires
        read_entries(d),
    ensures
        spec_trailer(d) matches Ok(t) ==> read_trailer_value(t),
{
    if let Ok(t) = spec_trailer(d) {
        lemma_get_read(d, kw("Encrypt"));
        lemma_get_read(d, kw("ID"));
        if let Some(v) = dict_get(d, kw("ID")) {
            lemma_identifier_strings(v);
        }
    }
}

/// The trailer of a revision that is read is a trailer of this kind.
pub proof fn lemma_revision_trailer_read(
    s: Seq<u8>,
    d: Option<Seq<(Seq<u8>, Value)>>,
    end: int,
    upper: int,
)
    requires
        d matches Some(x) ==> read_entries(x),
    ensures
        spec_revision_trailer(s, d, end, upper) matches Ok(Some(t)) ==> read_trailer_value(t),
{
    match d {
        Some(x) => {
            lemma_trailer_read(x);
        },
        None => {
            lemma_trailer_at_read(s, run_end(s, end, ByteClass::Space));
            if end <= upper <= s.len() {
                let part = s.subrange(end, upper);
                if let Some(p) = crate::parse::last_match(part, kw("trailer"), true, 4103) {
                    lemma_trailer_at_read(part, p);
                }
            }
        },
    }
}

/// The trailer that is read behind its keyword is a trailer of this kind.
pub proof fn lemma_trailer_at_read(s: Seq<u8>, pos: int)
    ensures
        spec_trailer_at(s, pos) matches Ok(t) ==> read_trailer_value(t),
{
    let at = run_end(s, pos + 7, ByteClass::Space);
    if let Some((d, _)) = spec_dictionary(s, at) {
        lemma_dictionary_read(s, at);
        lemma_trailer_read(d);
    }
}

/// The dictionary of a cross-reference stream that is read is a dictionary
/// that was read.
pub proof fn lemma_xref_dictionary_read(s: Seq<u8>, pos: int)
    ensures
        spec_xref(s, pos) matches Ok((_, _, Some(d), _)) ==> read_entries(d),
{
    if let Ok((_, _, d, _)) = spec_xref_stream(s, pos) {
        if let Some((_, _, p)) = crate::parse::grammar::spec_object_id(s, pos) {
            let body = skip_noise(s, p + 3);
            lemma_dictionary_read(s, body);
            lemma_object_read(s, body);
        }
    }
}

/// What can be said of every revision that is read.
pub open spec fn read_section_value(section: SectionValue) -> bool {
    read_objects(section.objects) && (section.trailer matches Some(t) ==> read_trailer_value(t))
}

/// What can be said of all of `sections`.
pub open spec fn read_sections(sections: Seq<SectionValue>) -> bool {
    forall|i: int| 0 <= i < sections.len() ==> read_section_value(#[trigger] sections[i])
}

/// A revision that is read at its offset is a revision of this kind.
pub proof fn lemma_head_read(s: Seq<u8>, offset: usize, upper: int)
    ensures
        spec_head(s, offset, upper) matches Ok(head) ==> read_section_value(head),
{
    if offset <= s.len() {
        if let Ok((entries, _, d, end)) = spec_xref(s, offset as int) {
            lemma_xref_dictionary_read(s, offset as int);
            lemma_revision_trailer_read(s, d, end, upper);
            assert(Map::<usize, Value>::empty().dom() =~= Set::<usize>::empty());
            lemma_used_objects_read(s, used_of(entries), 0, Map::empty());
        }
    }
}

/// The revisions that are read along the chain are revisions of this
/// kind.
pub proof fn lemma_heads_read(s: Seq<u8>, offset: usize, upper: int)
    ensures
        spec_heads(s, offset, upper) matches Ok(heads) ==> read_sections(heads),
    decreases offset,
{
    lemma_head_read(s, offset, upper);
    if let Ok(head) = spec_head(s, offset, upper) {
        if let Some(previous) = next_offset(head.trailer, offset) {
            lemma_heads_read(s, previous, offset as int);
            if let Ok(rest) = spec_heads(s, previous, offset as int) {
                let heads = seq![head] + rest;
                assert forall|i: int| 0 <= i < heads.len() implies read_section_value(
                    #[trigger] heads[i],
                ) by {
                    if i > 0 {
                        assert(heads[i] == rest[i - 1]);
                    }
                }
            }
        }
    }
}

/// Completing revisions of this kind gives revisions of this kind.
pub proof fn lemma_resolve_read(heads: Seq<SectionValue>, older: Seq<SectionValue>)
    requires
        read_sections(heads),
        read_sections(older),
    ensures
        spec_resolve(heads, older) matches Ok(sections) ==> read_sections(sections),
    decreases heads.len(),
{
    if heads.len() > 0 {
        let head = heads.last();
        assert(read_section_value(head));
        lemma_resolve_entries_read(compressed_of(head.xref), 0, head.objects, older);
        if let Ok(section) = spec_resolve_section(head, older) {
            let next = seq![section] + older;
            assert forall|i: int| 0 <= i < next.len() implies read_section_value(
                #[trigger] next[i],
            ) by {
                if i > 0 {
                    assert(next[i] == older[i - 1]);
                }
            }
            let front = heads.drop_last();
            assert forall|i: int| 0 <= i < front.len() implies read_section_value(
                #[trigger] front[i],
            ) by {
                assert(front[i] == heads[i]);
            }
            lemma_resolve_read(front, next);
        }
    }
}

/// The revisions of every document that is read are revisions of this
/// kind: their objects can be written so that they are read back, if they
/// are indirect objects whose streams hold their lengths.
pub proof fn lemma_parse_read(s: Seq<u8>)
    ensures
        spec_parse(s) matches Ok(pdf) ==> read_sections(pdf.sections),
{
    if let Ok((keyword, offset)) = crate::parse::assemble::spec_start(s) {
        lemma_heads_read(s, offset, keyword);
        if let Ok(heads) = spec_heads(s, offset, keyword) {
            lemma_resolve_read(heads, Seq::empty());
        }
    }
}

/// A finite set of numbers that is not empty has a greatest number.
pub proof fn lemma_greatest_exists(numbers: Set<usize>) -> (greatest: usize)
    requires
        numbers.finite(),
        numbers.len() > 0,
    ensures
        numbers.contains(greatest),
        forall|x: usize| numbers.contains(x) ==> x <= greatest,
    decreases numbers.len(),
{
    let x = numbers.choose();
    let rest = numbers.remove(x);
    if rest.len() == 0 {
        assert forall|y: usize| numbers.contains(y) implies y <= x by {
            if y != x {
                assert(rest.contains(y));
            }
        }
        x
    } else {
        let m = lemma_greatest_exists(rest);
        let greatest = if x > m {
            x
        } else {
            m
        };
        assert forall|y: usize| numbers.contains(y) implies y <= greatest by {
            if y != x {
                assert(rest.contains(y));
            }
        }
        greatest
    }
}

/// The numbers of a finite set can be listed in rising order.
pub proof fn lemma_listing_exists(numbers: Set<usize>)
    requires
        numbers.finite(),
    ensures
        is_listing(listing(numbers), numbers),
    decreases numbers.len(),
{
    if numbers.len() == 0 {
        let keys = Seq::<usize>::empty();
        assert forall|k: usize| keys.contains(k) == numbers.contains(k) by {
            if numbers.contains(k) {
                assert(numbers.len() > 0);
            }
        }
        assert(is_listing(keys, numbers));
    } else {
        let greatest = lemma_greatest_exists(numbers);
        let rest = numbers.remove(greatest);
        lemma_listing_exists(rest);
        let front = listing(rest);
        let keys = front.push(greatest);
        assert forall|i: int, j: int| 0 <= i < j < keys.len() implies keys[i] < keys[j] by {
            assert(front.contains(front[i]));
            assert(rest.contains(front[i]));
            if j < front.len() {
                assert(keys[i] == front[i] && keys[j] == front[j]);
            }
        }
        assert forall|k: usize| keys.contains(k) == numbers.contains(k) by {
            if keys.contains(k) {
                let x = choose|x: int| 0 <= x < keys.len() && keys[x] == k;
                if x < front.len() {
                    assert(front[x] == k);
                    assert(front.contains(k));
                    assert(rest.contains(k));
                }
            }
            if numbers.contains(k) {
                if k == greatest {
                    assert(keys[front.len() as int] == k);
                } else {
                    assert(rest.contains(k));
                    assert(front.contains(k));
                    let x = choose|x: int| 0 <= x < front.len() && front[x] == k;
                    assert(keys[x] == k);
                }
            }
        }
        assert(is_listing(keys, numbers));
    }
}

/// The objects that are found by their numbers in revisions that were
/// read, from `from` on, are finitely many objects of a document that is
/// read.
pub proof fn lemma_lookup_read(sections: Seq<SectionValue>, from: int)
    requires
        read_sections(sections),
        0 <= from,
    ensures
        Set::new(|number: usize| lookup(sections, from, number) is Some).finite(),
        forall|number: usize|
            (#[trigger] lookup(sections, from, number)) is Some ==> read_object(
                lookup(sections, from, number)->0,
            ),
    decreases sections.len() - from,
{
    let found = Set::new(|number: usize| lookup(sections, from, number) is Some);
    if from >= sections.len() {
        assert(found =~= Set::<usize>::empty());
    } else {
        lemma_lookup_read(sections, from + 1);
        let later = Set::new(|number: usize| lookup(sections, from + 1, number) is Some);
        assert(read_section_value(sections[from]));
        assert(found =~= sections[from].objects.dom().union(later));
        assert forall|number: usize|
            (#[trigger] lookup(sections, from, number)) is Some implies read_object(
            lookup(sections, from, number)->0,
        ) by {
            if !sections[from].objects.contains_key(number) {
                assert(lookup(sections, from + 1, number) is Some);
            }
        }
    }
}

/// Round trip: a file that is read as a document with a trailer, in which
/// every reference is served by the newest object of its number, and whose
/// objects are indirect objects with numbers that are integers of 32 bits
/// and with streams that hold their lengths, is written as a document that
/// is read back with the same objects and the same catalog; provided that
/// the document that is written and the payload of its cross-reference
/// stream are not too long for their lengths to be written down.
pub proof fn lemma_round_trip(bytes: Seq<u8>, pdf: PdfValue)
    requires
        spec_parse(bytes) == Ok::<PdfValue, (int, ParseFault, Option<usize>)>(pdf),
        pdf.sections[0].trailer is Some,
        pdf.sections[0].trailer->0.encrypt matches Some(e) ==> true_lengths(Value::Dictionary(e)),
        newest_serve(pdf.sections),
        all_indirect(merged(pdf.sections)),
        forall|number: usize| #[trigger]
            merged(pdf.sections).contains_key(number) ==> number < i32::MAX && true_lengths(
                merged(pdf.sections)[number],
            ),
        document_text(pdf).len() <= usize::MAX,
        listed_data(merged(pdf.sections), listing(merged(pdf.sections).dom())).len() <= i32::MAX,
    ensures
        spec_parse(document_text(pdf)) == Ok::<PdfValue, (int, ParseFault, Option<usize>)>(
            read_document(pdf),
        ),
        spec_document_catalog(read_document(pdf)) == spec_document_catalog(pdf),
{
    lemma_parse_read(bytes);
    lemma_revision_exists(bytes);
    assert(read_section_value(pdf.sections[0]));
    let objects = merged(pdf.sections);
    lemma_lookup_read(pdf.sections, 0);
    assert(objects.dom() =~= Set::new(|number: usize| lookup(pdf.sections, 0, number) is Some));
    lemma_listing_exists(objects.dom());
    let keys = listing(objects.dom());
    assert(writable_objects(objects, keys)) by {
        assert forall|i: int| 0 <= i < keys.len() implies writable(
            stored_value(#[trigger] keys[i], objects[keys[i]]),
        ) && keys[i] < i32::MAX by {
            assert(keys.contains(keys[i]));
            assert(objects.contains_key(keys[i]));
            assert(lookup(pdf.sections, 0, keys[i]) == Some(objects[keys[i]]));
            assert(read_object(objects[keys[i]]));
        }
    }
    assert(writable_identity(pdf.sections[0].trailer->0));
    assert(plain_document(pdf));
    lemma_catalog_survives(pdf);
}

/// Round trip for a file of one revision: its references are served by the
/// objects of that revision, so that nothing is asked of them.
pub proof fn lemma_round_trip_of_one_revision(bytes: Seq<u8>, pdf: PdfValue)
    requires
        spec_parse(bytes) == Ok::<PdfValue, (int, ParseFault, Option<usize>)>(pdf),
        pdf.sections.len() == 1,
        pdf.sections[0].trailer is Some,
        pdf.sections[0].trailer->0.encrypt matches Some(e) ==> true_lengths(Value::Dictionary(e)),
        all_indirect(pdf.sections[0].objects),
        forall|number: usize| #[trigger]
            pdf.sections[0].objects.contains_key(number) ==> number < i32::MAX && true_lengths(
                pdf.sections[0].objects[number],
            ),
        document_text(pdf).len() <= usize::MAX,
        listed_data(merged(pdf.sections), listing(merged(pdf.sections).dom())).len() <= i32::MAX,
    ensures
        spec_parse(document_text(pdf)) == Ok::<PdfValue, (int, ParseFault, Option<usize>)>(
            read_document(pdf),
        ),
        spec_document_catalog(read_document(pdf)) == spec_document_catalog(pdf),
{
    assert(pdf.sections =~= seq![pdf.sections[0]]);
    lemma_merged_single(pdf.sections[0]);
    lemma_single_serves(pdf.sections[0]);
    lemma_round_trip(bytes, pdf);
}

} // verus!
