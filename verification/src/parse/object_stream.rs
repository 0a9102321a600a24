//! Reading the objects that an object stream holds.
use vstd::prelude::*;
use vstd::string::*;
use crate::lex::{run_end, skip_while, spec_unsigned, unsigned32, ByteClass};
use crate::parse::error::{CbParseError, CbParseErrorKind, Context, ParseFault};
use crate::parse::grammar::{kw, spec_object};
use crate::parse::object::{object_fault, parse_object};
use crate::pdf::object::{dict_get, Dictionary, Object, Stream, Value};
use crate::pdf::stream::spec_filtered;

verus! {

/// The objects that the decoded payload `data` of an object stream holds:
/// `count` pairs of an object number and an offset stand from `pos` on, in
/// decimal and separated by whitespace, and the object of a pair stands at
/// its offset, counted from `first`. Gives the numbers with their objects in
/// the order of the pairs, added to `acc`; or the position of the pair at
/// which reading failed, and why.
pub open spec fn spec_stream_content(
    data: Seq<u8>,
    count: nat,
    first: nat,
    pos: int,
    acc: Seq<(u32, Value)>,
) -> Result<Seq<(u32, Value)>, (int, ParseFault)>
    decreases count,
{
    if count == 0 {
        Ok(acc)
    } else {
        match spec_unsigned(data, pos, u32::MAX as nat) {
            None => Err((pos, ParseFault::Generic(Context::ObjectStream))),
            Some((number, at1)) => {
                let at2 = run_end(data, at1, ByteClass::Space);
                match spec_unsigned(data, at2, u32::MAX as nat) {
                    None => Err((pos, ParseFault::Generic(Context::ObjectStream))),
                    Some((offset, at3)) => {
                        if at2 == at1 {
                            Err((pos, ParseFault::Generic(Context::ObjectStream)))
                        } else if first + offset > data.len() {
                            Err((pos, ParseFault::Generic(Context::Offset)))
                        } else {
                            match spec_object(data, (first + offset) as int) {
                                None => Err((pos, object_fault(data, (first + offset) as int)@)),
                                Some((v, _)) => spec_stream_content(
                                    data,
                                    (count - 1) as nat,
                                    first,
                                    run_end(data, at3, ByteClass::Space),
                                    acc.push((number as u32, v)),
                                ),
                            }
                        }
                    },
                }
            },
        }
    }
}

/// The numbers and values of a sequence of numbered objects.
pub open spec fn numbered(objects: Seq<(u32, Object)>) -> Seq<(u32, Value)> {
    Seq::new(objects.len(), |i: int| (objects[i].0, objects[i].1@))
}

/// Reads the objects of an object stream from its decoded payload. The
/// length that the dictionary announces is taken and not used.
pub fn parse_content(_length: usize, obj_count: usize, first_offset: usize, input: &[u8]) -> (r:
    Result<Vec<(u32, Object)>, CbParseError>)
    ensures
        match r {
            Ok(objects) => spec_stream_content(
                input@,
                obj_count as nat,
                first_offset as nat,
                0,
                Seq::empty(),
            ) == Ok::<Seq<(u32, Value)>, (int, ParseFault)>(numbered(objects@)),
            Err(e) => spec_stream_content(
                input@,
                obj_count as nat,
                first_offset as nat,
                0,
                Seq::empty(),
            ) == Err::<Seq<(u32, Value)>, (int, ParseFault)>((e.position as int, e.kind@))
                && e.revision is None,
        },
{
    let mut objects: Vec<(u32, Object)> = Vec::new();
    let mut pos: usize = 0;
    let mut i: usize = 0;
    assert(numbered(objects@) =~= Seq::<(u32, Value)>::empty());
    while i < obj_count
        invariant
            i <= obj_count,
            pos <= input.len(),
            spec_stream_content(input@, obj_count as nat, first_offset as nat, 0, Seq::empty())
                == spec_stream_content(
                input@,
                (obj_count - i) as nat,
                first_offset as nat,
                pos as int,
                numbered(objects@),
            ),
        decreases obj_count - i,
    {
        let (number, at1) = match unsigned32(input, pos) {
            Some(found) => found,
            None => {
                return Err(
                    CbParseError::new(pos, CbParseErrorKind::Generic(Context::ObjectStream)),
                );
            },
        };
        let at2 = skip_while(input, at1, ByteClass::Space);
        let (offset, at3) = match unsigned32(input, at2) {
            Some(found) => found,
            None => {
                return Err(
                    CbParseError::new(pos, CbParseErrorKind::Generic(Context::ObjectStream)),
                );
            },
        };
        if at2 == at1 {
            return Err(CbParseError::new(pos, CbParseErrorKind::Generic(Context::ObjectStream)));
        }
        if first_offset > input.len() || offset as usize > input.len() - first_offset {
            return Err(CbParseError::new(pos, CbParseErrorKind::Generic(Context::Offset)));
        }
        let object = match parse_object(input, first_offset + offset as usize) {
            Ok((object, _)) => object,
            Err(invalid) => {
                let kind = if invalid {
                    CbParseErrorKind::InvalidName
                } else {
                    CbParseErrorKind::Generic(Context::Object)
                };
                return Err(CbParseError::new(pos, kind));
            },
        };
        assert(numbered(objects@.push((number, object))) =~= numbered(objects@).push(
            (number, object@),
        ));
        objects.push((number, object));
        pos = skip_while(input, at3, ByteClass::Space);
        i += 1;
    }
    Ok(objects)
}

/// The entry of `d` under `key` as a non-negative integer.
pub open spec fn unsigned_entry(d: Seq<(Seq<u8>, Value)>, key: Seq<u8>) -> Option<usize> {
    match dict_get(d, key) {
        Some(Value::Integer(i)) => if i >= 0 {
            Some(i as usize)
        } else {
            None
        },
        _ => None,
    }
}

/// The objects that the object stream with the dictionary `d` and the
/// payload `data` holds. The dictionary must be of the type `ObjStm` and
/// give the length of the payload, the count `N` of the objects and the
/// offset `First` of the first of them.
pub open spec fn spec_object_stream(d: Seq<(Seq<u8>, Value)>, data: Seq<u8>) -> Result<
    Seq<(u32, Value)>,
    (int, ParseFault),
> {
    if dict_get(d, kw("Type")) != Some(Value::Name(kw("ObjStm"))) || unsigned_entry(
        d,
        kw("Length"),
    ) is None || unsigned_entry(d, kw("N")) is None || unsigned_entry(d, kw("First")) is None {
        Err((0, ParseFault::Generic(Context::ObjectStream)))
    } else {
        match spec_filtered(d, data) {
            Err(f) => Err((0, ParseFault::StreamError(f))),
            Ok(decoded) => spec_stream_content(
                decoded,
                unsigned_entry(d, kw("N")).unwrap() as nat,
                unsigned_entry(d, kw("First")).unwrap() as nat,
                0,
                Seq::empty(),
            ),
        }
    }
}

/// Reads the entry under `key` as a non-negative integer.
fn get_unsigned(dict: &Dictionary, key: &str) -> (r: Option<usize>)
    ensures
        r == unsigned_entry(dict@, kw(key)),
{
    match dict.get(key.as_bytes()) {
        Some(Object::Integer(i)) => {
            if *i >= 0 {
                Some(*i as usize)
            } else {
                None
            }
        },
        _ => None,
    }
}

/// Decodes an object stream and reads the objects that it holds. The
/// position of an error is counted in the decoded payload.
pub fn object_stream(stream: &Stream) -> (r: Result<Vec<(u32, Object)>, CbParseError>)
    ensures
        match r {
            Ok(objects) => spec_object_stream(stream.dictionary@, stream.data@) == Ok::<
                Seq<(u32, Value)>,
                (int, ParseFault),
            >(numbered(objects@)),
            Err(e) => spec_object_stream(stream.dictionary@, stream.data@) == Err::<
                Seq<(u32, Value)>,
                (int, ParseFault),
            >((e.position as int, e.kind@)) && e.revision is None,
        },
{
    let dict = &stream.dictionary;
    let is_object_stream = match dict.get("Type".as_bytes()) {
        Some(Object::Name(n)) => n.is("ObjStm".as_bytes()),
        _ => false,
    };
    let length = get_unsigned(dict, "Length");
    let obj_count = get_unsigned(dict, "N");
    let first_offset = get_unsigned(dict, "First");
    match (is_object_stream, length, obj_count, first_offset) {
        (true, Some(length), Some(obj_count), Some(first_offset)) => {
            match stream.filtered_data() {
                Ok(data) => parse_content(length, obj_count, first_offset, data.as_slice()),
                Err(e) => Err(CbParseError::new(0, CbParseErrorKind::StreamError(e))),
            }
        },
        _ => Err(CbParseError::new(0, CbParseErrorKind::Generic(Context::ObjectStream))),
    }
}

} // verus!
