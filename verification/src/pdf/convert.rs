//! Conversions into objects and into the types of their parts.
use vstd::prelude::*;
use vstd::std_specs::convert::FromSpecImpl;
use crate::pdf::object::{Array, Bytes, CbString, Dictionary, Name, Object, Stream};

verus! {

impl From<Vec<u8>> for Name {
    fn from(v: Vec<u8>) -> (r: Self) {
        Name(v)
    }
}

impl FromSpecImpl<Vec<u8>> for Name {
    open spec fn obeys_from_spec() -> bool {
        true
    }

    open spec fn from_spec(v: Vec<u8>) -> Self {
        Name(v)
    }
}

impl From<Vec<u8>> for CbString {
    fn from(v: Vec<u8>) -> (r: Self) {
        CbString(v)
    }
}

impl FromSpecImpl<Vec<u8>> for CbString {
    open spec fn obeys_from_spec() -> bool {
        true
    }

    open spec fn from_spec(v: Vec<u8>) -> Self {
        CbString(v)
    }
}

impl From<Vec<u8>> for Bytes {
    fn from(v: Vec<u8>) -> (r: Self) {
        Bytes(v)
    }
}

impl FromSpecImpl<Vec<u8>> for Bytes {
    open spec fn obeys_from_spec() -> bool {
        true
    }

    open spec fn from_spec(v: Vec<u8>) -> Self {
        Bytes(v)
    }
}

impl From<Vec<Object>> for Array {
    fn from(objects: Vec<Object>) -> (r: Self) {
        Array(objects)
    }
}

impl FromSpecImpl<Vec<Object>> for Array {
    open spec fn obeys_from_spec() -> bool {
        true
    }

    open spec fn from_spec(objects: Vec<Object>) -> Self {
        Array(objects)
    }
}

impl From<bool> for Object {
    fn from(v: bool) -> (r: Self) {
        Object::Bool(v)
    }
}

impl FromSpecImpl<bool> for Object {
    open spec fn obeys_from_spec() -> bool {
        true
    }

    open spec fn from_spec(v: bool) -> Self {
        Object::Bool(v)
    }
}

impl From<i32> for Object {
    fn from(v: i32) -> (r: Self) {
        Object::Integer(v)
    }
}

impl FromSpecImpl<i32> for Object {
    open spec fn obeys_from_spec() -> bool {
        true
    }

    open spec fn from_spec(v: i32) -> Self {
        Object::Integer(v)
    }
}

impl From<CbString> for Object {
    fn from(v: CbString) -> (r: Self) {
        Object::String(v)
    }
}

impl FromSpecImpl<CbString> for Object {
    open spec fn obeys_from_spec() -> bool {
        true
    }

    open spec fn from_spec(v: CbString) -> Self {
        Object::String(v)
    }
}

impl From<Name> for Object {
    fn from(n: Name) -> (r: Self) {
        Object::Name(n)
    }
}

impl FromSpecImpl<Name> for Object {
    open spec fn obeys_from_spec() -> bool {
        true
    }

    open spec fn from_spec(n: Name) -> Self {
        Object::Name(n)
    }
}

impl From<Array> for Object {
    fn from(a: Array) -> (r: Self) {
        Object::Array(a)
    }
}

impl FromSpecImpl<Array> for Object {
    open spec fn obeys_from_spec() -> bool {
        true
    }

    open spec fn from_spec(a: Array) -> Self {
        Object::Array(a)
    }
}

impl From<Dictionary> for Object {
    fn from(d: Dictionary) -> (r: Self) {
        Object::Dictionary(d)
    }
}

impl FromSpecImpl<Dictionary> for Object {
    open spec fn obeys_from_spec() -> bool {
        true
    }

    open spec fn from_spec(d: Dictionary) -> Self {
        Object::Dictionary(d)
    }
}

impl From<Stream> for Object {
    fn from(s: Stream) -> (r: Self) {
        Object::Stream(s)
    }
}

impl FromSpecImpl<Stream> for Object {
    open spec fn obeys_from_spec() -> bool {
        true
    }

    open spec fn from_spec(s: Stream) -> Self {
        Object::Stream(s)
    }
}

} // verus!
