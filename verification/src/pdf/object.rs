//! The PDF object and the types of its variants, with their mathematical
//! model.
use vstd::prelude::*;
use vstd::slice::slice_to_vec;
use vstd::string::*;

verus! {

/// What an [`Object`] is, as a mathematical value: byte strings are
/// sequences, arrays are sequences of values, and a dictionary is the
/// sequence of its entries, in which no key occurs twice.
pub enum Value {
    String(Seq<u8>),
    HexString(Seq<u8>),
    Float(Seq<u8>),
    Integer(i32),
    Bool(bool),
    Name(Seq<u8>),
    Array(Seq<Value>),
    Dictionary(Seq<(Seq<u8>, Value)>),
    Stream(Seq<(Seq<u8>, Value)>, Seq<u8>),
    Null,
    Indirect(u32, u32, Box<Value>),
    Reference(u32, u32),
}

/// The position of the first entry of `d` from `from` on whose key is `key`,
/// or the length of `d` if there is none.
pub open spec fn dict_find(d: Seq<(Seq<u8>, Value)>, key: Seq<u8>, from: int) -> int
    decreases d.len() - from,
{
    if from < 0 || from >= d.len() {
        d.len() as int
    } else if d[from].0 == key {
        from
    } else {
        dict_find(d, key, from + 1)
    }
}

/// The value that `d` holds under `key`.
pub open spec fn dict_get(d: Seq<(Seq<u8>, Value)>, key: Seq<u8>) -> Option<Value> {
    let i = dict_find(d, key, 0);
    if i < d.len() {
        Some(d[i].1)
    } else {
        None
    }
}

/// `d` with `value` under `key`: in the place of the value that was there, or
/// as a new last entry.
pub open spec fn dict_insert(d: Seq<(Seq<u8>, Value)>, key: Seq<u8>, value: Value) -> Seq<
    (Seq<u8>, Value),
> {
    let i = dict_find(d, key, 0);
    if i < d.len() {
        d.update(i, (key, value))
    } else {
        d.push((key, value))
    }
}

/// No key occurs twice in `d`.
pub open spec fn distinct_keys(d: Seq<(Seq<u8>, Value)>) -> bool {
    forall|i: int, j: int| 0 <= i < j < d.len() ==> (#[trigger] d[i]).0 != (#[trigger] d[j]).0
}

/// `dict_find` returns a position from `from` on at which `key` stands, and
/// passes over no such position.
pub proof fn lemma_dict_find(d: Seq<(Seq<u8>, Value)>, key: Seq<u8>, from: int)
    requires
        0 <= from <= d.len(),
    ensures
        from <= dict_find(d, key, from) <= d.len(),
        dict_find(d, key, from) < d.len() ==> d[dict_find(d, key, from)].0 == key,
        forall|i: int| from <= i < dict_find(d, key, from) ==> (#[trigger] d[i]).0 != key,
    decreases d.len() - from,
{
    if from < d.len() && d[from].0 != key {
        lemma_dict_find(d, key, from + 1);
    }
}

/// Inserting keeps the keys distinct, and the new value is then found under
/// the key.
pub proof fn lemma_dict_insert(d: Seq<(Seq<u8>, Value)>, key: Seq<u8>, value: Value)
    requires
        distinct_keys(d),
    ensures
        distinct_keys(dict_insert(d, key, value)),
        dict_get(dict_insert(d, key, value), key) == Some(value),
        forall|other: Seq<u8>|
            other != key ==> dict_get(dict_insert(d, key, value), other) == #[trigger] dict_get(
                d,
                other,
            ),
{
    let r = dict_insert(d, key, value);
    let i = dict_find(d, key, 0);
    lemma_dict_find(d, key, 0);
    lemma_dict_find(r, key, 0);
    assert(distinct_keys(r)) by {
        assert forall|a: int, b: int| 0 <= a < b < r.len() implies (#[trigger] r[a]).0 != (
        #[trigger] r[b]).0 by {
            if i < d.len() {
                assert(r[a].0 == d[a].0);
                assert(r[b].0 == d[b].0);
            } else if b == d.len() {
                assert(r[a] == d[a]);
            } else {
                assert(r[a] == d[a]);
                assert(r[b] == d[b]);
            }
        }
    }
    let f = dict_find(r, key, 0);
    if i < d.len() {
        assert(r[i].0 == key);
        if f < i {
            assert(d[f].0 == r[f].0);
        }
    } else {
        assert(r[d.len() as int].0 == key);
        if f < d.len() {
            assert(r[f] == d[f]);
        }
    }
    assert forall|other: Seq<u8>| other != key implies dict_get(r, other) == #[trigger] dict_get(
        d,
        other,
    ) by {
        lemma_dict_find(d, other, 0);
        lemma_dict_find(r, other, 0);
        let a = dict_find(d, other, 0);
        let b = dict_find(r, other, 0);
        if a < d.len() {
            assert(r[a].0 == other);
            if b < a {
                assert(d[b].0 == r[b].0);
            }
        } else if b < r.len() {
            if b < d.len() {
                assert(d[b].0 == r[b].0);
            }
        }
    }
}

/// A name: the bytes after the solidus, with `#HH` sequences already
/// decoded.
#[derive(Clone, Debug, PartialEq, Eq, Hash)]
pub struct Name(pub Vec<u8>);

impl View for Name {
    type V = Seq<u8>;

    open spec fn view(&self) -> Seq<u8> {
        self.0@
    }
}

impl Name {
    pub fn new(n: Vec<u8>) -> (r: Self)
        ensures
            r@ == n@,
    {
        Self(n)
    }

    /// The name whose bytes are those of `s`.
    pub fn from_str(s: &str) -> (r: Self)
        ensures
            r@ == s.spec_bytes(),
    {
        Self(slice_to_vec(s.as_bytes()))
    }

    /// The bytes of the name.
    pub fn as_slice(&self) -> (r: &[u8])
        ensures
            r@ == self@,
    {
        self.0.as_slice()
    }

    /// Whether the name is made of exactly the bytes `other`.
    pub fn is(&self, other: &[u8]) -> (r: bool)
        ensures
            r == (self@ == other@),
    {
        same_bytes(self.0.as_slice(), other)
    }

    /// A copy of the name.
    pub fn duplicate(&self) -> (r: Self)
        ensures
            r@ == self@,
    {
        Self(slice_to_vec(self.0.as_slice()))
    }
}

/// Whether two byte strings are equal.
pub fn same_bytes(a: &[u8], b: &[u8]) -> (r: bool)
    ensures
        r == (a@ == b@),
{
    if a.len() != b.len() {
        return false;
    }
    let mut i: usize = 0;
    while i < a.len()
        invariant
            a.len() == b.len(),
            i <= a.len(),
            forall|j: int| 0 <= j < i ==> a@[j] == b@[j],
        decreases a.len() - i,
    {
        if a[i] != b[i] {
            return false;
        }
        i += 1;
    }
    assert(a@ =~= b@);
    true
}

/// A literal string: the bytes between the outer parentheses as they stand
/// in the file, escapes not resolved.
#[derive(Clone, Debug, PartialEq, Eq, Hash)]
pub struct CbString(pub Vec<u8>);

impl View for CbString {
    type V = Seq<u8>;

    open spec fn view(&self) -> Seq<u8> {
        self.0@
    }
}

/// A string of bytes as a hexadecimal string or a stream holds it.
#[derive(Clone, Debug, PartialEq, Eq, Hash)]
pub struct Bytes(pub Vec<u8>);

impl View for Bytes {
    type V = Seq<u8>;

    open spec fn view(&self) -> Seq<u8> {
        self.0@
    }
}

/// An array: objects in order.
#[derive(Debug, PartialEq)]
pub struct Array(pub Vec<Object>);

/// A dictionary: a mapping from names to objects. The entries are kept in
/// the order in which their keys first came in; no key occurs twice.
#[derive(Debug, PartialEq)]
pub struct Dictionary {
    pub(crate) entries: Vec<(Name, Object)>,
}

/// A stream: a dictionary and the bytes that follow it, as they stand in the
/// file, before any filter is undone.
#[derive(Debug, PartialEq)]
pub struct Stream {
    pub dictionary: Dictionary,
    pub data: Bytes,
}

/// An object that was given a number and a generation.
#[derive(Debug, PartialEq)]
pub struct IndirectObject {
    pub index: u32,
    pub generation: u32,
    pub object: Box<Object>,
}

/// The `N G R` form: the number and the generation of an indirect object.
#[derive(Clone, Copy, Debug, PartialEq, Eq)]
pub struct Reference {
    pub index: u32,
    pub generation: u32,
}

/// The universal PDF value.
///
/// A `Float` holds the number as the file writes it, an optional sign, digits
/// with or without a decimal point, and an optional exponent.
#[derive(Debug, PartialEq)]
pub enum Object {
    String(CbString),
    HexString(Bytes),
    Float(Vec<u8>),
    Integer(i32),
    Bool(bool),
    Name(Name),
    Array(Array),
    Dictionary(Dictionary),
    Stream(Stream),
    Null,
    Indirect(IndirectObject),
    Reference(Reference),
}

impl Object {
    /// The value that the object stands for.
    pub open(crate) spec fn model(self) -> Value
        decreases self,
    {
        match self {
            Object::String(s) => Value::String(s.0@),
            Object::HexString(b) => Value::HexString(b.0@),
            Object::Float(f) => Value::Float(f@),
            Object::Integer(i) => Value::Integer(i),
            Object::Bool(b) => Value::Bool(b),
            Object::Name(n) => Value::Name(n.0@),
            Object::Array(a) => Value::Array(
                Seq::new(
                    a.0@.len(),
                    |i: int|
                        if 0 <= i < a.0@.len() {
                            a.0@[i].model()
                        } else {
                            Value::Null
                        },
                ),
            ),
            Object::Dictionary(d) => Value::Dictionary(
                Seq::new(
                    d.entries@.len(),
                    |i: int|
                        if 0 <= i < d.entries@.len() {
                            (d.entries@[i].0.0@, d.entries@[i].1.model())
                        } else {
                            (Seq::empty(), Value::Null)
                        },
                ),
            ),
            Object::Stream(s) => Value::Stream(
                Seq::new(
                    s.dictionary.entries@.len(),
                    |i: int|
                        if 0 <= i < s.dictionary.entries@.len() {
                            (s.dictionary.entries@[i].0.0@, s.dictionary.entries@[i].1.model())
                        } else {
                            (Seq::empty(), Value::Null)
                        },
                ),
                s.data.0@,
            ),
            Object::Null => Value::Null,
            Object::Indirect(o) => Value::Indirect(o.index, o.generation, Box::new(o.object.model())),
            Object::Reference(r) => Value::Reference(r.index, r.generation),
        }
    }
}

impl View for Object {
    type V = Value;

    open spec fn view(&self) -> Value {
        self.model()
    }
}

/// The values of a sequence of objects.
pub open spec fn values_of(objects: Seq<Object>) -> Seq<Value> {
    Seq::new(objects.len(), |i: int| objects[i]@)
}

/// The entries of a dictionary as values.
pub open spec fn entries_of(entries: Seq<(Name, Object)>) -> Seq<(Seq<u8>, Value)> {
    Seq::new(entries.len(), |i: int| (entries[i].0@, entries[i].1@))
}

impl View for Array {
    type V = Seq<Value>;

    open spec fn view(&self) -> Seq<Value> {
        values_of(self.0@)
    }
}

impl View for Dictionary {
    type V = Seq<(Seq<u8>, Value)>;

    open(crate) spec fn view(&self) -> Seq<(Seq<u8>, Value)> {
        entries_of(self.entries@)
    }
}

impl View for Stream {
    type V = (Seq<(Seq<u8>, Value)>, Seq<u8>);

    open spec fn view(&self) -> (Seq<(Seq<u8>, Value)>, Seq<u8>) {
        (self.dictionary@, self.data@)
    }
}

impl CbString {
    /// The bytes of the string.
    pub fn as_slice(&self) -> (r: &[u8])
        ensures
            r@ == self@,
    {
        self.0.as_slice()
    }
}

impl Bytes {
    /// The bytes.
    pub fn as_slice(&self) -> (r: &[u8])
        ensures
            r@ == self@,
    {
        self.0.as_slice()
    }
}

impl Array {
    /// The empty array.
    pub fn new() -> (r: Self)
        ensures
            r@ == Seq::<Value>::empty(),
    {
        let r = Self(Vec::new());
        assert(r@ =~= Seq::<Value>::empty());
        r
    }

    /// The number of elements.
    pub fn len(&self) -> (r: usize)
        ensures
            r == self@.len(),
    {
        self.0.len()
    }

    /// The element at `i`.
    pub fn get(&self, i: usize) -> (r: Option<&Object>)
        ensures
            i < self@.len() ==> r is Some && r->0@ == self@[i as int] && *r->0 == self.0@[i as int],
            i >= self@.len() ==> r is None,
    {
        if i < self.0.len() {
            Some(&self.0[i])
        } else {
            None
        }
    }

    /// A copy of the array.
    pub fn duplicate(&self) -> (r: Self)
        ensures
            r@ == self@,
        decreases self,
    {
        let mut items: Vec<Object> = Vec::new();
        let mut i: usize = 0;
        while i < self.0.len()
            invariant
                i <= self.0@.len(),
                items@.len() == i,
                forall|j: int| 0 <= j < i ==> (#[trigger] items@[j])@ == self.0@[j]@,
            decreases self.0@.len() - i,
        {
            let item = self.0[i].duplicate();
            items.push(item);
            i += 1;
        }
        let copy = Array(items);
        assert(copy@ =~= self@);
        copy
    }

    /// Adds `object` as the last element.
    pub fn push(&mut self, object: Object)
        ensures
            final(self)@ == old(self)@.push(object@),
    {
        self.0.push(object);
        assert(self@ =~= old(self)@.push(object@));
    }
}

impl Dictionary {
    /// No key occurs twice.
    #[verifier::type_invariant]
    pub open(crate) spec fn well_formed(self) -> bool {
        distinct_keys(self@)
    }

    /// The empty dictionary.
    pub fn new() -> (r: Self)
        ensures
            r@ == Seq::<(Seq<u8>, Value)>::empty(),
    {
        let r = Dictionary { entries: Vec::new() };
        assert(r@ =~= Seq::<(Seq<u8>, Value)>::empty());
        r
    }

    /// The number of entries.
    pub fn len(&self) -> (r: usize)
        ensures
            r == self@.len(),
    {
        self.entries.len()
    }

    /// The key of the entry at `i`.
    pub fn key_at(&self, i: usize) -> (r: &Name)
        requires
            i < self@.len(),
        ensures
            r@ == self@[i as int].0,
    {
        &self.entries[i].0
    }

    /// The value of the entry at `i`.
    pub fn value_at(&self, i: usize) -> (r: &Object)
        requires
            i < self@.len(),
        ensures
            r@ == self@[i as int].1,
    {
        &self.entries[i].1
    }

    /// The position of the entry under `key`, or the number of entries if
    /// there is none.
    pub fn position(&self, key: &[u8]) -> (r: usize)
        ensures
            r == dict_find(self@, key@, 0),
            r <= self@.len(),
    {
        let mut i: usize = 0;
        while i < self.entries.len()
            invariant
                i <= self.entries@.len(),
                dict_find(self@, key@, 0) == dict_find(self@, key@, i as int),
            decreases self.entries@.len() - i,
        {
            if same_bytes(self.entries[i].0.as_slice(), key) {
                return i;
            }
            i += 1;
        }
        i
    }

    /// The object under `key`.
    pub fn get(&self, key: &[u8]) -> (r: Option<&Object>)
        ensures
            r is Some == dict_get(self@, key@) is Some,
            r matches Some(o) ==> dict_get(self@, key@) == Some(o@),
    {
        let i = self.position(key);
        if i < self.entries.len() {
            Some(&self.entries[i].1)
        } else {
            None
        }
    }

    /// Whether there is an entry under `key`.
    pub fn contains_key(&self, key: &[u8]) -> (r: bool)
        ensures
            r == dict_get(self@, key@) is Some,
    {
        self.position(key) < self.entries.len()
    }

    /// Puts `value` under `key`. A value that was there is replaced.
    pub fn insert(&mut self, key: Name, value: Object)
        ensures
            final(self)@ == dict_insert(old(self)@, key@, value@),
    {
        let i = self.position(key.as_slice());
        let mut taken = Dictionary::new();
        std::mem::swap(self, &mut taken);
        proof {
            use_type_invariant(&taken);
            lemma_dict_insert(taken@, key@, value@);
            if i < taken.entries@.len() {
                assert(entries_of(taken.entries@.update(i as int, (key, value))) =~= dict_insert(
                    taken@,
                    key@,
                    value@,
                ));
            } else {
                assert(entries_of(taken.entries@.push((key, value))) =~= dict_insert(
                    taken@,
                    key@,
                    value@,
                ));
            }
        }
        let mut entries = taken.entries;
        if i < entries.len() {
            entries.set(i, (key, value));
        } else {
            entries.push((key, value));
        }
        *self = Dictionary { entries };
    }

    /// A copy of the dictionary.
    pub fn duplicate(&self) -> (r: Self)
        ensures
            r@ == self@,
        decreases self,
    {
        let mut entries: Vec<(Name, Object)> = Vec::new();
        let mut i: usize = 0;
        while i < self.entries.len()
            invariant
                i <= self.entries@.len(),
                entries@.len() == i,
                forall|j: int|
                    0 <= j < i ==> (#[trigger] entries@[j]).0@ == self.entries@[j].0@ && entries@[j].1@
                        == self.entries@[j].1@,
            decreases self.entries@.len() - i,
        {
            let key = self.entries[i].0.duplicate();
            let value = self.entries[i].1.duplicate();
            entries.push((key, value));
            i += 1;
        }
        proof {
            use_type_invariant(self);
            assert(entries_of(entries@) =~= self@);
        }
        Dictionary { entries }
    }
}

impl Stream {
    /// A copy of the stream.
    pub fn duplicate(&self) -> (r: Self)
        ensures
            r@ == self@,
        decreases self,
    {
        Stream {
            dictionary: self.dictionary.duplicate(),
            data: Bytes(slice_to_vec(self.data.0.as_slice())),
        }
    }
}

impl Object {
    pub fn name(&self) -> (r: Option<&Name>)
        ensures
            r == (match *self {
                Object::Name(n) => Some(&n),
                _ => None,
            }),
    {
        if let Object::Name(n) = self {
            Some(n)
        } else {
            None
        }
    }

    pub fn indirect(&self) -> (r: Option<&IndirectObject>)
        ensures
            r == (match *self {
                Object::Indirect(o) => Some(&o),
                _ => None,
            }),
    {
        if let Object::Indirect(s) = self {
            Some(s)
        } else {
            None
        }
    }

    pub fn stream(&self) -> (r: Option<&Stream>)
        ensures
            r == (match *self {
                Object::Stream(s) => Some(&s),
                _ => None,
            }),
    {
        if let Object::Stream(s) = self {
            Some(s)
        } else {
            None
        }
    }

    pub fn dictionary(&self) -> (r: Option<&Dictionary>)
        ensures
            r == (match *self {
                Object::Dictionary(d) => Some(&d),
                _ => None,
            }),
    {
        if let Object::Dictionary(d) = self {
            Some(d)
        } else {
            None
        }
    }

    pub fn array(&self) -> (r: Option<&Array>)
        ensures
            r == (match *self {
                Object::Array(a) => Some(&a),
                _ => None,
            }),
    {
        if let Object::Array(a) = self {
            Some(a)
        } else {
            None
        }
    }

    pub fn integer(&self) -> (r: Option<i32>)
        ensures
            r == (match *self {
                Object::Integer(i) => Some(i),
                _ => None,
            }),
    {
        if let Object::Integer(i) = self {
            Some(*i)
        } else {
            None
        }
    }

    pub fn reference(&self) -> (r: Option<&Reference>)
        ensures
            r == (match *self {
                Object::Reference(x) => Some(&x),
                _ => None,
            }),
    {
        if let Object::Reference(r) = self {
            Some(r)
        } else {
            None
        }
    }

    pub fn hex_string(&self) -> (r: Option<&Bytes>)
        ensures
            r == (match *self {
                Object::HexString(b) => Some(&b),
                _ => None,
            }),
    {
        if let Object::HexString(b) = self {
            Some(b)
        } else {
            None
        }
    }

    /// A copy of the object and of all that it holds.
    pub fn duplicate(&self) -> (r: Self)
        ensures
            r@ == self@,
        decreases self,
    {
        proof {
            lemma_model(*self);
        }
        let r = match self {
            Object::String(s) => Object::String(CbString(slice_to_vec(s.0.as_slice()))),
            Object::HexString(b) => Object::HexString(Bytes(slice_to_vec(b.0.as_slice()))),
            Object::Float(f) => Object::Float(slice_to_vec(f.as_slice())),
            Object::Integer(i) => Object::Integer(*i),
            Object::Bool(b) => Object::Bool(*b),
            Object::Name(n) => Object::Name(n.duplicate()),
            Object::Array(a) => Object::Array(a.duplicate()),
            Object::Dictionary(d) => Object::Dictionary(d.duplicate()),
            Object::Stream(s) => Object::Stream(s.duplicate()),
            Object::Null => Object::Null,
            Object::Indirect(o) => Object::Indirect(
                IndirectObject {
                    index: o.index,
                    generation: o.generation,
                    object: Box::new(o.object.duplicate()),
                },
            ),
            Object::Reference(x) => Object::Reference(*x),
        };
        proof {
            lemma_model(r);
        }
        r
    }
}

/// The decimal digits that write `n`.
pub open spec fn digits_of(n: nat) -> Seq<u8>
    decreases n,
{
    if n < 10 {
        seq![(48 + n) as u8]
    } else {
        digits_of(n / 10).push((48 + n % 10) as u8)
    }
}

/// Writes `n` in decimal digits.
pub fn digits(n: u64) -> (r: Vec<u8>)
    ensures
        r@ == digits_of(n as nat),
    decreases n,
{
    if n < 10 {
        let mut text: Vec<u8> = Vec::new();
        text.push(48 + n as u8);
        assert(text@ =~= seq![(48 + n) as u8]);
        text
    } else {
        let mut text = digits(n / 10);
        text.push(48 + (n % 10) as u8);
        text
    }
}

/// The number `n` as an object: an integer where it fits, else a decimal
/// number written out in digits.
pub open spec fn number_value(n: usize) -> Value {
    if n <= i32::MAX {
        Value::Integer(n as i32)
    } else {
        Value::Float(digits_of(n as nat))
    }
}

/// The number `n` as an object.
pub fn number_object(n: usize) -> (r: Object)
    ensures
        r@ == number_value(n),
{
    if n <= 0x7fff_ffff {
        Object::Integer(n as i32)
    } else {
        Object::Float(digits(n as u64))
    }
}

/// The model of an object is made of the views of its parts.
pub proof fn lemma_model(o: Object)
    ensures
        o matches Object::Array(a) ==> o@ == Value::Array(a@),
        o matches Object::Dictionary(d) ==> o@ == Value::Dictionary(d@),
        o matches Object::Stream(s) ==> o@ == Value::Stream(s.dictionary@, s.data@),
        o matches Object::Indirect(i) ==> o@ == Value::Indirect(
            i.index,
            i.generation,
            Box::new(i.object@),
        ),
{
    match o {
        Object::Array(a) => {
            assert(o.model()->Array_0 =~= a@);
        },
        Object::Dictionary(d) => {
            assert(o.model()->Dictionary_0 =~= d@);
        },
        Object::Stream(s) => {
            assert(o.model()->Stream_0 =~= s.dictionary@);
        },
        _ => {},
    }
}

} // verus!
