//! The trailer: the typed form of the dictionary that describes a revision.
use vstd::prelude::*;
use vstd::slice::slice_to_vec;
use vstd::string::*;
use crate::parse::error::TrailerError;
use crate::parse::grammar::kw;
use crate::pdf::object::{
    dict_get, dict_insert, lemma_model, number_object, number_value, Array, Bytes, Dictionary,
    Name, Object, Reference, Value,
};

verus! {

/// What describes a revision of the document.
#[derive(Debug, PartialEq)]
pub struct Trailer {
    /// One more than the highest object number in use.
    pub size: usize,
    /// Byte offset of the cross-reference section of the previous revision.
    pub previous: Option<usize>,
    /// Reference to the root object, the catalog.
    pub root: Reference,
    /// Dictionary containing information for decryption.
    pub encrypt: Option<Dictionary>,
    /// Information for this document.
    pub info: Option<Reference>,
    /// File identifier.
    pub id: Option<(Bytes, Bytes)>,
    /// Byte offset of a cross-reference stream that goes with a table, for
    /// readers that know both.
    pub x_ref_stm: Option<usize>,
}

/// A [`Trailer`] as a mathematical value.
pub struct TrailerValue {
    pub size: usize,
    pub previous: Option<usize>,
    pub root: Reference,
    pub encrypt: Option<Seq<(Seq<u8>, Value)>>,
    pub info: Option<Reference>,
    pub id: Option<(Seq<u8>, Seq<u8>)>,
    pub x_ref_stm: Option<usize>,
}

impl View for Trailer {
    type V = TrailerValue;

    open spec fn view(&self) -> TrailerValue {
        TrailerValue {
            size: self.size,
            previous: self.previous,
            root: self.root,
            encrypt: match self.encrypt {
                Some(d) => Some(d@),
                None => None,
            },
            info: self.info,
            id: match self.id {
                Some((a, b)) => Some((a@, b@)),
                None => None,
            },
            x_ref_stm: self.x_ref_stm,
        }
    }
}

/// The entry under `key` as a number that must be there: a non-negative
/// integer.
pub open spec fn required_unsigned(
    d: Seq<(Seq<u8>, Value)>,
    key: Seq<u8>,
    missing: TrailerError,
    invalid: TrailerError,
) -> Result<usize, TrailerError> {
    match dict_get(d, key) {
        None => Err(missing),
        Some(Value::Integer(i)) => if i >= 0 {
            Ok(i as usize)
        } else {
            Err(invalid)
        },
        Some(_) => Err(invalid),
    }
}

/// The entry under `key` as a number that may be there: a non-negative
/// integer.
pub open spec fn optional_unsigned(d: Seq<(Seq<u8>, Value)>, key: Seq<u8>, invalid: TrailerError) -> Result<
    Option<usize>,
    TrailerError,
> {
    match dict_get(d, key) {
        None => Ok(None),
        Some(Value::Integer(i)) => if i >= 0 {
            Ok(Some(i as usize))
        } else {
            Err(invalid)
        },
        Some(_) => Err(invalid),
    }
}

/// The `Root` entry: a reference that must be there.
pub open spec fn spec_root(d: Seq<(Seq<u8>, Value)>) -> Result<Reference, TrailerError> {
    match dict_get(d, kw("Root")) {
        None => Err(TrailerError::MissingRoot),
        Some(Value::Reference(index, generation)) => Ok(Reference { index, generation }),
        Some(_) => Err(TrailerError::InvalidRoot),
    }
}

/// The `Encrypt` entry, where it is a dictionary.
pub open spec fn spec_encrypt(d: Seq<(Seq<u8>, Value)>) -> Option<Seq<(Seq<u8>, Value)>> {
    match dict_get(d, kw("Encrypt")) {
        Some(Value::Dictionary(e)) => Some(e),
        _ => None,
    }
}

/// The `Info` entry: a reference that may be there.
pub open spec fn spec_info(d: Seq<(Seq<u8>, Value)>) -> Result<Option<Reference>, TrailerError> {
    match dict_get(d, kw("Info")) {
        None => Ok(None),
        Some(Value::Reference(index, generation)) => Ok(Some(Reference { index, generation })),
        Some(_) => Err(TrailerError::InvalidInfo),
    }
}

/// The `ID` entry: an array of two hexadecimal strings that may be there.
pub open spec fn spec_id(d: Seq<(Seq<u8>, Value)>) -> Result<
    Option<(Seq<u8>, Seq<u8>)>,
    TrailerError,
> {
    match dict_get(d, kw("ID")) {
        None => Ok(None),
        Some(Value::Array(a)) => if a.len() == 2 && a[0] is HexString && a[1] is HexString {
            Ok(Some((a[0]->HexString_0, a[1]->HexString_0)))
        } else {
            Err(TrailerError::InvalidId)
        },
        Some(_) => Err(TrailerError::InvalidId),
    }
}

/// The trailer that the dictionary `d` describes. Of several faults the one
/// is reported that comes first in this order: `Size`, `Prev`, `Root`,
/// `Info`, `ID`, `XRefStm`.
pub open spec fn spec_trailer(d: Seq<(Seq<u8>, Value)>) -> Result<TrailerValue, TrailerError> {
    let size = required_unsigned(
        d,
        kw("Size"),
        TrailerError::MissingSize,
        TrailerError::InvalidSize,
    );
    let previous = optional_unsigned(d, kw("Prev"), TrailerError::InvalidPrevious);
    let root = spec_root(d);
    let info = spec_info(d);
    let id = spec_id(d);
    let x_ref_stm = optional_unsigned(d, kw("XRefStm"), TrailerError::InvalidXRefStm);
    if size is Err {
        Err(size->Err_0)
    } else if previous is Err {
        Err(previous->Err_0)
    } else if root is Err {
        Err(root->Err_0)
    } else if info is Err {
        Err(info->Err_0)
    } else if id is Err {
        Err(id->Err_0)
    } else if x_ref_stm is Err {
        Err(x_ref_stm->Err_0)
    } else {
        Ok(
            TrailerValue {
                size: size->Ok_0,
                previous: previous->Ok_0,
                root: root->Ok_0,
                encrypt: spec_encrypt(d),
                info: info->Ok_0,
                id: id->Ok_0,
                x_ref_stm: x_ref_stm->Ok_0,
            },
        )
    }
}

/// Reads the entry under `key` as a non-negative integer that must be
/// there.
fn get_required_unsigned(
    dict: &Dictionary,
    key: &str,
    missing: TrailerError,
    invalid: TrailerError,
) -> (r: Result<usize, TrailerError>)
    ensures
        r == required_unsigned(dict@, kw(key), missing, invalid),
{
    match dict.get(key.as_bytes()) {
        None => Err(missing),
        Some(Object::Integer(i)) => {
            if *i >= 0 {
                Ok(*i as usize)
            } else {
                Err(invalid)
            }
        },
        Some(_) => Err(invalid),
    }
}

/// Reads the entry under `key` as a non-negative integer that may be there.
fn get_optional_unsigned(dict: &Dictionary, key: &str, invalid: TrailerError) -> (r: Result<
    Option<usize>,
    TrailerError,
>)
    ensures
        r == optional_unsigned(dict@, kw(key), invalid),
{
    match dict.get(key.as_bytes()) {
        None => Ok(None),
        Some(Object::Integer(i)) => {
            if *i >= 0 {
                Ok(Some(*i as usize))
            } else {
                Err(invalid)
            }
        },
        Some(_) => Err(invalid),
    }
}

/// Reads the `Root` entry.
fn get_root(dict: &Dictionary) -> (r: Result<Reference, TrailerError>)
    ensures
        r == spec_root(dict@),
{
    match dict.get("Root".as_bytes()) {
        None => Err(TrailerError::MissingRoot),
        Some(Object::Reference(reference)) => Ok(*reference),
        Some(_) => Err(TrailerError::InvalidRoot),
    }
}

/// Reads the `Info` entry.
fn get_info(dict: &Dictionary) -> (r: Result<Option<Reference>, TrailerError>)
    ensures
        r == spec_info(dict@),
{
    match dict.get("Info".as_bytes()) {
        None => Ok(None),
        Some(Object::Reference(reference)) => Ok(Some(*reference)),
        Some(_) => Err(TrailerError::InvalidInfo),
    }
}

/// Reads the `Encrypt` entry.
fn get_encrypt(dict: &Dictionary) -> (r: Option<Dictionary>)
    ensures
        match r {
            Some(e) => spec_encrypt(dict@) == Some(e@),
            None => spec_encrypt(dict@) is None,
        },
{
    match dict.get("Encrypt".as_bytes()) {
        Some(o) => {
            proof {
                lemma_model(*o);
            }
            match o {
                Object::Dictionary(e) => Some(e.duplicate()),
                _ => None,
            }
        },
        None => None,
    }
}

/// Reads the `ID` entry.
fn get_id(dict: &Dictionary) -> (r: Result<Option<(Bytes, Bytes)>, TrailerError>)
    ensures
        match r {
            Ok(Some((a, b))) => spec_id(dict@) == Ok::<Option<(Seq<u8>, Seq<u8>)>, TrailerError>(
                Some((a@, b@)),
            ),
            Ok(None) => spec_id(dict@) == Ok::<Option<(Seq<u8>, Seq<u8>)>, TrailerError>(None),
            Err(e) => spec_id(dict@) == Err::<Option<(Seq<u8>, Seq<u8>)>, TrailerError>(e),
        },
{
    match dict.get("ID".as_bytes()) {
        None => Ok(None),
        Some(o) => {
            proof {
                lemma_model(*o);
            }
            match o {
                Object::Array(a) => {
                    if a.len() != 2 {
                        return Err(TrailerError::InvalidId);
                    }
                    match (a.get(0), a.get(1)) {
                        (Some(Object::HexString(first)), Some(Object::HexString(second))) => Ok(
                            Some(
                                (
                                    Bytes(slice_to_vec(first.as_slice())),
                                    Bytes(slice_to_vec(second.as_slice())),
                                ),
                            ),
                        ),
                        _ => Err(TrailerError::InvalidId),
                    }
                },
                _ => Err(TrailerError::InvalidId),
            }
        },
    }
}

impl Trailer {
    /// Reads a trailer from its dictionary.
    pub fn try_from(dict: &Dictionary) -> (r: Result<Trailer, TrailerError>)
        ensures
            match r {
                Ok(t) => spec_trailer(dict@) == Ok::<TrailerValue, TrailerError>(t@),
                Err(e) => spec_trailer(dict@) == Err::<TrailerValue, TrailerError>(e),
            },
    {
        let size = get_required_unsigned(
            dict,
            "Size",
            TrailerError::MissingSize,
            TrailerError::InvalidSize,
        );
        let previous = get_optional_unsigned(dict, "Prev", TrailerError::InvalidPrevious);
        let root = get_root(dict);
        let info = get_info(dict);
        let id = get_id(dict);
        let x_ref_stm = get_optional_unsigned(dict, "XRefStm", TrailerError::InvalidXRefStm);
        let size = match size {
            Ok(v) => v,
            Err(e) => {
                return Err(e);
            },
        };
        let previous = match previous {
            Ok(v) => v,
            Err(e) => {
                return Err(e);
            },
        };
        let root = match root {
            Ok(v) => v,
            Err(e) => {
                return Err(e);
            },
        };
        let info = match info {
            Ok(v) => v,
            Err(e) => {
                return Err(e);
            },
        };
        let id = match id {
            Ok(v) => v,
            Err(e) => {
                return Err(e);
            },
        };
        let x_ref_stm = match x_ref_stm {
            Ok(v) => v,
            Err(e) => {
                return Err(e);
            },
        };
        Ok(Trailer { size, previous, root, encrypt: get_encrypt(dict), info, id, x_ref_stm })
    }
}

/// The dictionary `d` with `n`, where there is one, under `key`.
pub open spec fn with_number(d: Seq<(Seq<u8>, Value)>, key: Seq<u8>, n: Option<usize>) -> Seq<
    (Seq<u8>, Value),
> {
    match n {
        Some(n) => dict_insert(d, key, number_value(n)),
        None => d,
    }
}

/// The dictionary `d` with what a trailer says of the document as a whole:
/// `Root` and, where the trailer has them, `Encrypt`, `Info` and `ID`.
pub open spec fn with_identity(d: Seq<(Seq<u8>, Value)>, t: TrailerValue) -> Seq<(Seq<u8>, Value)> {
    let rooted = dict_insert(d, kw("Root"), Value::Reference(t.root.index, t.root.generation));
    let encrypted = match t.encrypt {
        Some(e) => dict_insert(rooted, kw("Encrypt"), Value::Dictionary(e)),
        None => rooted,
    };
    let informed = match t.info {
        Some(i) => dict_insert(encrypted, kw("Info"), Value::Reference(i.index, i.generation)),
        None => encrypted,
    };
    match t.id {
        Some((a, b)) => dict_insert(
            informed,
            kw("ID"),
            Value::Array(seq![Value::HexString(a), Value::HexString(b)]),
        ),
        None => informed,
    }
}

/// The dictionary that describes the trailer `t`: `Size`, `Prev`, what
/// `with_identity` adds, and `XRefStm`.
pub open spec fn trailer_dictionary(t: TrailerValue) -> Seq<(Seq<u8>, Value)> {
    with_number(
        with_identity(
            with_number(
                dict_insert(Seq::empty(), kw("Size"), number_value(t.size)),
                kw("Prev"),
                t.previous,
            ),
            t,
        ),
        kw("XRefStm"),
        t.x_ref_stm,
    )
}

impl Trailer {
    /// Puts `Root` and, where the trailer has them, `Encrypt`, `Info` and
    /// `ID` into `dictionary`.
    pub fn add_identity(&self, dictionary: &mut Dictionary)
        ensures
            final(dictionary)@ == with_identity(old(dictionary)@, self@),
    {
        dictionary.insert(Name::from_str("Root"), Object::Reference(self.root));
        if let Some(e) = &self.encrypt {
            let o = Object::Dictionary(e.duplicate());
            proof {
                lemma_model(o);
            }
            dictionary.insert(Name::from_str("Encrypt"), o);
        }
        if let Some(i) = &self.info {
            dictionary.insert(Name::from_str("Info"), Object::Reference(*i));
        }
        if let Some((a, b)) = &self.id {
            let mut pair: Vec<Object> = Vec::new();
            pair.push(Object::HexString(Bytes(slice_to_vec(a.as_slice()))));
            pair.push(Object::HexString(Bytes(slice_to_vec(b.as_slice()))));
            let o = Object::Array(Array(pair));
            proof {
                lemma_model(o);
                assert(o@->Array_0 =~= seq![Value::HexString(a@), Value::HexString(b@)]);
            }
            dictionary.insert(Name::from_str("ID"), o);
        }
    }

    /// The dictionary that describes the trailer.
    pub fn to_dictionary(&self) -> (r: Dictionary)
        ensures
            r@ == trailer_dictionary(self@),
    {
        let mut dict = Dictionary::new();
        dict.insert(Name::from_str("Size"), number_object(self.size));
        if let Some(prev) = self.previous {
            dict.insert(Name::from_str("Prev"), number_object(prev));
        }
        self.add_identity(&mut dict);
        if let Some(offset) = self.x_ref_stm {
            dict.insert(Name::from_str("XRefStm"), number_object(offset));
        }
        dict
    }
}

} // verus!
