//! The filter chain of a stream.
use vstd::prelude::*;
use vstd::slice::slice_to_vec;
use vstd::string::*;
use crate::parse::error::{FilterError, FilterFault};
use crate::parse::grammar::kw;
use crate::pdf::filter::{filter, filter_outcome, spec_filter};
use crate::pdf::object::{dict_get, lemma_model, Bytes, Dictionary, Name, Object, Stream, Value};

verus! {

/// Every element of `a` is a name.
pub open spec fn all_names(a: Seq<Value>) -> bool {
    forall|i: int| 0 <= i < a.len() ==> (#[trigger] a[i]) is Name
}

/// The names of the filters that the dictionary `d` of a stream asks for, in
/// the order in which they are to be applied: none where it has no `Filter`
/// entry, one where the entry is a name, those of the array where it is an
/// array of names.
pub open spec fn filter_names(d: Seq<(Seq<u8>, Value)>) -> Result<Seq<Seq<u8>>, FilterFault> {
    match dict_get(d, kw("Filter")) {
        None => Ok(Seq::empty()),
        Some(Value::Name(n)) => Ok(seq![n]),
        Some(Value::Array(a)) => if all_names(a) {
            Ok(Seq::new(a.len(), |i: int| a[i]->Name_0))
        } else {
            Err(FilterFault::InvalidFilter)
        },
        Some(_) => Err(FilterFault::InvalidFilter),
    }
}

/// `data` after the filters `names[from..]` were applied one after another.
/// The first filter that fails ends the chain with its error.
pub open spec fn apply_filters(names: Seq<Seq<u8>>, from: int, data: Seq<u8>) -> Result<
    Seq<u8>,
    FilterFault,
>
    decreases names.len() - from,
{
    if from < 0 || from >= names.len() {
        Ok(data)
    } else {
        match spec_filter(names[from], data) {
            Ok(out) => apply_filters(names, from + 1, out),
            Err(e) => Err(e),
        }
    }
}

/// The payload `data` of a stream with the dictionary `d`, decoded.
pub open spec fn spec_filtered(d: Seq<(Seq<u8>, Value)>, data: Seq<u8>) -> Result<
    Seq<u8>,
    FilterFault,
> {
    match filter_names(d) {
        Ok(names) => apply_filters(names, 0, data),
        Err(e) => Err(e),
    }
}

/// A stream that names no filter decodes to its payload as it is.
pub proof fn lemma_identity_chain(d: Seq<(Seq<u8>, Value)>, data: Seq<u8>)
    requires
        dict_get(d, kw("Filter")) is None,
    ensures
        spec_filtered(d, data) == Ok::<Seq<u8>, FilterFault>(data),
{
}

/// The views of a sequence of names.
pub open spec fn names_of(names: Seq<&Name>) -> Seq<Seq<u8>> {
    Seq::new(names.len(), |i: int| names[i]@)
}

impl Stream {
    /// The names of the filters that the stream's payload went through, in
    /// the order in which they are undone.
    pub fn filters(&self) -> (r: Result<Vec<&Name>, FilterError>)
        ensures
            match r {
                Ok(names) => filter_names(self.dictionary@) == Ok::<Seq<Seq<u8>>, FilterFault>(
                    names_of(names@),
                ),
                Err(e) => filter_names(self.dictionary@) == Err::<Seq<Seq<u8>>, FilterFault>(e@),
            },
    {
        match self.dictionary.get("Filter".as_bytes()) {
            None => {
                let names: Vec<&Name> = Vec::new();
                assert(names_of(names@) =~= Seq::<Seq<u8>>::empty());
                Ok(names)
            },
            Some(o) => {
                proof {
                    lemma_model(*o);
                }
                match o {
                    Object::Name(n) => {
                        let mut names: Vec<&Name> = Vec::new();
                        names.push(n);
                        assert(names_of(names@) =~= seq![n@]);
                        Ok(names)
                    },
                    Object::Array(a) => {
                        let mut names: Vec<&Name> = Vec::new();
                        let mut i: usize = 0;
                        while i < a.len()
                            invariant
                                i <= a@.len(),
                                names@.len() == i,
                                dict_get(self.dictionary@, kw("Filter")) == Some(
                                    Value::Array(a@),
                                ),
                                forall|k: int| 0 <= k < i ==> (#[trigger] a@[k]) is Name,
                                forall|k: int|
                                    0 <= k < i ==> (#[trigger] names@[k])@ == a@[k]->Name_0,
                            decreases a@.len() - i,
                        {
                            match a.get(i) {
                                Some(Object::Name(n)) => {
                                    names.push(n);
                                },
                                _ => {
                                    assert(!(a@[i as int] is Name));
                                    return Err(FilterError::InvalidFilter);
                                },
                            }
                            i += 1;
                        }
                        assert(names_of(names@) =~= Seq::new(a@.len(), |i: int| a@[i]->Name_0));
                        Ok(names)
                    },
                    _ => Err(FilterError::InvalidFilter),
                }
            },
        }
    }

    /// The payload with the stream's filters undone.
    pub fn filtered_data(&self) -> (r: Result<Bytes, FilterError>)
        ensures
            filter_outcome(r, spec_filtered(self.dictionary@, self.data@)),
    {
        let names = match self.filters() {
            Ok(names) => names,
            Err(e) => {
                return Err(e);
            },
        };
        let parameters = match self.dictionary.get("DecodeParms".as_bytes()) {
            Some(Object::Dictionary(d)) => Some(d),
            _ => None,
        };
        let mut out_data = Bytes(slice_to_vec(self.data.as_slice()));
        let mut i: usize = 0;
        while i < names.len()
            invariant
                i <= names@.len(),
                filter_names(self.dictionary@) == Ok::<Seq<Seq<u8>>, FilterFault>(
                    names_of(names@),
                ),
                spec_filtered(self.dictionary@, self.data@) == apply_filters(
                    names_of(names@),
                    i as int,
                    out_data@,
                ),
            decreases names@.len() - i,
        {
            out_data = match filter(names[i], parameters, &out_data) {
                Ok(next) => next,
                Err(e) => {
                    return Err(e);
                },
            };
            i += 1;
        }
        Ok(out_data)
    }
}

} // verus!
