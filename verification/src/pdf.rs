//! The document model: objects, cross-reference data, trailers and the
//! revisions that hold them.
pub mod convert;
pub mod document;
pub mod filter;
pub mod object;
pub mod stream;
pub mod trailer;
pub mod xref;

use fnv::FnvHashMap;
use fnv::FnvHasher;
use std::hash::BuildHasherDefault;
use vstd::prelude::*;
use crate::pdf::object::{Object, Reference, Value};
use crate::pdf::trailer::{Trailer, TrailerValue};
use crate::pdf::xref::{Xref, XrefEntry, XrefKind};

verus! {

/// The hasher of `fnv`, which the map of a revision's objects uses.
#[verifier::external_type_specification]
#[verifier::external_body]
pub struct ExFnvHasher(FnvHasher);

/// The builder of default hashers of `std`.
#[verifier::external_type_specification]
#[verifier::external_body]
#[verifier::reject_recursive_types(H)]
pub struct ExBuildHasherDefault<H>(BuildHasherDefault<H>);

/// Makes an empty map with `FnvHashMap::default`, which is `HashMap::default`
/// of `std` with the hasher of `fnv`: the new map holds nothing.
#[verifier::external_body]
pub(crate) fn objects_new() -> (r: FnvHashMap<usize, Object>)
    ensures
        r@.dom() == Set::<usize>::empty(),
{
    FnvHashMap::default()
}

/// Calls `HashMap::insert` of `std` on a map with the hasher of `fnv`. After
/// the call the map holds `object` under `number`, in place of what it held
/// there before, and is otherwise unchanged: the hasher hashes equal keys
/// alike, so that the map behaves as a mapping.
#[verifier::external_body]
pub(crate) fn objects_insert(objects: &mut FnvHashMap<usize, Object>, number: usize, object: Object)
    ensures
        final(objects)@ == old(objects)@.insert(number, object),
{
    objects.insert(number, object);
}

/// Calls `HashMap::get` of `std` on a map with the hasher of `fnv`: gives
/// the object that the map holds under `number`, if it holds one.
#[verifier::external_body]
pub(crate) fn objects_get(objects: &FnvHashMap<usize, Object>, number: usize) -> (r: Option<&Object>)
    ensures
        r == (if objects@.contains_key(number) {
            Some(&objects@[number])
        } else {
            None
        }),
{
    objects.get(&number)
}

/// Calls `HashMap::len` of `std`: the number of keys that the map holds.
#[verifier::external_body]
pub(crate) fn objects_len(objects: &FnvHashMap<usize, Object>) -> (r: usize)
    ensures
        r == objects@.dom().len(),
{
    objects.len()
}

/// Collects the keys that `HashMap::keys` of `std` hands out, in the order
/// in which the map is walked. That order is not determined; the numbers
/// that are handed out are exactly the keys of the map.
#[verifier::external_body]
pub(crate) fn objects_keys(objects: &FnvHashMap<usize, Object>) -> (r: Vec<usize>)
    ensures
        forall|number: usize| r@.contains(number) == objects@.contains_key(number),
{
    objects.keys().copied().collect()
}

/// The values of the objects of a map.
pub open spec fn values_by_number(objects: Map<usize, Object>) -> Map<usize, Value> {
    Map::new(|number: usize| objects.contains_key(number), |number: usize| objects[number]@)
}

/// One revision of a document: what one cross-reference section and its
/// trailer describe.
#[derive(Debug, PartialEq)]
pub struct PdfSection {
    pub(crate) offset: usize,
    pub(crate) objects: FnvHashMap<usize, Object>,
    pub(crate) trailer: Option<Trailer>,
    pub(crate) xref: Xref,
}

/// A [`PdfSection`] as a mathematical value.
pub struct SectionValue {
    /// The byte offset of the cross-reference section.
    pub offset: usize,
    /// The objects by their numbers.
    pub objects: Map<usize, Value>,
    /// The trailer, if the revision has one.
    pub trailer: Option<TrailerValue>,
    /// The entries of the cross-reference section, in the order of their
    /// object numbers.
    pub xref: Seq<XrefEntry>,
    /// The form in which the cross-reference section stands in the file.
    pub kind: Option<XrefKind>,
}

impl View for PdfSection {
    type V = SectionValue;

    open(crate) spec fn view(&self) -> SectionValue {
        SectionValue {
            offset: self.offset,
            objects: values_by_number(self.objects@),
            trailer: match self.trailer {
                Some(t) => Some(t@),
                None => None,
            },
            xref: self.xref@,
            kind: self.xref.spec_kind(),
        }
    }
}

impl PdfSection {
    /// The byte offset at which the cross-reference section of the revision
    /// stands.
    pub fn offset(&self) -> (r: usize)
        ensures
            r == self@.offset,
    {
        self.offset
    }

    /// The object of the number `num`.
    pub fn object(&self, num: usize) -> (r: Option<&Object>)
        ensures
            match r {
                Some(o) => self@.objects.contains_key(num) && self@.objects[num] == o@,
                None => !self@.objects.contains_key(num),
            },
    {
        objects_get(&self.objects, num)
    }

    /// The number of objects.
    pub fn object_count(&self) -> (r: usize)
        ensures
            r == self@.objects.dom().len(),
    {
        let r = objects_len(&self.objects);
        assert(self@.objects.dom() =~= self.objects@.dom());
        r
    }

    /// The trailer, if the revision has one.
    pub fn trailer(&self) -> (r: Option<&Trailer>)
        ensures
            match r {
                Some(t) => self@.trailer == Some(t@),
                None => self@.trailer is None,
            },
    {
        self.trailer.as_ref()
    }

    /// The cross-reference section.
    pub fn xref(&self) -> (r: &Xref)
        ensures
            r@ == self@.xref,
            r.spec_kind() == self@.kind,
    {
        &self.xref
    }
}

/// The first object of the number `number` in the revisions from `from` on.
pub open spec fn lookup(sections: Seq<SectionValue>, from: int, number: usize) -> Option<Value>
    decreases sections.len() - from,
{
    if from < 0 || from >= sections.len() {
        None
    } else if sections[from].objects.contains_key(number) {
        Some(sections[from].objects[number])
    } else {
        lookup(sections, from + 1, number)
    }
}

/// What the object `o` gives for the reference `reference`: its inner
/// object, if it is an indirect object of that number and generation.
pub open spec fn referred(o: Value, reference: Reference) -> Option<Value> {
    match o {
        Value::Indirect(index, generation, inner) => if index == reference.index && generation
            == reference.generation {
            Some(*inner)
        } else {
            None
        },
        _ => None,
    }
}

/// The object that `reference` refers to in the revisions from `from` on:
/// the inner object of the first indirect object found under the number of
/// the reference that has its generation.
pub open spec fn resolve(sections: Seq<SectionValue>, from: int, reference: Reference) -> Option<
    Value,
>
    decreases sections.len() - from,
{
    if from < 0 || from >= sections.len() {
        None
    } else if sections[from].objects.contains_key(reference.index as usize) && referred(
        sections[from].objects[reference.index as usize],
        reference,
    ) is Some {
        referred(sections[from].objects[reference.index as usize], reference)
    } else {
        resolve(sections, from + 1, reference)
    }
}

/// The views of a sequence of revisions.
pub open spec fn sections_of(sections: Seq<PdfSection>) -> Seq<SectionValue> {
    Seq::new(sections.len(), |i: int| sections[i]@)
}

/// A document as it was read: the revisions of the file, the newest first.
#[derive(Debug, PartialEq)]
pub struct RawPdf {
    pub(crate) version: (u8, u8),
    pub(crate) announced_binary: bool,
    pub(crate) sections: Vec<PdfSection>,
}

/// A [`RawPdf`] as a mathematical value.
pub struct PdfValue {
    pub version: (u8, u8),
    pub announced_binary: bool,
    pub sections: Seq<SectionValue>,
}

impl View for RawPdf {
    type V = PdfValue;

    open(crate) spec fn view(&self) -> PdfValue {
        PdfValue {
            version: self.version,
            announced_binary: self.announced_binary,
            sections: sections_of(self.sections@),
        }
    }
}

impl RawPdf {
    /// The version that the header announces, major and minor.
    pub fn version(&self) -> (r: (u8, u8))
        ensures
            r == self@.version,
    {
        self.version
    }

    /// Whether the header announces binary content.
    pub fn announced_binary(&self) -> (r: bool)
        ensures
            r == self@.announced_binary,
    {
        self.announced_binary
    }

    /// The number of revisions.
    pub fn section_count(&self) -> (r: usize)
        ensures
            r == self@.sections.len(),
    {
        self.sections.len()
    }

    /// The revision at `i`, the newest being at 0.
    pub fn section(&self, i: usize) -> (r: Option<&PdfSection>)
        ensures
            match r {
                Some(s) => i < self@.sections.len() && s@ == self@.sections[i as int],
                None => i >= self@.sections.len(),
            },
    {
        if i < self.sections.len() {
            Some(&self.sections[i])
        } else {
            None
        }
    }

    /// The object of the number `num` in the newest revision that has one.
    pub fn object(&self, num: usize) -> (r: Option<&Object>)
        ensures
            match r {
                Some(o) => lookup(self@.sections, 0, num) == Some(o@),
                None => lookup(self@.sections, 0, num) is None,
            },
    {
        let mut i: usize = 0;
        while i < self.sections.len()
            invariant
                i <= self.sections@.len(),
                lookup(self@.sections, 0, num) == lookup(self@.sections, i as int, num),
            decreases self.sections@.len() - i,
        {
            if let Some(o) = self.sections[i].object(num) {
                return Some(o);
            }
            i += 1;
        }
        None
    }

    /// The object that `reference` refers to: the revisions are gone through
    /// from the newest on, and the first indirect object of the number and
    /// the generation of the reference gives its inner object.
    pub fn dereference(&self, reference: &Reference) -> (r: Option<&Object>)
        ensures
            match r {
                Some(o) => resolve(self@.sections, 0, *reference) == Some(o@),
                None => resolve(self@.sections, 0, *reference) is None,
            },
    {
        let mut i: usize = 0;
        while i < self.sections.len()
            invariant
                i <= self.sections@.len(),
                resolve(self@.sections, 0, *reference) == resolve(
                    self@.sections,
                    i as int,
                    *reference,
                ),
            decreases self.sections@.len() - i,
        {
            if let Some(o) = self.sections[i].object(reference.index as usize) {
                proof {
                    crate::pdf::object::lemma_model(*o);
                }
                if let Object::Indirect(indirect) = o {
                    if indirect.generation == reference.generation && indirect.index
                        == reference.index {
                        return Some(&*indirect.object);
                    }
                }
            }
            i += 1;
        }
        None
    }
}

} // verus!
