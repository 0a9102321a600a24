//! The first steps into a document: its catalog and its tree of pages.
use vstd::prelude::*;
use vstd::string::*;
use crate::parse::grammar::kw;
use crate::pdf::object::{
    dict_get, lemma_model, Array, Dictionary, Name, Object, Reference, Value,
};
use crate::pdf::{resolve, PdfValue, RawPdf, SectionValue};

verus! {

/// Why a document has no catalog that can be used.
#[derive(Debug, Clone, Copy, PartialEq, Eq)]
pub enum CatalogError {
    /// The catalog has no tree of pages.
    MissingPages,
    /// The document has no revision with a trailer.
    MissingTrailer,
    /// What the trailer names as root is no dictionary.
    InvalidRoot,
}

/// Why a dictionary is no node of the tree of pages.
#[derive(Debug, Clone, Copy, PartialEq, Eq)]
pub enum PagesError {
    MissingKids,
    InvalidKids,
    MissingCount,
    InvalidCount,
}

/// The catalog of a document.
pub struct Catalog<'a> {
    raw_pdf: &'a RawPdf,
    version: Option<&'a Name>,
    pages: &'a Dictionary,
    pages_label: Option<&'a Dictionary>,
    names: Option<&'a Dictionary>,
}

/// A [`Catalog`] as a mathematical value.
pub struct CatalogValue {
    pub version: Option<Seq<u8>>,
    pub pages: Seq<(Seq<u8>, Value)>,
    pub pages_label: Option<Seq<(Seq<u8>, Value)>>,
    pub names: Option<Seq<(Seq<u8>, Value)>>,
}

impl<'a> View for Catalog<'a> {
    type V = CatalogValue;

    closed spec fn view(&self) -> CatalogValue {
        CatalogValue {
            version: match self.version {
                Some(n) => Some(n@),
                None => None,
            },
            pages: self.pages@,
            pages_label: match self.pages_label {
                Some(d) => Some(d@),
                None => None,
            },
            names: match self.names {
                Some(d) => Some(d@),
                None => None,
            },
        }
    }
}

/// The value `v` itself, or what it refers to in `sections` where it is a
/// reference.
pub open spec fn followed(sections: Seq<SectionValue>, v: Value) -> Option<Value> {
    match v {
        Value::Reference(index, generation) => resolve(
            sections,
            0,
            Reference { index, generation },
        ),
        _ => Some(v),
    }
}

/// The entry of `d` under `key`, where it is a dictionary.
pub open spec fn dictionary_entry(d: Seq<(Seq<u8>, Value)>, key: Seq<u8>) -> Option<
    Seq<(Seq<u8>, Value)>,
> {
    match dict_get(d, key) {
        Some(Value::Dictionary(e)) => Some(e),
        _ => None,
    }
}

/// The catalog that the dictionary `d` describes. Its `Pages` entry, or
/// what that refers to, must be a dictionary.
pub open spec fn spec_catalog(sections: Seq<SectionValue>, d: Seq<(Seq<u8>, Value)>) -> Result<
    CatalogValue,
    CatalogError,
> {
    let pages = match dict_get(d, kw("Pages")) {
        Some(v) => followed(sections, v),
        None => None,
    };
    match pages {
        Some(Value::Dictionary(p)) => Ok(
            CatalogValue {
                version: match dict_get(d, kw("Version")) {
                    Some(Value::Name(n)) => Some(n),
                    _ => None,
                },
                pages: p,
                pages_label: dictionary_entry(d, kw("PagesLabel")),
                names: dictionary_entry(d, kw("Name")),
            },
        ),
        _ => Err(CatalogError::MissingPages),
    }
}

/// The catalog of the document: the trailer of the newest revision names
/// it as root.
pub open spec fn spec_document_catalog(pdf: PdfValue) -> Result<CatalogValue, CatalogError> {
    if pdf.sections.len() == 0 || pdf.sections[0].trailer is None {
        Err(CatalogError::MissingTrailer)
    } else {
        match resolve(pdf.sections, 0, pdf.sections[0].trailer->0.root) {
            Some(Value::Dictionary(d)) => spec_catalog(pdf.sections, d),
            _ => Err(CatalogError::InvalidRoot),
        }
    }
}

/// Follows `o` where it is a reference.
fn follow<'a>(raw_pdf: &'a RawPdf, o: &'a Object) -> (r: Option<&'a Object>)
    ensures
        match r {
            Some(found) => followed(raw_pdf@.sections, o@) == Some(found@),
            None => followed(raw_pdf@.sections, o@) is None,
        },
{
    match o {
        Object::Reference(reference) => raw_pdf.dereference(reference),
        other => Some(other),
    }
}

/// The entry of `dict` under `key`, where it is a dictionary.
fn get_dictionary<'a>(dict: &'a Dictionary, key: &str) -> (r: Option<&'a Dictionary>)
    ensures
        match r {
            Some(d) => dictionary_entry(dict@, kw(key)) == Some(d@),
            None => dictionary_entry(dict@, kw(key)) is None,
        },
{
    match dict.get(key.as_bytes()) {
        Some(o) => {
            proof {
                lemma_model(*o);
            }
            match o {
                Object::Dictionary(d) => Some(d),
                _ => None,
            }
        },
        None => None,
    }
}

impl<'a> Catalog<'a> {
    /// Reads the catalog of `raw_pdf` from its dictionary.
    pub fn new_with(raw_pdf: &'a RawPdf, dict: &'a Dictionary) -> (r: Result<Self, CatalogError>)
        ensures
            match r {
                Ok(c) => spec_catalog(raw_pdf@.sections, dict@) == Ok::<
                    CatalogValue,
                    CatalogError,
                >(c@),
                Err(e) => spec_catalog(raw_pdf@.sections, dict@) == Err::<
                    CatalogValue,
                    CatalogError,
                >(e),
            },
    {
        let pages = match dict.get("Pages".as_bytes()) {
            Some(o) => follow(raw_pdf, o),
            None => None,
        };
        let pages = match pages {
            Some(o) => {
                proof {
                    lemma_model(*o);
                }
                match o {
                    Object::Dictionary(p) => p,
                    _ => {
                        return Err(CatalogError::MissingPages);
                    },
                }
            },
            None => {
                return Err(CatalogError::MissingPages);
            },
        };
        let version = match dict.get("Version".as_bytes()) {
            Some(Object::Name(n)) => Some(n),
            _ => None,
        };
        Ok(
            Catalog {
                raw_pdf,
                version,
                pages,
                pages_label: get_dictionary(dict, "PagesLabel"),
                names: get_dictionary(dict, "Name"),
            },
        )
    }

    /// The version that the catalog names.
    pub fn version(&self) -> (r: Option<&'a Name>)
        ensures
            match r {
                Some(n) => self@.version == Some(n@),
                None => self@.version is None,
            },
    {
        self.version
    }

    /// The root of the tree of pages.
    pub fn pages(&self) -> (r: &'a Dictionary)
        ensures
            r@ == self@.pages,
    {
        self.pages
    }
}

impl RawPdf {
    /// The catalog of the document.
    pub fn catalog(&self) -> (r: Result<Catalog<'_>, CatalogError>)
        ensures
            match r {
                Ok(c) => spec_document_catalog(self@) == Ok::<CatalogValue, CatalogError>(c@),
                Err(e) => spec_document_catalog(self@) == Err::<CatalogValue, CatalogError>(e),
            },
    {
        if self.sections.len() == 0 {
            return Err(CatalogError::MissingTrailer);
        }
        let root = match &self.sections[0].trailer {
            Some(t) => &t.root,
            None => {
                return Err(CatalogError::MissingTrailer);
            },
        };
        match self.dereference(root) {
            Some(o) => {
                proof {
                    lemma_model(*o);
                }
                match o {
                    Object::Dictionary(d) => Catalog::new_with(self, d),
                    _ => Err(CatalogError::InvalidRoot),
                }
            },
            None => Err(CatalogError::InvalidRoot),
        }
    }
}

/// A node of the tree of pages.
pub struct Pages<'a> {
    /// The nodes and pages below this node, as references.
    kids: &'a Array,
    /// Number of leafs.
    count: usize,
}

/// The node of the tree of pages that the dictionary `d` describes: the
/// array of its kids, given directly or by reference, and the count of the
/// pages below it, which is not less than the number of the kids.
pub open spec fn spec_pages(sections: Seq<SectionValue>, d: Seq<(Seq<u8>, Value)>) -> Result<
    (Seq<Value>, usize),
    PagesError,
> {
    match dict_get(d, kw("Kids")) {
        None => Err(PagesError::MissingKids),
        Some(k) => {
            let kids = match k {
                Value::Array(a) => Some(a),
                Value::Reference(index, generation) => match resolve(
                    sections,
                    0,
                    Reference { index, generation },
                ) {
                    Some(Value::Array(a)) => Some(a),
                    _ => None,
                },
                _ => None,
            };
            match kids {
                None => Err(PagesError::InvalidKids),
                Some(a) => match dict_get(d, kw("Count")) {
                    None => Err(PagesError::MissingCount),
                    Some(Value::Integer(c)) => if c >= 0 && c >= a.len() {
                        Ok((a, c as usize))
                    } else {
                        Err(PagesError::InvalidCount)
                    },
                    Some(_) => Err(PagesError::InvalidCount),
                },
            }
        },
    }
}

impl<'a> Pages<'a> {
    /// The kids of the node.
    pub closed spec fn spec_kids(self) -> Seq<Value> {
        self.kids@
    }

    /// The count of the pages below the node.
    pub closed spec fn spec_count(self) -> usize {
        self.count
    }

    /// Reads a node of the tree of pages of `raw_pdf` from its dictionary.
    pub fn new_with(raw_pdf: &'a RawPdf, dict: &'a Dictionary) -> (r: Result<Self, PagesError>)
        ensures
            match r {
                Ok(p) => spec_pages(raw_pdf@.sections, dict@) == Ok::<
                    (Seq<Value>, usize),
                    PagesError,
                >((p.spec_kids(), p.spec_count())),
                Err(e) => spec_pages(raw_pdf@.sections, dict@) == Err::<
                    (Seq<Value>, usize),
                    PagesError,
                >(e),
            },
    {
        let kids = match dict.get("Kids".as_bytes()) {
            None => {
                return Err(PagesError::MissingKids);
            },
            Some(k) => {
                proof {
                    lemma_model(*k);
                }
                match k {
                    Object::Array(a) => a,
                    Object::Reference(reference) => match raw_pdf.dereference(reference) {
                        Some(o) => {
                            proof {
                                lemma_model(*o);
                            }
                            match o {
                                Object::Array(a) => a,
                                _ => {
                                    return Err(PagesError::InvalidKids);
                                },
                            }
                        },
                        None => {
                            return Err(PagesError::InvalidKids);
                        },
                    },
                    _ => {
                        return Err(PagesError::InvalidKids);
                    },
                }
            },
        };
        match dict.get("Count".as_bytes()) {
            None => Err(PagesError::MissingCount),
            Some(Object::Integer(c)) => {
                if *c >= 0 && *c as usize >= kids.len() {
                    Ok(Pages { kids, count: *c as usize })
                } else {
                    Err(PagesError::InvalidCount)
                }
            },
            Some(_) => Err(PagesError::InvalidCount),
        }
    }

    /// The kids of the node.
    pub fn kids(&self) -> (r: &'a Array)
        ensures
            r@ == self.spec_kids(),
    {
        self.kids
    }

    /// The count of the pages below the node.
    pub fn count(&self) -> (r: usize)
        ensures
            r == self.spec_count(),
    {
        self.count
    }
}

} // verus!
