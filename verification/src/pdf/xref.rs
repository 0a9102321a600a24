//! Cross-reference data: where the objects of a revision are found.
use vstd::prelude::*;

verus! {

/// The form in which a cross-reference section stands in the file.
#[derive(Debug, Clone, Copy, PartialEq, Eq)]
pub enum XrefKind {
    /// The table that follows the keyword `xref`.
    Table,
    /// A stream in the indirect object of this number and generation.
    Stream { number: u32, generation: u32 },
}

/// An object number that is free.
#[derive(Debug, Clone, Copy, PartialEq, Eq)]
pub struct FreeObject {
    /// Number of this object
    pub number: usize,
    /// Next generation number that should be used
    pub generation: usize,
    /// Next free object number
    pub next_free: usize,
}

/// An object that stands in the file on its own.
#[derive(Debug, Clone, Copy, PartialEq, Eq)]
pub struct UsedObject {
    /// Number of this object
    pub number: usize,
    /// The position of this object in the file in bytes, counted from the
    /// start of the file.
    pub byte_offset: usize,
    /// Generation of this object
    pub generation: usize,
}

/// An object that stands inside an object stream.
#[derive(Debug, Clone, Copy, PartialEq, Eq)]
pub struct UsedCompressedObject {
    /// Number of this object
    pub number: usize,
    /// The number of the stream object that contains this object
    pub containing_object: usize,
    /// Index of the object in the object stream
    pub index: usize,
}

/// An entry of a type that is none of the three that are defined. Its
/// fields are kept as they were read.
#[derive(Debug, Clone, Copy, PartialEq, Eq)]
pub struct Unsupported {
    /// Number of this object
    pub number: usize,
    /// The type of the entry
    pub type_num: usize,
    /// The second field of the entry
    pub w1: usize,
    /// The third field of the entry
    pub w2: usize,
}

/// Denotes a free object reference in a xref stream.
pub const XREF_FREE: usize = 0;

/// Denotes a used object reference in a xref stream.
pub const XREF_USED: usize = 1;

/// Denotes a used and compressed object reference in a xref stream.
pub const XREF_COMPRESSED: usize = 2;

/// One entry of a cross-reference section.
#[derive(Debug, Clone, Copy, PartialEq, Eq)]
pub enum XrefEntry {
    Free(FreeObject),
    Used(UsedObject),
    /// Object is stored in compressed stream
    UsedCompressed(UsedCompressedObject),
    /// Unsupported xref entry. Point to null object.
    Unsupported(Unsupported),
}

impl XrefEntry {
    pub open spec fn spec_type_num(&self) -> usize {
        match *self {
            XrefEntry::Free(_) => XREF_FREE,
            XrefEntry::Used(_) => XREF_USED,
            XrefEntry::UsedCompressed(_) => XREF_COMPRESSED,
            XrefEntry::Unsupported(u) => u.type_num,
        }
    }

    /// The type of the entry as a cross-reference stream writes it.
    #[verifier::when_used_as_spec(spec_type_num)]
    pub fn type_num(&self) -> (r: usize)
        ensures
            r == self.spec_type_num(),
    {
        match self {
            XrefEntry::Free(_) => XREF_FREE,
            XrefEntry::Used(_) => XREF_USED,
            XrefEntry::UsedCompressed(_) => XREF_COMPRESSED,
            XrefEntry::Unsupported(u) => u.type_num,
        }
    }

    pub open spec fn spec_number(&self) -> usize {
        match *self {
            XrefEntry::Free(o) => o.number,
            XrefEntry::Used(o) => o.number,
            XrefEntry::UsedCompressed(o) => o.number,
            XrefEntry::Unsupported(o) => o.number,
        }
    }

    /// The number of the object that the entry is about.
    #[verifier::when_used_as_spec(spec_number)]
    pub fn number(&self) -> (r: usize)
        ensures
            r == self.spec_number(),
    {
        match self {
            XrefEntry::Free(o) => o.number,
            XrefEntry::Used(o) => o.number,
            XrefEntry::UsedCompressed(o) => o.number,
            XrefEntry::Unsupported(o) => o.number,
        }
    }
}

/// `sorted` with `e` put behind the last entry whose number is not greater
/// than that of `e`.
pub open spec fn insert_by_number(sorted: Seq<XrefEntry>, e: XrefEntry) -> Seq<XrefEntry>
    decreases sorted.len(),
{
    if sorted.len() == 0 || sorted.last().number() <= e.number() {
        sorted.push(e)
    } else {
        insert_by_number(sorted.drop_last(), e).push(sorted.last())
    }
}

/// The entries of `s` in the order of their object numbers; entries of one
/// number keep the order that they have in `s`.
pub open spec fn sort_by_number(s: Seq<XrefEntry>) -> Seq<XrefEntry>
    decreases s.len(),
{
    if s.len() == 0 {
        Seq::empty()
    } else {
        insert_by_number(sort_by_number(s.drop_last()), s.last())
    }
}

/// The numbers of the entries never fall.
pub open spec fn ordered_by_number(s: Seq<XrefEntry>) -> bool {
    forall|i: int, j: int| 0 <= i <= j < s.len() ==> s[i].number() <= s[j].number()
}

/// Inserting at the place that a scan from the back finds is
/// `insert_by_number`.
pub proof fn lemma_insert_position(s: Seq<XrefEntry>, e: XrefEntry, at: int)
    requires
        0 <= at <= s.len(),
        forall|k: int| at <= k < s.len() ==> s[k].number() > e.number(),
        at > 0 ==> s[at - 1].number() <= e.number(),
    ensures
        insert_by_number(s, e) == s.insert(at, e),
    decreases s.len(),
{
    if s.len() == 0 || s.last().number() <= e.number() {
        assert(at == s.len());
        assert(s.push(e) =~= s.insert(at, e));
    } else {
        lemma_insert_position(s.drop_last(), e, at);
        assert(s.drop_last().insert(at, e).push(s.last()) =~= s.insert(at, e));
    }
}

/// Inserting into an ordered sequence gives an ordered sequence with the
/// same entries and the new one.
pub proof fn lemma_insert_by_number(s: Seq<XrefEntry>, e: XrefEntry)
    requires
        ordered_by_number(s),
    ensures
        ordered_by_number(insert_by_number(s, e)),
        insert_by_number(s, e).to_multiset() == s.to_multiset().insert(e),
        insert_by_number(s, e).len() == s.len() + 1,
    decreases s.len(),
{
    broadcast use vstd::seq_lib::group_to_multiset_ensures;

    let r = insert_by_number(s, e);
    if s.len() == 0 || s.last().number() <= e.number() {
        assert forall|i: int, j: int| 0 <= i <= j < r.len() implies r[i].number()
            <= r[j].number() by {
            if j == s.len() && i < s.len() {
                assert(s[i].number() <= s.last().number());
            }
        }
    } else {
        let front = s.drop_last();
        lemma_insert_by_number(front, e);
        let inner = insert_by_number(front, e);
        assert(s =~= front.push(s.last()));
        assert forall|i: int, j: int| 0 <= i <= j < r.len() implies r[i].number()
            <= r[j].number() by {
            if j == inner.len() && i < inner.len() {
                assert(inner.to_multiset().count(inner[i]) > 0);
                if inner[i] != e {
                    assert(front.to_multiset().count(inner[i]) > 0);
                    assert(front.contains(inner[i]));
                    let k = choose|k: int| 0 <= k < front.len() && front[k] == inner[i];
                    assert(s[k].number() <= s[s.len() - 1].number());
                }
            }
        }
        assert(r.to_multiset() =~= s.to_multiset().insert(e));
    }
}

/// Sorting gives an ordered sequence of the same entries.
pub proof fn lemma_sort_by_number(s: Seq<XrefEntry>)
    ensures
        ordered_by_number(sort_by_number(s)),
        sort_by_number(s).to_multiset() == s.to_multiset(),
        sort_by_number(s).len() == s.len(),
    decreases s.len(),
{
    broadcast use vstd::seq_lib::group_to_multiset_ensures;

    if s.len() == 0 {
        assert(s =~= Seq::empty());
    } else {
        lemma_sort_by_number(s.drop_last());
        lemma_insert_by_number(sort_by_number(s.drop_last()), s.last());
        assert(s =~= s.drop_last().push(s.last()));
    }
}

/// The entries of `s` for objects that stand in the file on their own, in
/// their order.
pub open spec fn used_of(s: Seq<XrefEntry>) -> Seq<UsedObject>
    decreases s.len(),
{
    if s.len() == 0 {
        Seq::empty()
    } else {
        match s.last() {
            XrefEntry::Used(u) => used_of(s.drop_last()).push(u),
            _ => used_of(s.drop_last()),
        }
    }
}

/// The entries of `s` for objects in object streams, in their order.
pub open spec fn compressed_of(s: Seq<XrefEntry>) -> Seq<UsedCompressedObject>
    decreases s.len(),
{
    if s.len() == 0 {
        Seq::empty()
    } else {
        match s.last() {
            XrefEntry::UsedCompressed(u) => compressed_of(s.drop_last()).push(u),
            _ => compressed_of(s.drop_last()),
        }
    }
}

/// The entries of `s` for free numbers, in their order.
pub open spec fn free_of(s: Seq<XrefEntry>) -> Seq<FreeObject>
    decreases s.len(),
{
    if s.len() == 0 {
        Seq::empty()
    } else {
        match s.last() {
            XrefEntry::Free(u) => free_of(s.drop_last()).push(u),
            _ => free_of(s.drop_last()),
        }
    }
}

/// The greatest object number among the entries of `s`, zero where there is
/// none.
pub open spec fn highest_number(s: Seq<XrefEntry>) -> usize
    decreases s.len(),
{
    if s.len() == 0 {
        0
    } else if s.last().number() > highest_number(s.drop_last()) {
        s.last().number()
    } else {
        highest_number(s.drop_last())
    }
}

/// References to objects inside a PDF section.
///
/// References in this table mark object indices either as used or unused.
/// Unused object indices may be reused for new objects. Used objects are
/// divided into two groups compressed and uncompressed objects. Uncompressed
/// objects can be immediately accessed at the given byte offset while
/// compressed objects are contained inside a stream object.
///
/// The entries are sorted by the object index.
#[derive(Debug, PartialEq, Eq)]
pub struct Xref {
    entries: Vec<XrefEntry>,
    kind: Option<XrefKind>,
}

impl View for Xref {
    type V = Seq<XrefEntry>;

    closed spec fn view(&self) -> Seq<XrefEntry> {
        self.entries@
    }
}

impl Xref {
    #[verifier::type_invariant]
    spec fn well_formed(self) -> bool {
        ordered_by_number(self.entries@)
    }

    /// The form in which the section stood in the file.
    pub closed spec fn spec_kind(self) -> Option<XrefKind> {
        self.kind
    }

    /// The cross-reference section of `entries`, sorted by object number.
    pub fn new(entries: Vec<XrefEntry>) -> (r: Self)
        ensures
            r@ == sort_by_number(entries@),
            r.spec_kind() is None,
    {
        let mut sorted: Vec<XrefEntry> = Vec::new();
        let mut i: usize = 0;
        while i < entries.len()
            invariant
                i <= entries@.len(),
                sorted@ == sort_by_number(entries@.take(i as int)),
            decreases entries@.len() - i,
        {
            let e = entries[i];
            let mut at: usize = sorted.len();
            while at > 0 && sorted[at - 1].number() > e.number()
                invariant
                    at <= sorted@.len(),
                    forall|k: int| at <= k < sorted@.len() ==> sorted@[k].number() > e.number(),
                decreases at,
            {
                at -= 1;
            }
            proof {
                lemma_insert_position(sorted@, e, at as int);
                assert(entries@.take(i + 1).drop_last() =~= entries@.take(i as int));
            }
            sorted.insert(at, e);
            i += 1;
        }
        proof {
            assert(entries@.take(entries@.len() as int) =~= entries@);
            lemma_sort_by_number(entries@);
        }
        Xref { entries: sorted, kind: None }
    }

    /// The section of `entries` that stood in the file as a table.
    pub fn new_table(entries: Vec<XrefEntry>) -> (r: Self)
        ensures
            r@ == sort_by_number(entries@),
            r.spec_kind() == Some(XrefKind::Table),
    {
        let sorted = Self::new(entries);
        proof {
            use_type_invariant(&sorted);
        }
        Xref { entries: sorted.entries, kind: Some(XrefKind::Table) }
    }

    /// The section of `entries` that stood in the file as the stream of the
    /// object `number`, `generation`.
    pub fn new_stream(entries: Vec<XrefEntry>, number: u32, generation: u32) -> (r: Self)
        ensures
            r@ == sort_by_number(entries@),
            r.spec_kind() == Some(XrefKind::Stream { number, generation }),
    {
        let sorted = Self::new(entries);
        proof {
            use_type_invariant(&sorted);
        }
        Xref { entries: sorted.entries, kind: Some(XrefKind::Stream { number, generation }) }
    }

    /// The form in which the section stood in the file.
    pub fn kind(&self) -> (r: Option<XrefKind>)
        ensures
            r == self.spec_kind(),
    {
        self.kind
    }

    /// The number of entries.
    pub fn len(&self) -> (r: usize)
        ensures
            r == self@.len(),
    {
        self.entries.len()
    }

    /// The entry at `i`.
    pub fn get(&self, i: usize) -> (r: Option<XrefEntry>)
        ensures
            r == (if i < self@.len() {
                Some(self@[i as int])
            } else {
                None
            }),
    {
        if i < self.entries.len() {
            Some(self.entries[i])
        } else {
            None
        }
    }

    /// The entries of objects that stand in the file on their own.
    pub fn used_objects(&self) -> (r: Vec<UsedObject>)
        ensures
            r@ == used_of(self@),
    {
        let mut out: Vec<UsedObject> = Vec::new();
        let mut i: usize = 0;
        while i < self.entries.len()
            invariant
                i <= self.entries@.len(),
                out@ == used_of(self.entries@.take(i as int)),
            decreases self.entries@.len() - i,
        {
            proof {
                assert(self.entries@.take(i + 1).drop_last() =~= self.entries@.take(i as int));
            }
            if let XrefEntry::Used(u) = self.entries[i] {
                out.push(u);
            }
            i += 1;
        }
        assert(self.entries@.take(self.entries@.len() as int) =~= self.entries@);
        out
    }

    /// The entries of objects that stand in object streams.
    pub fn compressed_objects(&self) -> (r: Vec<UsedCompressedObject>)
        ensures
            r@ == compressed_of(self@),
    {
        let mut out: Vec<UsedCompressedObject> = Vec::new();
        let mut i: usize = 0;
        while i < self.entries.len()
            invariant
                i <= self.entries@.len(),
                out@ == compressed_of(self.entries@.take(i as int)),
            decreases self.entries@.len() - i,
        {
            proof {
                assert(self.entries@.take(i + 1).drop_last() =~= self.entries@.take(i as int));
            }
            if let XrefEntry::UsedCompressed(u) = self.entries[i] {
                out.push(u);
            }
            i += 1;
        }
        assert(self.entries@.take(self.entries@.len() as int) =~= self.entries@);
        out
    }

    /// The entries of free object numbers.
    pub fn free_objects(&self) -> (r: Vec<FreeObject>)
        ensures
            r@ == free_of(self@),
    {
        let mut out: Vec<FreeObject> = Vec::new();
        let mut i: usize = 0;
        while i < self.entries.len()
            invariant
                i <= self.entries@.len(),
                out@ == free_of(self.entries@.take(i as int)),
            decreases self.entries@.len() - i,
        {
            proof {
                assert(self.entries@.take(i + 1).drop_last() =~= self.entries@.take(i as int));
            }
            if let XrefEntry::Free(u) = self.entries[i] {
                out.push(u);
            }
            i += 1;
        }
        assert(self.entries@.take(self.entries@.len() as int) =~= self.entries@);
        out
    }

    /// All entries, in the order of their object numbers.
    pub fn entries(&self) -> (r: Vec<XrefEntry>)
        ensures
            r@ == self@,
            ordered_by_number(r@),
    {
        proof {
            use_type_invariant(self);
        }
        let mut out: Vec<XrefEntry> = Vec::new();
        let mut i: usize = 0;
        while i < self.entries.len()
            invariant
                i <= self.entries@.len(),
                out@ == self.entries@.take(i as int),
            decreases self.entries@.len() - i,
        {
            out.push(self.entries[i]);
            assert(self.entries@.take(i + 1) =~= self.entries@.take(i as int).push(
                self.entries@[i as int],
            ));
            i += 1;
        }
        assert(self.entries@.take(self.entries@.len() as int) =~= self.entries@);
        out
    }

    /// The greatest object number that has an entry, zero where there is no
    /// entry.
    pub fn highest_index(&self) -> (r: usize)
        ensures
            r == highest_number(self@),
    {
        let mut highest: usize = 0;
        let mut i: usize = 0;
        while i < self.entries.len()
            invariant
                i <= self.entries@.len(),
                highest == highest_number(self.entries@.take(i as int)),
            decreases self.entries@.len() - i,
        {
            proof {
                assert(self.entries@.take(i + 1).drop_last() =~= self.entries@.take(i as int));
            }
            if self.entries[i].number() > highest {
                highest = self.entries[i].number();
            }
            i += 1;
        }
        assert(self.entries@.take(self.entries@.len() as int) =~= self.entries@);
        highest
    }
}

} // verus!
