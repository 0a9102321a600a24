//! Parsers of cross-reference sections, in both of their forms, and of the
//! anchors at the end of the file that lead to them.
use vstd::prelude::*;
use vstd::string::*;
use crate::lex::{
    matches_at, run_end, skip_while, spec_unsigned, tag, unsigned32, unsigned64, ByteClass,
};
use crate::parse::error::{CbParseError, CbParseErrorKind, Context, ParseFault, XrefError};
use crate::parse::grammar::{advances, kw, lemma_keywords, spec_indirect};
use crate::parse::object::parse_indirect;
use crate::parse::{fails_at, follows, Span};
use crate::pdf::object::{dict_get, lemma_model, Dictionary, Object, Value};
use crate::parse::{find_last, last_match};
use crate::pdf::stream::spec_filtered;
use crate::pdf::xref::{
    sort_by_number, FreeObject, Unsupported, UsedCompressedObject, UsedObject, Xref, XrefEntry,
    XrefKind,
};

verus! {

/// One entry of a cross-reference table, for the object `number`: an offset,
/// a generation and the letter `n`, for an object in use, or `f`, for a free
/// number, each followed by optional whitespace.
pub open spec fn spec_table_entry(s: Seq<u8>, pos: int, number: usize) -> Option<(XrefEntry, int)> {
    match spec_unsigned(s, pos, usize::MAX as nat) {
        Some((offset, at1)) => {
            let at2 = run_end(s, at1, ByteClass::Space);
            match spec_unsigned(s, at2, u32::MAX as nat) {
                Some((generation, at3)) => {
                    let at4 = run_end(s, at3, ByteClass::Space);
                    if 0 <= at4 < s.len() && s[at4] == 110 {
                        Some(
                            (
                                XrefEntry::Used(
                                    UsedObject {
                                        number,
                                        byte_offset: offset as usize,
                                        generation: generation as usize,
                                    },
                                ),
                                run_end(s, at4 + 1, ByteClass::Space),
                            ),
                        )
                    } else if 0 <= at4 < s.len() && s[at4] == 102 {
                        Some(
                            (
                                XrefEntry::Free(
                                    FreeObject {
                                        number,
                                        generation: generation as usize,
                                        next_free: offset as usize,
                                    },
                                ),
                                run_end(s, at4 + 1, ByteClass::Space),
                            ),
                        )
                    } else {
                        None
                    }
                },
                None => None,
            }
        },
        None => None,
    }
}

/// The `remaining` entries of a subsection from `pos` on, for the objects
/// from `number` on, added to `acc`.
pub open spec fn spec_table_entries(
    s: Seq<u8>,
    pos: int,
    number: nat,
    remaining: nat,
    acc: Seq<XrefEntry>,
) -> Option<(Seq<XrefEntry>, int)>
    decreases remaining,
{
    if remaining == 0 {
        Some((acc, pos))
    } else if number > usize::MAX {
        None
    } else {
        match spec_table_entry(s, pos, number as usize) {
            Some((e, p)) => spec_table_entries(
                s,
                p,
                number + 1,
                (remaining - 1) as nat,
                acc.push(e),
            ),
            None => None,
        }
    }
}

/// One subsection of a cross-reference table: the number of its first
/// object, the count of its entries, and exactly that many entries.
pub open spec fn spec_subsection(s: Seq<u8>, pos: int) -> Option<(Seq<XrefEntry>, int)> {
    match spec_unsigned(s, pos, u32::MAX as nat) {
        Some((first, at1)) => {
            let at2 = run_end(s, at1, ByteClass::Space);
            match spec_unsigned(s, at2, u32::MAX as nat) {
                Some((count, at3)) => spec_table_entries(
                    s,
                    run_end(s, at3, ByteClass::Space),
                    first,
                    count,
                    Seq::empty(),
                ),
                None => None,
            }
        },
        None => None,
    }
}

/// The subsections that stand one after another from `pos` on, their
/// entries added to `acc`, and the position at which no further subsection
/// stands.
pub open spec fn spec_subsections(s: Seq<u8>, pos: int, acc: Seq<XrefEntry>) -> (
    Seq<XrefEntry>,
    int,
)
    decreases s.len() - pos,
{
    match spec_subsection(s, pos) {
        Some((entries, p)) => if advances(s, pos, p) {
            spec_subsections(s, p, acc + entries)
        } else {
            (acc, pos)
        },
        None => (acc, pos),
    }
}

/// A cross-reference table: optional whitespace, `xref`, and one or more
/// subsections. Gives the entries of all subsections in the order of their
/// object numbers.
pub open spec fn spec_xref_table(s: Seq<u8>, pos: int) -> Option<(Seq<XrefEntry>, int)> {
    let at1 = run_end(s, pos, ByteClass::Space);
    if 0 <= pos && matches_at(s, at1, kw("xref")) {
        let at2 = run_end(s, at1 + 4, ByteClass::Space);
        if spec_subsection(s, at2) is Some {
            let (entries, e) = spec_subsections(s, at2, Seq::empty());
            Some((sort_by_number(entries), e))
        } else {
            None
        }
    } else {
        None
    }
}

/// Reads one entry of a cross-reference table.
pub fn table_entry(input: &[u8], pos: usize, number: usize) -> (r: Option<(XrefEntry, usize)>)
    requires
        pos <= input.len(),
    ensures
        match r {
            Some((e, p)) => spec_table_entry(input@, pos as int, number) == Some((e, p as int))
                && pos < p <= input.len(),
            None => spec_table_entry(input@, pos as int, number) is None,
        },
{
    let (offset, at1) = match unsigned64(input, pos) {
        Some(found) => found,
        None => {
            return None;
        },
    };
    if offset > usize::MAX as u64 {
        return None;
    }
    let at2 = skip_while(input, at1, ByteClass::Space);
    let (generation, at3) = match unsigned32(input, at2) {
        Some(found) => found,
        None => {
            return None;
        },
    };
    let at4 = skip_while(input, at3, ByteClass::Space);
    if at4 < input.len() && input[at4] == 110 {
        Some(
            (
                XrefEntry::Used(
                    UsedObject {
                        number,
                        byte_offset: offset as usize,
                        generation: generation as usize,
                    },
                ),
                skip_while(input, at4 + 1, ByteClass::Space),
            ),
        )
    } else if at4 < input.len() && input[at4] == 102 {
        Some(
            (
                XrefEntry::Free(
                    FreeObject {
                        number,
                        generation: generation as usize,
                        next_free: offset as usize,
                    },
                ),
                skip_while(input, at4 + 1, ByteClass::Space),
            ),
        )
    } else {
        None
    }
}

/// Reads one subsection of a cross-reference table and adds its entries to
/// `entries`. Where no subsection stands at `pos`, `entries` is left as it
/// was.
pub fn xref_entries(input: &[u8], pos: usize, entries: &mut Vec<XrefEntry>) -> (r: Option<usize>)
    requires
        pos <= input.len(),
    ensures
        match r {
            Some(p) => spec_subsection(input@, pos as int) is Some && final(entries)@ == old(
                entries,
            )@ + spec_subsection(input@, pos as int).unwrap().0 && p == spec_subsection(
                input@,
                pos as int,
            ).unwrap().1 && pos < p <= input.len(),
            None => spec_subsection(input@, pos as int) is None && final(entries)@ == old(
                entries,
            )@,
        },
{
    let (first, at1) = match unsigned32(input, pos) {
        Some(found) => found,
        None => {
            return None;
        },
    };
    let at2 = skip_while(input, at1, ByteClass::Space);
    let (count, at3) = match unsigned32(input, at2) {
        Some(found) => found,
        None => {
            return None;
        },
    };
    let start = skip_while(input, at3, ByteClass::Space);
    let mut section: Vec<XrefEntry> = Vec::new();
    let mut p: usize = start;
    let mut i: u32 = 0;
    while i < count
        invariant
            i <= count,
            pos < start <= p <= input.len(),
            spec_subsection(input@, pos as int) == spec_table_entries(
                input@,
                p as int,
                (first + i) as nat,
                (count - i) as nat,
                section@,
            ),
        decreases count - i,
    {
        let number: u64 = first as u64 + i as u64;
        if number > usize::MAX as u64 {
            return None;
        }
        match table_entry(input, p, number as usize) {
            Some((e, next)) => {
                section.push(e);
                p = next;
            },
            None => {
                return None;
            },
        }
        i += 1;
    }
    entries.append(&mut section);
    Some(p)
}

/// Reads a cross-reference table: the keyword `xref` and one or more
/// subsections. The numbers of an entry are read as decimal numbers of any
/// count of digits.
pub fn xref_section(input: &[u8], pos: usize) -> (r: Option<(Xref, usize)>)
    requires
        pos <= input.len(),
    ensures
        match r {
            Some((xref, e)) => spec_xref_table(input@, pos as int) == Some((xref@, e as int))
                && xref.spec_kind() == Some(XrefKind::Table) && pos < e <= input.len(),
            None => spec_xref_table(input@, pos as int) is None,
        },
{
    proof {
        lemma_keywords();
    }
    let at1 = skip_while(input, pos, ByteClass::Space);
    if !tag(input, at1, "xref") {
        return None;
    }
    let start = skip_while(input, at1 + 4, ByteClass::Space);
    let mut entries: Vec<XrefEntry> = Vec::new();
    let mut p: usize = match xref_entries(input, start, &mut entries) {
        Some(next) => next,
        None => {
            return None;
        },
    };
    loop
        invariant
            pos < p <= input.len(),
            start < p,
            spec_subsection(input@, start as int) is Some,
            spec_subsections(input@, start as int, Seq::empty()) == spec_subsections(
                input@,
                p as int,
                entries@,
            ),
        ensures
            pos < p <= input.len(),
            spec_subsections(input@, start as int, Seq::empty()) == (entries@, p as int),
        decreases input.len() - p,
    {
        match xref_entries(input, p, &mut entries) {
            Some(next) => {
                p = next;
            },
            None => {
                break ;
            },
        }
    }
    Some((Xref::new_table(entries), p))
}

/// The number that the bytes `s[from..to]` write, the first byte being the
/// most significant.
pub open spec fn be_value(s: Seq<u8>, from: int, to: int) -> nat
    decreases to - from,
{
    if from >= to {
        0
    } else {
        be_value(s, from, to - 1) * 256 + s[to - 1] as nat
    }
}

/// More bytes never write a smaller number.
pub proof fn lemma_be_value_monotonic(s: Seq<u8>, from: int, mid: int, to: int)
    requires
        from <= mid <= to,
    ensures
        be_value(s, from, mid) <= be_value(s, from, to),
    decreases to - mid,
{
    if mid < to {
        lemma_be_value_monotonic(s, from, mid, to - 1);
    }
}

/// Reads the big-endian number in `input[from..to]`, if it fits.
pub fn read_be(input: &[u8], from: usize, to: usize) -> (r: Option<usize>)
    requires
        from <= to <= input.len(),
    ensures
        match r {
            Some(v) => v == be_value(input@, from as int, to as int),
            None => be_value(input@, from as int, to as int) > usize::MAX,
        },
{
    let mut value: usize = 0;
    let mut i: usize = from;
    while i < to
        invariant
            from <= i <= to <= input.len(),
            value == be_value(input@, from as int, i as int),
        decreases to - i,
    {
        let byte: usize = input[i] as usize;
        proof {
            lemma_be_value_monotonic(input@, from as int, i + 1, to as int);
            assert(be_value(input@, from as int, i + 1) == value * 256 + byte);
        }
        if value > (usize::MAX - byte) / 256 {
            assert(value * 256 + byte > usize::MAX);
            return None;
        }
        value = value * 256 + byte;
        i += 1;
    }
    Some(value)
}

/// The entry of a cross-reference stream for the object `number` whose
/// three fields hold `kind`, `second` and `third`. The first field is the
/// type: 0 is a free number, 1 an object at a byte offset, 2 an object in an
/// object stream. Any other type is kept as it is.
pub open spec fn stream_entry(number: usize, kind: usize, second: usize, third: usize) -> XrefEntry {
    if kind == 0 {
        XrefEntry::Free(FreeObject { number, generation: third, next_free: second })
    } else if kind == 1 {
        XrefEntry::Used(UsedObject { number, byte_offset: second, generation: third })
    } else if kind == 2 {
        XrefEntry::UsedCompressed(
            UsedCompressedObject { number, containing_object: second, index: third },
        )
    } else {
        XrefEntry::Unsupported(Unsupported { number, type_num: kind, w1: second, w2: third })
    }
}

/// The entries that the payload `data` of a cross-reference stream holds
/// from `pos` on, added to `acc`. Each entry is three big-endian numbers of
/// the widths `w`. The entries are numbered by `sections`, pairs of a first
/// object number and a count: `done` entries of the section `section` have
/// been read. Reading ends where the sections or the complete entries end.
/// `None` where a number does not fit.
pub open spec fn spec_stream_entries(
    data: Seq<u8>,
    pos: int,
    w: (usize, usize, usize),
    sections: Seq<(usize, usize)>,
    section: int,
    done: nat,
    acc: Seq<XrefEntry>,
) -> Option<Seq<XrefEntry>>
    decreases data.len() - pos, sections.len() - section,
{
    let width = w.0 + w.1 + w.2;
    if width == 0 || pos < 0 || section < 0 || section >= sections.len() || pos + width
        > data.len() {
        Some(acc)
    } else if done >= sections[section].1 {
        spec_stream_entries(data, pos, w, sections, section + 1, 0, acc)
    } else {
        let number = sections[section].0 + done;
        let kind = be_value(data, pos, pos + w.0);
        let second = be_value(data, pos + w.0, pos + w.0 + w.1);
        let third = be_value(data, pos + w.0 + w.1, pos + width);
        if number > usize::MAX || kind > usize::MAX || second > usize::MAX || third > usize::MAX {
            None
        } else {
            spec_stream_entries(
                data,
                pos + width,
                w,
                sections,
                section,
                done + 1,
                acc.push(
                    stream_entry(number as usize, kind as usize, second as usize, third as usize),
                ),
            )
        }
    }
}

/// The sections that number the entries of a cross-reference stream which
/// names none: all entries, counted from zero.
pub open spec fn from_zero() -> Seq<(usize, usize)> {
    seq![(0usize, usize::MAX)]
}

/// Reads the entries of a cross-reference stream from its decoded payload.
///
/// `w` - the byte length of the three numbers in each stream entry.
/// `sections` - the first object number and the count of each run of
/// entries.
pub fn xref_stream_data(w: [usize; 3], sections: &Vec<(usize, usize)>, input: &[u8]) -> (r: Option<
    Vec<XrefEntry>,
>)
    ensures
        match r {
            Some(entries) => spec_stream_entries(
                input@,
                0,
                (w[0], w[1], w[2]),
                sections@,
                0,
                0,
                Seq::empty(),
            ) == Some(entries@),
            None => spec_stream_entries(
                input@,
                0,
                (w[0], w[1], w[2]),
                sections@,
                0,
                0,
                Seq::empty(),
            ) is None,
        },
{
    let mut entries: Vec<XrefEntry> = Vec::new();
    let mut pos: usize = 0;
    let mut section: usize = 0;
    let mut done: usize = 0;
    let ghost widths = (w[0], w[1], w[2]);
    loop
        invariant
            pos <= input.len(),
            section <= sections@.len(),
            widths == (w[0], w[1], w[2]),
            spec_stream_entries(input@, 0, widths, sections@, 0, 0, Seq::empty())
                == spec_stream_entries(
                input@,
                pos as int,
                widths,
                sections@,
                section as int,
                done as nat,
                entries@,
            ),
        decreases input.len() - pos, sections@.len() - section,
    {
        let left = input.len() - pos;
        if (w[0] == 0 && w[1] == 0 && w[2] == 0) || section >= sections.len() || w[0] > left
            || w[1] > left - w[0] || w[2] > left - w[0] - w[1] {
            return Some(entries);
        }
        if done >= sections[section].1 {
            section += 1;
            done = 0;
            continue ;
        }
        let first = sections[section].0;
        if done > usize::MAX - first {
            return None;
        }
        let number = first + done;
        let kind = read_be(input, pos, pos + w[0]);
        let second = read_be(input, pos + w[0], pos + w[0] + w[1]);
        let third = read_be(input, pos + w[0] + w[1], pos + w[0] + w[1] + w[2]);
        match (kind, second, third) {
            (Some(kind), Some(second), Some(third)) => {
                let entry = if kind == 0 {
                    XrefEntry::Free(FreeObject { number, generation: third, next_free: second })
                } else if kind == 1 {
                    XrefEntry::Used(UsedObject { number, byte_offset: second, generation: third })
                } else if kind == 2 {
                    XrefEntry::UsedCompressed(
                        UsedCompressedObject { number, containing_object: second, index: third },
                    )
                } else {
                    XrefEntry::Unsupported(
                        Unsupported { number, type_num: kind, w1: second, w2: third },
                    )
                };
                entries.push(entry);
                pos = pos + w[0] + w[1] + w[2];
                done += 1;
            },
            _ => {
                return None;
            },
        }
    }
}

/// The widths of the three fields of an entry, which the `W` entry of the
/// dictionary `d` of a cross-reference stream gives: an array of three
/// non-negative integers that are not all zero.
pub open spec fn spec_widths(d: Seq<(Seq<u8>, Value)>) -> Option<(usize, usize, usize)> {
    match dict_get(d, kw("W")) {
        Some(Value::Array(a)) => {
            if a.len() == 3 && a[0] is Integer && a[1] is Integer && a[2] is Integer {
                let w0 = a[0]->Integer_0;
                let w1 = a[1]->Integer_0;
                let w2 = a[2]->Integer_0;
                if w0 >= 0 && w1 >= 0 && w2 >= 0 && w0 + w1 + w2 > 0 {
                    Some((w0 as usize, w1 as usize, w2 as usize))
                } else {
                    None
                }
            } else {
                None
            }
        },
        _ => None,
    }
}

/// The pairs of non-negative integers that the array `a` holds from `from`
/// on.
pub open spec fn index_pairs(a: Seq<Value>, from: int) -> Option<Seq<(usize, usize)>>
    decreases a.len() - from,
{
    if from < 0 || from >= a.len() {
        Some(Seq::empty())
    } else if from + 1 < a.len() && a[from] is Integer && a[from + 1] is Integer
        && a[from]->Integer_0 >= 0 && a[from + 1]->Integer_0 >= 0 {
        match index_pairs(a, from + 2) {
            Some(rest) => Some(
                seq![(a[from]->Integer_0 as usize, a[from + 1]->Integer_0 as usize)] + rest,
            ),
            None => None,
        }
    } else {
        None
    }
}

/// The sections that number the entries of a cross-reference stream with
/// the dictionary `d`: those of its `Index` entry, an array of pairs of a
/// first object number and a count; all entries counted from zero where it
/// has none.
pub open spec fn spec_sections(d: Seq<(Seq<u8>, Value)>) -> Option<Seq<(usize, usize)>> {
    match dict_get(d, kw("Index")) {
        None => Some(from_zero()),
        Some(Value::Array(a)) => index_pairs(a, 0),
        Some(_) => None,
    }
}

/// The entries of the cross-reference stream with the dictionary `d` and
/// the payload `data`, in the order of their object numbers.
pub open spec fn spec_xref_stream_entries(d: Seq<(Seq<u8>, Value)>, data: Seq<u8>) -> Result<
    Seq<XrefEntry>,
    ParseFault,
> {
    if dict_get(d, kw("Type")) != Some(Value::Name(kw("XRef"))) {
        Err(ParseFault::XrefInvalid(XrefError::StreamObject))
    } else {
        match spec_filtered(d, data) {
            Err(f) => Err(ParseFault::StreamError(f)),
            Ok(decoded) => match spec_widths(d) {
                None => Err(ParseFault::XrefInvalid(XrefError::WEntry)),
                Some(w) => match spec_sections(d) {
                    None => Err(ParseFault::XrefInvalid(XrefError::StreamObject)),
                    Some(sections) => match spec_stream_entries(
                        decoded,
                        0,
                        w,
                        sections,
                        0,
                        0,
                        Seq::empty(),
                    ) {
                        None => Err(ParseFault::XrefInvalid(XrefError::StreamContent)),
                        Some(entries) => Ok(sort_by_number(entries)),
                    },
                },
            },
        }
    }
}

/// A cross-reference stream at `pos`: an indirect object that holds a
/// stream of the type `XRef`. Gives the entries, the number and generation
/// of the object, the stream's dictionary, and the position after the
/// object.
pub open spec fn spec_xref_stream(s: Seq<u8>, pos: int) -> Result<
    (Seq<XrefEntry>, XrefKind, Seq<(Seq<u8>, Value)>, int),
    ParseFault,
> {
    match spec_indirect(s, pos) {
        Some((Value::Indirect(number, generation, inner), e)) => match *inner {
            Value::Stream(d, data) => match spec_xref_stream_entries(d, data) {
                Ok(entries) => Ok((entries, XrefKind::Stream { number, generation }, d, e)),
                Err(f) => Err(f),
            },
            _ => Err(ParseFault::XrefInvalid(XrefError::StreamObject)),
        },
        Some(_) => Err(ParseFault::XrefInvalid(XrefError::StreamObject)),
        None => Err(ParseFault::Generic(Context::Xref)),
    }
}

/// Reads the `W` entry of the dictionary of a cross-reference stream.
pub fn read_widths(dict: &Dictionary) -> (r: Option<[usize; 3]>)
    ensures
        match r {
            Some(w) => spec_widths(dict@) == Some((w[0], w[1], w[2])),
            None => spec_widths(dict@) is None,
        },
{
    match dict.get("W".as_bytes()) {
        Some(o) => {
            proof {
                lemma_model(*o);
            }
            match o {
                Object::Array(a) => {
                    if a.len() != 3 {
                        return None;
                    }
                    match (a.get(0), a.get(1), a.get(2)) {
                        (
                            Some(Object::Integer(w0)),
                            Some(Object::Integer(w1)),
                            Some(Object::Integer(w2)),
                        ) => {
                            if *w0 >= 0 && *w1 >= 0 && *w2 >= 0 && (*w0 > 0 || *w1 > 0 || *w2
                                > 0) {
                                Some([*w0 as usize, *w1 as usize, *w2 as usize])
                            } else {
                                None
                            }
                        },
                        _ => None,
                    }
                },
                _ => None,
            }
        },
        None => None,
    }
}

/// Reads the `Index` entry of the dictionary of a cross-reference stream.
pub fn read_sections(dict: &Dictionary) -> (r: Option<Vec<(usize, usize)>>)
    ensures
        match r {
            Some(sections) => spec_sections(dict@) == Some(sections@),
            None => spec_sections(dict@) is None,
        },
{
    match dict.get("Index".as_bytes()) {
        None => {
            let mut sections: Vec<(usize, usize)> = Vec::new();
            sections.push((0, usize::MAX));
            assert(sections@ =~= from_zero());
            Some(sections)
        },
        Some(o) => {
            proof {
                lemma_model(*o);
            }
            match o {
                Object::Array(a) => {
                    let mut sections: Vec<(usize, usize)> = Vec::new();
                    let mut i: usize = 0;
                    while i < a.len()
                        invariant
                            i <= a@.len() + 1,
                            spec_sections(dict@) == index_pairs(a@, 0),
                            index_pairs(a@, 0) == (match index_pairs(a@, i as int) {
                                Some(rest) => Some(sections@ + rest),
                                None => None,
                            }),
                        decreases a@.len() + 1 - i,
                    {
                        if a.len() - i < 2 {
                            return None;
                        }
                        match (a.get(i), a.get(i + 1)) {
                            (Some(Object::Integer(first)), Some(Object::Integer(count))) => {
                                if *first < 0 || *count < 0 {
                                    return None;
                                }
                                let pair = (*first as usize, *count as usize);
                                proof {
                                    let rest = index_pairs(a@, i + 2);
                                    if rest is Some {
                                        assert(sections@.push(pair) + rest->0 =~= sections@ + (
                                        seq![pair] + rest->0));
                                    }
                                }
                                sections.push(pair);
                            },
                            _ => {
                                return None;
                            },
                        }
                        i += 2;
                    }
                    assert(sections@ + Seq::<(usize, usize)>::empty() =~= sections@);
                    Some(sections)
                },
                _ => None,
            }
        },
    }
}

/// `r` is the executable form of the outcome `expected` of reading a
/// cross-reference stream.
pub open spec fn xref_stream_outcome(
    r: Result<(Xref, Dictionary, usize), CbParseErrorKind>,
    expected: Result<(Seq<XrefEntry>, XrefKind, Seq<(Seq<u8>, Value)>, int), ParseFault>,
) -> bool {
    match r {
        Ok((xref, d, e)) => expected == Ok::<
            (Seq<XrefEntry>, XrefKind, Seq<(Seq<u8>, Value)>, int),
            ParseFault,
        >((xref@, xref.spec_kind().unwrap(), d@, e as int)) && xref.spec_kind() is Some,
        Err(kind) => expected == Err::<
            (Seq<XrefEntry>, XrefKind, Seq<(Seq<u8>, Value)>, int),
            ParseFault,
        >(kind@),
    }
}

/// Reads the entries of a cross-reference stream from the stream.
pub fn xref_stream_entries(stream: &crate::pdf::object::Stream) -> (r: Result<
    Vec<XrefEntry>,
    CbParseErrorKind,
>)
    ensures
        match r {
            Ok(entries) => spec_xref_stream_entries(stream.dictionary@, stream.data@) == Ok::<
                Seq<XrefEntry>,
                ParseFault,
            >(sort_by_number(entries@)),
            Err(kind) => spec_xref_stream_entries(stream.dictionary@, stream.data@) == Err::<
                Seq<XrefEntry>,
                ParseFault,
            >(kind@),
        },
{
    let is_xref = match stream.dictionary.get("Type".as_bytes()) {
        Some(Object::Name(n)) => n.is("XRef".as_bytes()),
        _ => false,
    };
    if !is_xref {
        return Err(CbParseErrorKind::XrefInvalid(XrefError::StreamObject));
    }
    let data = match stream.filtered_data() {
        Ok(data) => data,
        Err(e) => {
            return Err(CbParseErrorKind::StreamError(e));
        },
    };
    let w = match read_widths(&stream.dictionary) {
        Some(w) => w,
        None => {
            return Err(CbParseErrorKind::XrefInvalid(XrefError::WEntry));
        },
    };
    let sections = match read_sections(&stream.dictionary) {
        Some(sections) => sections,
        None => {
            return Err(CbParseErrorKind::XrefInvalid(XrefError::StreamObject));
        },
    };
    match xref_stream_data(w, &sections, data.as_slice()) {
        Some(entries) => Ok(entries),
        None => Err(CbParseErrorKind::XrefInvalid(XrefError::StreamContent)),
    }
}

/// Reads an indirect object that holds a cross-reference stream. Gives the
/// cross-reference section, the dictionary of the stream, which stands in
/// for the trailer, and the position after the object.
pub fn xref_stream(input: &[u8], pos: usize) -> (r: Result<
    (Xref, Dictionary, usize),
    CbParseErrorKind,
>)
    requires
        pos <= input.len(),
    ensures
        xref_stream_outcome(r, spec_xref_stream(input@, pos as int)),
        r matches Ok((_, _, e)) ==> pos < e <= input.len(),
{
    let (o, e) = match parse_indirect(input, pos) {
        Some(found) => found,
        None => {
            return Err(CbParseErrorKind::Generic(Context::Xref));
        },
    };
    proof {
        lemma_model(o);
    }
    let indirect = match o {
        Object::Indirect(indirect) => indirect,
        _ => {
            return Err(CbParseErrorKind::XrefInvalid(XrefError::StreamObject));
        },
    };
    let inner: Object = *indirect.object;
    proof {
        lemma_model(inner);
    }
    let stream = match inner {
        Object::Stream(stream) => stream,
        _ => {
            return Err(CbParseErrorKind::XrefInvalid(XrefError::StreamObject));
        },
    };
    match xref_stream_entries(&stream) {
        Ok(entries) => Ok(
            (
                Xref::new_stream(entries, indirect.index, indirect.generation),
                stream.dictionary,
                e,
            ),
        ),
        Err(kind) => Err(kind),
    }
}

/// A cross-reference section at `pos`, a table where one stands, else a
/// stream. Gives the entries in the order of their object numbers, the form
/// of the section, the dictionary of the stream where it is one, and the
/// position after the section.
pub open spec fn spec_xref(s: Seq<u8>, pos: int) -> Result<
    (Seq<XrefEntry>, XrefKind, Option<Seq<(Seq<u8>, Value)>>, int),
    ParseFault,
> {
    match spec_xref_table(s, pos) {
        Some((entries, e)) => Ok((entries, XrefKind::Table, None, e)),
        None => match spec_xref_stream(s, pos) {
            Ok((entries, kind, d, e)) => Ok((entries, kind, Some(d), e)),
            Err(f) => Err(f),
        },
    }
}

/// The dictionary that came with a cross-reference section, as a value.
pub open spec fn dictionary_of(d: Option<Dictionary>) -> Option<Seq<(Seq<u8>, Value)>> {
    match d {
        Some(d) => Some(d@),
        None => None,
    }
}

/// `r` is the executable form of the outcome `expected` of reading a
/// cross-reference section.
pub open spec fn xref_outcome(
    r: Result<(Xref, Option<Dictionary>, usize), CbParseErrorKind>,
    expected: Result<(Seq<XrefEntry>, XrefKind, Option<Seq<(Seq<u8>, Value)>>, int), ParseFault>,
) -> bool {
    match r {
        Ok((xref, d, e)) => expected == Ok::<
            (Seq<XrefEntry>, XrefKind, Option<Seq<(Seq<u8>, Value)>>, int),
            ParseFault,
        >((xref@, xref.spec_kind().unwrap(), dictionary_of(d), e as int))
            && xref.spec_kind() is Some,
        Err(kind) => expected == Err::<
            (Seq<XrefEntry>, XrefKind, Option<Seq<(Seq<u8>, Value)>>, int),
            ParseFault,
        >(kind@),
    }
}

/// Reads a cross-reference section at `pos`, in either form.
pub fn parse_xref(input: &[u8], pos: usize) -> (r: Result<
    (Xref, Option<Dictionary>, usize),
    CbParseErrorKind,
>)
    requires
        pos <= input.len(),
    ensures
        xref_outcome(r, spec_xref(input@, pos as int)),
        r matches Ok((_, _, e)) ==> pos < e <= input.len(),
{
    match xref_section(input, pos) {
        Some((xref, e)) => Ok((xref, None, e)),
        None => match xref_stream(input, pos) {
            Ok((xref, d, e)) => Ok((xref, Some(d), e)),
            Err(kind) => Err(kind),
        },
    }
}

/// Parse either a xref stream or xref table.
pub fn xref(input: Span) -> (r: Result<(Span, Xref), CbParseError>)
    ensures
        match r {
            Ok((rest, x)) => {
                let expected = spec_xref(input@, 0);
                &&& expected is Ok
                &&& x@ == (expected->Ok_0).0
                &&& x.spec_kind() == Some((expected->Ok_0).1)
                &&& follows(input, rest, (expected->Ok_0).3)
            },
            Err(e) => spec_xref(input@, 0) is Err && e.kind@ == spec_xref(input@, 0)->Err_0
                && e.position == input.offset() && e.revision is None,
        },
{
    match parse_xref(input.fragment(), 0) {
        Ok((x, _, e)) => Ok((input.advance(e), x)),
        Err(kind) => Err(CbParseError::new(input.location_offset(), kind)),
    }
}

/// The end-of-file marker: `%%EOF`, in any case, among the last nine
/// positions of `s`, which leaves room for four bytes after it. Gives the
/// position of the marker.
pub open spec fn spec_eof_marker(s: Seq<u8>) -> Option<int> {
    last_match(s, kw("%%EOF"), true, 9)
}

/// Parse the End-Of-File marker and removes it from the end of the input.
pub fn eof_marker_tail(input: Span) -> (r: Result<(Span, ()), CbParseError>)
    ensures
        match r {
            Ok((rest, _)) => spec_eof_marker(input@) is Some && rest@ == input@.take(
                spec_eof_marker(input@).unwrap(),
            ) && rest.offset() == input.offset(),
            Err(e) => spec_eof_marker(input@) is None && fails_at(
                e,
                input,
                CbParseErrorKind::BackwardSearchNotFound,
            ),
        },
{
    match find_last(input.fragment(), 9, "%%EOF".as_bytes(), true) {
        Some(p) => Ok((input.truncate(p), ())),
        None => Err(
            CbParseError::new(input.location_offset(), CbParseErrorKind::BackwardSearchNotFound),
        ),
    }
}

/// The pointer to the last cross-reference section: `startxref`, in any
/// case, among the last 2057 positions of `s`, optional whitespace, and a
/// decimal number that fits. Gives the position of the keyword and the
/// number.
pub open spec fn spec_startxref(s: Seq<u8>) -> Result<(int, usize), ParseFault> {
    match last_match(s, kw("startxref"), true, 2057) {
        None => Err(ParseFault::BackwardSearchNotFound),
        Some(p) => match spec_unsigned(
            s,
            run_end(s, p + 9, ByteClass::Space),
            usize::MAX as nat,
        ) {
            Some((offset, _)) => Ok((p, offset as usize)),
            None => Err(ParseFault::StartxrefInvalid),
        },
    }
}

/// Find and returns the position of the xref table/stream by searching for
/// `startxref <number>` from the end of the input and parsing the number that
/// follows.
pub fn startxref_tail(input: Span) -> (r: Result<(Span, usize), CbParseError>)
    ensures
        match r {
            Ok((rest, offset)) => {
                let expected = spec_startxref(input@);
                &&& expected is Ok
                &&& offset == (expected->Ok_0).1
                &&& rest@ == input@.take((expected->Ok_0).0)
                &&& rest.offset() == input.offset()
            },
            Err(e) => spec_startxref(input@) is Err && e.kind@ == spec_startxref(input@)->Err_0
                && e.position == input.offset() && e.revision is None,
        },
{
    proof {
        lemma_keywords();
    }
    let bytes = input.fragment();
    let p = match find_last(bytes, 2057, "startxref".as_bytes(), true) {
        Some(p) => p,
        None => {
            return Err(
                CbParseError::new(
                    input.location_offset(),
                    CbParseErrorKind::BackwardSearchNotFound,
                ),
            );
        },
    };
    let digits = skip_while(bytes, p + 9, ByteClass::Space);
    match unsigned64(bytes, digits) {
        Some((offset, _)) => {
            if offset <= usize::MAX as u64 {
                Ok((input.truncate(p), offset as usize))
            } else {
                Err(
                    CbParseError::new(input.location_offset(), CbParseErrorKind::StartxrefInvalid),
                )
            }
        },
        None => Err(CbParseError::new(input.location_offset(), CbParseErrorKind::StartxrefInvalid)),
    }
}

} // verus!
