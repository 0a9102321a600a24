//! How cross-reference data and a whole document are written.
use vstd::prelude::*;
use vstd::string::*;
use crate::lex::LF;
use crate::parse::grammar::kw;
use crate::pdf::object::{
    dict_insert, lemma_model, number_object, number_value, values_of, Array, Bytes, Dictionary,
    IndirectObject, Name, Object, Stream, Value,
};
use crate::pdf::trailer::{trailer_dictionary, with_identity, Trailer, TrailerValue};
use crate::pdf::xref::{highest_number, UsedObject, XrefEntry, XrefKind};
use crate::pdf::{lookup, objects_keys, PdfValue, RawPdf, SectionValue};
use crate::simple_encode::object::{value_text, write_keyword, write_value};
use crate::simple_encode::text::{unsigned_digits, unsigned_text};
use crate::writer::{saturated, Writer};

verus! {

/// The three fields that a cross-reference stream holds for an entry: the
/// type, and the two fields whose meaning depends on it.
pub open spec fn entry_fields(e: XrefEntry) -> (usize, usize, usize) {
    match e {
        XrefEntry::Free(f) => (0, f.next_free, f.generation),
        XrefEntry::Used(u) => (1, u.byte_offset, u.generation),
        XrefEntry::UsedCompressed(c) => (2, c.containing_object, c.index),
        XrefEntry::Unsupported(x) => (x.type_num, x.w1, x.w2),
    }
}

/// The three fields that a cross-reference stream holds for `entry`.
pub fn xref_to_tuple(entry: &XrefEntry) -> (r: (usize, usize, usize))
    ensures
        r == entry_fields(*entry),
{
    let xref_type = entry.type_num();
    match entry {
        XrefEntry::Free(entry) => (xref_type, entry.next_free, entry.generation),
        XrefEntry::Used(entry) => (xref_type, entry.byte_offset, entry.generation),
        XrefEntry::UsedCompressed(entry) => (xref_type, entry.containing_object, entry.index),
        XrefEntry::Unsupported(unsup) => (xref_type, unsup.w1, unsup.w2),
    }
}

/// The last `width` bytes of `v` written with the most significant byte
/// first.
pub open spec fn be_bytes(v: nat, width: nat) -> Seq<u8>
    decreases width,
{
    if width == 0 {
        Seq::empty()
    } else {
        be_bytes(v / 256, (width - 1) as nat).push((v % 256) as u8)
    }
}

/// The width that is used for a field for which `w` is asked: at most the
/// eight bytes that hold any number here.
pub open spec fn capped(w: usize) -> nat {
    if w > 8 {
        8
    } else {
        w as nat
    }
}

/// The bytes of an entry of a cross-reference stream with fields of the
/// widths `w`.
pub open spec fn entry_data(e: XrefEntry, w: (usize, usize, usize)) -> Seq<u8> {
    be_bytes(entry_fields(e).0 as nat, capped(w.0)) + be_bytes(
        entry_fields(e).1 as nat,
        capped(w.1),
    ) + be_bytes(entry_fields(e).2 as nat, capped(w.2))
}

/// Writes the last `width` bytes of `v`, the most significant first.
fn be_digits(v: usize, width: usize) -> (r: Vec<u8>)
    requires
        width <= 8,
    ensures
        r@ == be_bytes(v as nat, width as nat),
    decreases width,
{
    if width == 0 {
        Vec::new()
    } else {
        let mut bytes = be_digits(v / 256, width - 1);
        bytes.push((v % 256) as u8);
        bytes
    }
}

/// Appends the three fields of `entry` to `buffer`, each in as many bytes
/// as `w_length` says, and in at most eight.
pub fn encode_xref_entry(w_length: [usize; 3], entry: &XrefEntry, buffer: &mut Vec<u8>)
    ensures
        final(buffer)@ == old(buffer)@ + entry_data(
            *entry,
            (w_length[0], w_length[1], w_length[2]),
        ),
{
    let (w1, w2, w3) = xref_to_tuple(entry);
    let mut first = be_digits(w1, if w_length[0] > 8 { 8 } else { w_length[0] });
    let mut second = be_digits(w2, if w_length[1] > 8 { 8 } else { w_length[1] });
    let mut third = be_digits(w3, if w_length[2] > 8 { 8 } else { w_length[2] });
    let ghost start = buffer@;
    buffer.append(&mut first);
    buffer.append(&mut second);
    buffer.append(&mut third);
    assert(buffer@ =~= start + entry_data(*entry, (w_length[0], w_length[1], w_length[2])));
}

/// The count of bytes that it takes to write `v`: at least one.
pub open spec fn bytes_needed(v: nat) -> nat
    decreases v,
{
    if v < 256 {
        1
    } else {
        1 + bytes_needed(v / 256)
    }
}

/// The count of bytes that it takes to write `v`.
pub fn width_of(v: usize) -> (r: usize)
    ensures
        r == bytes_needed(v as nat),
        1 <= r <= 8,
{
    let wide: u64 = v as u64;
    proof {
        reveal_with_fuel(bytes_needed, 9);
    }
    if wide < 0x100 {
        1
    } else if wide < 0x1_0000 {
        2
    } else if wide < 0x100_0000 {
        3
    } else if wide < 0x1_0000_0000 {
        4
    } else if wide < 0x100_0000_0000 {
        5
    } else if wide < 0x1_0000_0000_0000 {
        6
    } else if wide < 0x100_0000_0000_0000 {
        7
    } else {
        8
    }
}

/// The widths of the three fields that hold the fields of all of
/// `entries[..upto]`: for each field, what its greatest value takes, and at
/// least one byte.
pub open spec fn field_widths(entries: Seq<XrefEntry>, upto: int) -> (usize, usize, usize)
    decreases upto,
{
    if upto <= 0 || upto > entries.len() {
        (1, 1, 1)
    } else {
        let w = field_widths(entries, upto - 1);
        let f = entry_fields(entries[upto - 1]);
        (
            if bytes_needed(f.0 as nat) > w.0 && bytes_needed(f.0 as nat) <= 8 {
                bytes_needed(f.0 as nat) as usize
            } else {
                w.0
            },
            if bytes_needed(f.1 as nat) > w.1 && bytes_needed(f.1 as nat) <= 8 {
                bytes_needed(f.1 as nat) as usize
            } else {
                w.1
            },
            if bytes_needed(f.2 as nat) > w.2 && bytes_needed(f.2 as nat) <= 8 {
                bytes_needed(f.2 as nat) as usize
            } else {
                w.2
            },
        )
    }
}

/// The payload of the cross-reference stream for `entries[from..]` with
/// fields of the widths `w`.
pub open spec fn entries_data(entries: Seq<XrefEntry>, from: int, w: (usize, usize, usize)) -> Seq<
    u8,
>
    decreases entries.len() - from,
{
    if from < 0 || from >= entries.len() {
        Seq::empty()
    } else {
        entry_data(entries[from], w) + entries_data(entries, from + 1, w)
    }
}

/// The `Index` array for `entries[from..]`: for each entry its object
/// number and the count one.
pub open spec fn index_value(entries: Seq<XrefEntry>, from: int) -> Seq<Value>
    decreases entries.len() - from,
{
    if from < 0 || from >= entries.len() {
        Seq::empty()
    } else {
        seq![number_value(entries[from].number()), Value::Integer(1)] + index_value(
            entries,
            from + 1,
        )
    }
}

/// One more than `n`, as far as a `usize` can hold it.
pub open spec fn successor(n: usize) -> usize {
    if n < usize::MAX {
        (n + 1) as usize
    } else {
        n
    }
}

/// The number and the generation of the indirect object that holds the
/// cross-reference stream: those that it had in the file, else the number
/// after the greatest of the entries.
pub open spec fn xref_identity(entries: Seq<XrefEntry>, kind: Option<XrefKind>) -> (u32, u32) {
    match kind {
        Some(XrefKind::Stream { number, generation }) => (number, generation),
        _ => (
            if successor(highest_number(entries)) <= u32::MAX {
                successor(highest_number(entries)) as u32
            } else {
                u32::MAX
            },
            0,
        ),
    }
}

/// The indirect object that holds the cross-reference stream for
/// `entries`, with a dictionary that holds `dictionary` and, after it, what
/// describes the stream.
pub open spec fn xref_object(
    entries: Seq<XrefEntry>,
    kind: Option<XrefKind>,
    dictionary: Seq<(Seq<u8>, Value)>,
) -> Value {
    Value::Indirect(
        xref_identity(entries, kind).0,
        xref_identity(entries, kind).1,
        Box::new(
            Value::Stream(
                dictionary,
                entries_data(entries, 0, field_widths(entries, entries.len() as int)),
            ),
        ),
    )
}

/// How a cross-reference section is written: as a stream in an indirect
/// object, followed by a line feed. The dictionary of the stream holds its
/// type, the size, which is one more than the greatest object number, the
/// widths of the fields, and the numbers of the objects.
pub open spec fn xref_text(entries: Seq<XrefEntry>, kind: Option<XrefKind>) -> Seq<u8> {
    value_text(xref_object(entries, kind, with_xref_entries(Seq::empty(), entries))) + seq![LF]
}

/// Finds the widths of the fields for `entries`.
pub fn widths_for(entries: &Vec<XrefEntry>) -> (r: [usize; 3])
    ensures
        (r[0], r[1], r[2]) == field_widths(entries@, entries@.len() as int),
        1 <= r[0] <= 8,
        1 <= r[1] <= 8,
        1 <= r[2] <= 8,
{
    let mut w0: usize = 1;
    let mut w1: usize = 1;
    let mut w2: usize = 1;
    let mut i: usize = 0;
    while i < entries.len()
        invariant
            i <= entries@.len(),
            (w0, w1, w2) == field_widths(entries@, i as int),
            1 <= w0 <= 8,
            1 <= w1 <= 8,
            1 <= w2 <= 8,
        decreases entries@.len() - i,
    {
        let (f0, f1, f2) = xref_to_tuple(&entries[i]);
        let n0 = width_of(f0);
        let n1 = width_of(f1);
        let n2 = width_of(f2);
        if n0 > w0 {
            w0 = n0;
        }
        if n1 > w1 {
            w1 = n1;
        }
        if n2 > w2 {
            w2 = n2;
        }
        i += 1;
    }
    [w0, w1, w2]
}

/// Builds the payload of the cross-reference stream for `entries`.
pub fn data_for(entries: &Vec<XrefEntry>, w: [usize; 3]) -> (r: Vec<u8>)
    ensures
        r@ == entries_data(entries@, 0, (w[0], w[1], w[2])),
{
    let mut data: Vec<u8> = Vec::new();
    let mut i: usize = 0;
    assert(entries_data(entries@, 0, (w[0], w[1], w[2])) == data@ + entries_data(
        entries@,
        0,
        (w[0], w[1], w[2]),
    ));
    while i < entries.len()
        invariant
            i <= entries@.len(),
            entries_data(entries@, 0, (w[0], w[1], w[2])) == data@ + entries_data(
                entries@,
                i as int,
                (w[0], w[1], w[2]),
            ),
        decreases entries@.len() - i,
    {
        let ghost before = data@;
        encode_xref_entry(w, &entries[i], &mut data);
        assert(data@ + entries_data(entries@, i + 1, (w[0], w[1], w[2])) =~= before + (entry_data(
            entries@[i as int],
            (w[0], w[1], w[2]),
        ) + entries_data(entries@, i + 1, (w[0], w[1], w[2]))));
        i += 1;
    }
    assert(data@ + Seq::<u8>::empty() =~= data@);
    data
}

/// Builds the `Index` array for `entries`.
pub fn index_for(entries: &Vec<XrefEntry>) -> (r: Array)
    ensures
        r@ == index_value(entries@, 0),
{
    let mut items: Vec<Object> = Vec::new();
    let mut i: usize = 0;
    assert(index_value(entries@, 0) == values_of(items@) + index_value(entries@, 0));
    while i < entries.len()
        invariant
            i <= entries@.len(),
            index_value(entries@, 0) == values_of(items@) + index_value(entries@, i as int),
        decreases entries@.len() - i,
    {
        let ghost before = items@;
        let number = number_object(entries[i].number());
        items.push(number);
        items.push(Object::Integer(1));
        assert(values_of(items@) + index_value(entries@, i + 1) =~= values_of(before) + (seq![
            number_value(entries@[i as int].number()),
            Value::Integer(1),
        ] + index_value(entries@, i + 1)));
        i += 1;
    }
    assert(values_of(items@) + Seq::<Value>::empty() =~= values_of(items@));
    Array(items)
}

/// Puts what describes the cross-reference stream for `entries` into
/// `dictionary`: `Type`, `Size`, `W` and `Index`.
pub fn describe_xref(dictionary: &mut Dictionary, entries: &Vec<XrefEntry>, highest: usize, w: [
    usize;
    3
])
    requires
        highest == highest_number(entries@),
        (w[0], w[1], w[2]) == field_widths(entries@, entries@.len() as int),
        1 <= w[0] <= 8,
        1 <= w[1] <= 8,
        1 <= w[2] <= 8,
    ensures
        final(dictionary)@ == with_xref_entries(old(dictionary)@, entries@),
{
    let size = if highest < usize::MAX {
        highest + 1
    } else {
        highest
    };
    let mut widths: Vec<Object> = Vec::new();
    widths.push(Object::Integer(w[0] as i32));
    widths.push(Object::Integer(w[1] as i32));
    widths.push(Object::Integer(w[2] as i32));
    let widths = Object::Array(Array(widths));
    let index = Object::Array(index_for(entries));
    let kind_name = Object::Name(Name::from_str("XRef"));
    proof {
        lemma_model(widths);
        lemma_model(index);
        assert(widths@->Array_0 =~= seq![
            Value::Integer(w[0] as i32),
            Value::Integer(w[1] as i32),
            Value::Integer(w[2] as i32),
        ]);
    }
    dictionary.insert(Name::from_str("Type"), kind_name);
    dictionary.insert(Name::from_str("Size"), number_object(size));
    dictionary.insert(Name::from_str("W"), widths);
    dictionary.insert(Name::from_str("Index"), index);
}

/// The dictionary `d` with what describes the cross-reference stream for
/// `entries` put in.
pub open spec fn with_xref_entries(d: Seq<(Seq<u8>, Value)>, entries: Seq<XrefEntry>) -> Seq<
    (Seq<u8>, Value),
> {
    let w = field_widths(entries, entries.len() as int);
    dict_insert(
        dict_insert(
            dict_insert(
                dict_insert(d, kw("Type"), Value::Name(kw("XRef"))),
                kw("Size"),
                number_value(successor(highest_number(entries))),
            ),
            kw("W"),
            Value::Array(
                seq![
                    Value::Integer(w.0 as i32),
                    Value::Integer(w.1 as i32),
                    Value::Integer(w.2 as i32),
                ],
            ),
        ),
        kw("Index"),
        Value::Array(index_value(entries, 0)),
    )
}

/// Writes the cross-reference stream for `entries` as the indirect object
/// that `kind` names, with a dictionary that holds `dictionary` and what
/// describes the stream.
pub fn write_xref_object<W: Writer>(
    entries: &Vec<XrefEntry>,
    kind: Option<XrefKind>,
    dictionary: Dictionary,
    writer: &mut W,
)
    ensures
        final(writer).written() == old(writer).written() + value_text(
            xref_object(entries@, kind, with_xref_entries(dictionary@, entries@)),
        ) + seq![LF],
{
    let ghost start = writer.written();
    let mut highest: usize = 0;
    let mut i: usize = 0;
    while i < entries.len()
        invariant
            i <= entries@.len(),
            highest == highest_number(entries@.take(i as int)),
        decreases entries@.len() - i,
    {
        proof {
            assert(entries@.take(i + 1).drop_last() =~= entries@.take(i as int));
        }
        if entries[i].number() > highest {
            highest = entries[i].number();
        }
        i += 1;
    }
    assert(entries@.take(entries@.len() as int) =~= entries@);
    let w = widths_for(entries);
    let data = data_for(entries, w);
    let mut described = dictionary;
    describe_xref(&mut described, entries, highest, w);
    let (index, generation) = match kind {
        Some(XrefKind::Stream { number, generation }) => (number, generation),
        _ => {
            let next: usize = if highest < usize::MAX {
                highest + 1
            } else {
                highest
            };
            if next as u64 <= 0xffff_ffff {
                (next as u32, 0)
            } else {
                (0xffff_ffff, 0)
            }
        },
    };
    let stream = Object::Stream(Stream { dictionary: described, data: Bytes(data) });
    proof {
        lemma_model(stream);
    }
    let o = Object::Indirect(IndirectObject { index, generation, object: Box::new(stream) });
    proof {
        lemma_model(o);
    }
    write_value(&o, writer);
    crate::simple_encode::object::write_byte(writer, LF);
}

/// How a trailer is written: the keyword on a line of its own, and the
/// dictionary.
pub open spec fn trailer_text(t: TrailerValue) -> Seq<u8> {
    kw("trailer\n") + value_text(Value::Dictionary(trailer_dictionary(t))) + seq![LF]
}

/// Writes a trailer.
pub fn write_trailer<W: Writer>(trailer: &Trailer, writer: &mut W)
    ensures
        final(writer).written() == old(writer).written() + trailer_text(trailer@),
{
    let ghost start = writer.written();
    let dictionary = trailer.to_dictionary();
    write_keyword(writer, "trailer\n");
    crate::simple_encode::object::write_dictionary(&dictionary, writer);
    crate::simple_encode::object::write_byte(writer, LF);
    assert(writer.written() =~= start + trailer_text(trailer@));
}

/// The numbers of `keys` rise strictly.
pub open spec fn increasing(keys: Seq<usize>) -> bool {
    forall|i: int, j: int| 0 <= i < j < keys.len() ==> keys[i] < keys[j]
}

/// `keys` lists the numbers of `domain`, each once, in rising order.
pub open spec fn is_listing(keys: Seq<usize>, domain: Set<usize>) -> bool {
    increasing(keys) && forall|k: usize| keys.contains(k) == domain.contains(k)
}

/// The numbers of `domain` in rising order.
pub open spec fn listing(domain: Set<usize>) -> Seq<usize> {
    choose|keys: Seq<usize>| is_listing(keys, domain)
}

/// There is only one way to list the numbers of a set in rising order.
pub proof fn lemma_listing_unique(a: Seq<usize>, b: Seq<usize>, domain: Set<usize>)
    requires
        is_listing(a, domain),
        is_listing(b, domain),
    ensures
        a == b,
    decreases a.len(),
{
    if a.len() == 0 {
        if b.len() > 0 {
            assert(b.contains(b[0]));
            assert(a.contains(b[0]));
        }
        assert(a =~= b);
    } else {
        assert(a.contains(a.last()));
        assert(b.contains(a.last()));
        assert(b.len() > 0);
        assert(b.contains(b.last()));
        assert(a.contains(b.last()));
        let i = choose|i: int| 0 <= i < a.len() && a[i] == b.last();
        let j = choose|j: int| 0 <= j < b.len() && b[j] == a.last();
        assert(a.last() == b.last());
        let rest = domain.remove(a.last());
        assert forall|k: usize| a.drop_last().contains(k) == rest.contains(k) by {
            if a.drop_last().contains(k) {
                let x = choose|x: int| 0 <= x < a.drop_last().len() && a.drop_last()[x] == k;
                assert(a[x] == k);
                assert(a.contains(k));
            }
            if rest.contains(k) {
                assert(a.contains(k));
                let x = choose|x: int| 0 <= x < a.len() && a[x] == k;
                assert(a.drop_last()[x] == k);
            }
        }
        assert forall|k: usize| b.drop_last().contains(k) == rest.contains(k) by {
            if b.drop_last().contains(k) {
                let x = choose|x: int| 0 <= x < b.drop_last().len() && b.drop_last()[x] == k;
                assert(b[x] == k);
                assert(b.contains(k));
            }
            if rest.contains(k) {
                assert(b.contains(k));
                let x = choose|x: int| 0 <= x < b.len() && b[x] == k;
                assert(b.drop_last()[x] == k);
            }
        }
        lemma_listing_unique(a.drop_last(), b.drop_last(), rest);
        assert(a =~= a.drop_last().push(a.last()));
        assert(b =~= b.drop_last().push(b.last()));
    }
}

/// The numbers of `v` never fall.
pub open spec fn nondecreasing(v: Seq<usize>) -> bool {
    forall|i: int, j: int| 0 <= i <= j < v.len() ==> v[i] <= v[j]
}

/// Calls `sort_unstable` of `std` on the numbers: afterwards they stand in
/// rising order, and they are the same numbers, each as often as before.
#[verifier::external_body]
pub(crate) fn sort_numbers(numbers: &mut Vec<usize>)
    ensures
        final(numbers)@.to_multiset() == old(numbers)@.to_multiset(),
        nondecreasing(final(numbers)@),
{
    numbers.sort_unstable();
}

/// Keeps one of each number of the sorted `numbers`.
pub fn without_repeats(numbers: &Vec<usize>) -> (r: Vec<usize>)
    requires
        nondecreasing(numbers@),
    ensures
        increasing(r@),
        forall|k: usize| r@.contains(k) == numbers@.contains(k),
{
    let mut keys: Vec<usize> = Vec::new();
    let mut i: usize = 0;
    while i < numbers.len()
        invariant
            i <= numbers@.len(),
            nondecreasing(numbers@),
            increasing(keys@),
            keys@.len() <= i,
            i > 0 ==> keys@.len() > 0 && keys@.last() == numbers@[i - 1],
            forall|k: usize| keys@.contains(k) == numbers@.take(i as int).contains(k),
        decreases numbers@.len() - i,
    {
        let n = numbers[i];
        let ghost before = keys@;
        let ghost seen = numbers@.take(i as int);
        let ghost next = numbers@.take(i + 1);
        let fresh = i == 0 || numbers[i - 1] != n;
        if fresh {
            keys.push(n);
            assert forall|a: int, b: int| 0 <= a < b < keys@.len() implies keys@[a] < keys@[b] by {
                if b == before.len() {
                    assert(before.contains(before[a]));
                    let x = choose|x: int| 0 <= x < seen.len() && #[trigger] seen[x] == before[a];
                    assert(numbers@[x] <= numbers@[i - 1]);
                    assert(before[a] <= before.last());
                }
            }
        }
        assert forall|k: usize| keys@.contains(k) == next.contains(k) by {
            if keys@.contains(k) {
                let x = choose|x: int| 0 <= x < keys@.len() && keys@[x] == k;
                if x < before.len() {
                    assert(before.contains(k));
                    let y = choose|y: int| 0 <= y < seen.len() && #[trigger] seen[y] == k;
                    assert(next[y] == k);
                } else {
                    assert(next[i as int] == k);
                }
            }
            if next.contains(k) {
                let y = choose|y: int| 0 <= y < next.len() && #[trigger] next[y] == k;
                if y < i {
                    assert(seen[y] == k);
                    assert(seen.contains(k));
                    assert(before.contains(k));
                    let x = choose|x: int| 0 <= x < before.len() && before[x] == k;
                    assert(keys@[x] == k);
                } else if fresh {
                    assert(keys@[before.len() as int] == k);
                } else {
                    assert(keys@[keys@.len() - 1] == k);
                }
            }
        }
        i += 1;
    }
    assert(numbers@.take(numbers@.len() as int) =~= numbers@);
    keys
}

/// The first lines of a document that is written: the version, and a
/// comment that announces binary content.
pub open spec fn header_text() -> Seq<u8> {
    kw("%PDF-1.7\n") + seq![37u8, 191u8, 191u8, 191u8, 191u8, 10u8]
}

/// The object number `n` as the number of an indirect object.
pub open spec fn number32(n: usize) -> u32 {
    if n <= u32::MAX {
        n as u32
    } else {
        u32::MAX
    }
}

/// How the object `v` that is stored under `number` is written: an
/// indirect object as it is, any other as the indirect object of that
/// number and the generation zero; and a line feed.
pub open spec fn stored_text(number: usize, v: Value) -> Seq<u8> {
    match v {
        Value::Indirect(_, _, _) => value_text(v) + seq![LF],
        _ => value_text(Value::Indirect(number32(number), 0, Box::new(v))) + seq![LF],
    }
}

/// The generation under which the stored object `v` is written.
pub open spec fn stored_generation(v: Value) -> usize {
    match v {
        Value::Indirect(_, generation, _) => generation as usize,
        _ => 0,
    }
}

/// The objects of all revisions together: under each number the object of
/// the newest revision that has one.
pub open spec fn merged(sections: Seq<SectionValue>) -> Map<usize, Value> {
    Map::new(
        |number: usize| lookup(sections, 0, number) is Some,
        |number: usize| lookup(sections, 0, number)->0,
    )
}

/// How the objects under `keys[from..]` are written, one after another.
pub open spec fn body_text(objects: Map<usize, Value>, keys: Seq<usize>, from: int) -> Seq<u8>
    decreases keys.len() - from,
{
    if from < 0 || from >= keys.len() {
        Seq::empty()
    } else {
        stored_text(keys[from], objects[keys[from]]) + body_text(objects, keys, from + 1)
    }
}

/// The cross-reference entries of the objects under `keys[from..]`, the
/// first of which is written at `position`.
pub open spec fn body_entries(
    objects: Map<usize, Value>,
    keys: Seq<usize>,
    from: int,
    position: nat,
) -> Seq<XrefEntry>
    decreases keys.len() - from,
{
    if from < 0 || from >= keys.len() {
        Seq::empty()
    } else {
        seq![
            XrefEntry::Used(
                UsedObject {
                    number: keys[from],
                    byte_offset: saturated(position),
                    generation: stored_generation(objects[keys[from]]),
                },
            ),
        ] + body_entries(
            objects,
            keys,
            from + 1,
            position + stored_text(keys[from], objects[keys[from]]).len(),
        )
    }
}

/// What the trailer of the newest revision says of the document as a
/// whole, as the entries of a dictionary.
pub open spec fn identity_dictionary(sections: Seq<SectionValue>) -> Seq<(Seq<u8>, Value)> {
    if sections.len() > 0 && sections[0].trailer is Some {
        with_identity(Seq::empty(), sections[0].trailer->0)
    } else {
        Seq::empty()
    }
}

/// How a document is written: the header; all objects in the order of their
/// numbers, of each number the newest; one cross-reference stream for them,
/// whose dictionary also holds what the newest trailer says of the
/// document; `startxref` with the offset of that stream; and `%%EOF`.
pub open spec fn document_text(pdf: PdfValue) -> Seq<u8> {
    let objects = merged(pdf.sections);
    let keys = listing(objects.dom());
    let body = header_text() + body_text(objects, keys, 0);
    let entries = body_entries(objects, keys, 0, header_text().len());
    body + value_text(
        xref_object(
            entries,
            None,
            with_xref_entries(identity_dictionary(pdf.sections), entries),
        ),
    ) + seq![LF] + kw("startxref\n") + unsigned_text(body.len()) + kw("\n%%EOF\n")
}

/// An object is found in the revisions from `from` on exactly if one of
/// them has it.
pub proof fn lemma_lookup(sections: Seq<SectionValue>, from: int, number: usize)
    requires
        0 <= from,
    ensures
        lookup(sections, from, number) is Some <==> exists|i: int|
            from <= i < sections.len() && (#[trigger] sections[i]).objects.contains_key(number),
    decreases sections.len() - from,
{
    if from < sections.len() {
        if sections[from].objects.contains_key(number) {
        } else {
            lemma_lookup(sections, from + 1, number);
        }
    }
}

/// Lists the numbers of all objects of the document in rising order.
pub fn all_numbers(pdf: &RawPdf) -> (r: Vec<usize>)
    ensures
        is_listing(r@, merged(pdf@.sections).dom()),
{
    broadcast use vstd::seq_lib::group_to_multiset_ensures;

    let mut collected: Vec<usize> = Vec::new();
    let mut i: usize = 0;
    while i < pdf.sections.len()
        invariant
            i <= pdf.sections@.len(),
            forall|k: usize|
                collected@.contains(k) <==> exists|j: int|
                    0 <= j < i && (#[trigger] pdf@.sections[j]).objects.contains_key(k),
        decreases pdf.sections@.len() - i,
    {
        let mut keys = objects_keys(&pdf.sections[i].objects);
        let ghost before = collected@;
        let ghost added = keys@;
        collected.append(&mut keys);
        assert forall|k: usize|
            collected@.contains(k) <==> exists|j: int|
                0 <= j < i + 1 && (#[trigger] pdf@.sections[j]).objects.contains_key(k) by {
            if collected@.contains(k) {
                let x = choose|x: int| 0 <= x < collected@.len() && collected@[x] == k;
                if x < before.len() {
                    assert(before[x] == k);
                    assert(before.contains(k));
                } else {
                    assert(added[x - before.len()] == k);
                    assert(added.contains(k));
                    assert(pdf@.sections[i as int].objects.contains_key(k));
                }
            }
            if exists|j: int|
                0 <= j < i + 1 && (#[trigger] pdf@.sections[j]).objects.contains_key(k) {
                let j = choose|j: int|
                    0 <= j < i + 1 && (#[trigger] pdf@.sections[j]).objects.contains_key(k);
                if j < i {
                    assert(before.contains(k));
                    let x = choose|x: int| 0 <= x < before.len() && before[x] == k;
                    assert(collected@[x] == k);
                } else {
                    assert(added.contains(k));
                    let x = choose|x: int| 0 <= x < added.len() && added[x] == k;
                    assert(collected@[before.len() + x] == k);
                }
            }
        }
        i += 1;
    }
    let ghost unsorted = collected@;
    sort_numbers(&mut collected);
    let keys = without_repeats(&collected);
    proof {
        assert forall|k: usize| keys@.contains(k) == merged(pdf@.sections).dom().contains(k) by {
            lemma_lookup(pdf@.sections, 0, k);
            assert(collected@.contains(k) <==> collected@.to_multiset().count(k) > 0);
            assert(unsorted.contains(k) <==> unsorted.to_multiset().count(k) > 0);
        }
    }
    keys
}

/// Writes the object `o` that is stored under `number`.
pub fn write_stored<W: Writer>(number: usize, o: &Object, writer: &mut W)
    ensures
        final(writer).written() == old(writer).written() + stored_text(number, o@),
{
    proof {
        lemma_model(*o);
    }
    let ghost start = writer.written();
    match o {
        Object::Indirect(_) => {
            write_value(o, writer);
            crate::simple_encode::object::write_byte(writer, LF);
            assert(writer.written() =~= start + stored_text(number, o@));
        },
        _ => {
            let index: u32 = if number as u64 <= 0xffff_ffff {
                number as u32
            } else {
                0xffff_ffff
            };
            writer.write(unsigned_digits(index as u64).as_slice());
            crate::simple_encode::object::write_byte(writer, 32);
            writer.write(unsigned_digits(0).as_slice());
            write_keyword(writer, " obj\n");
            write_value(o, writer);
            crate::simple_encode::object::write_byte(writer, LF);
            write_keyword(writer, "endobj\n");
            crate::simple_encode::object::write_byte(writer, LF);
            assert(writer.written() =~= start + stored_text(number, o@));
        },
    }
}

/// Writes a document.
pub fn encode_document(pdf: &RawPdf) -> (r: Vec<u8>)
    ensures
        r@ == document_text(pdf@),
{
    let mut out: Vec<u8> = Vec::new();
    write_keyword(&mut out, "%PDF-1.7\n");
    let marker: [u8; 6] = [37, 191, 191, 191, 191, 10];
    out.write(marker.as_slice());
    assert(out@ =~= header_text()) by {
        assert(marker@ =~= seq![37u8, 191u8, 191u8, 191u8, 191u8, 10u8]);
    }
    let keys = all_numbers(pdf);
    let ghost objects = merged(pdf@.sections);
    proof {
        let chosen = listing(objects.dom());
        assert(is_listing(chosen, objects.dom()));
        lemma_listing_unique(keys@, chosen, objects.dom());
    }
    let mut entries: Vec<XrefEntry> = Vec::new();
    let mut i: usize = 0;
    assert(body_entries(objects, keys@, 0, header_text().len()) =~= entries@ + body_entries(
        objects,
        keys@,
        0,
        header_text().len(),
    ));
    assert(header_text() + body_text(objects, keys@, 0) =~= out@ + body_text(objects, keys@, 0));
    while i < keys.len()
        invariant
            i <= keys@.len(),
            objects == merged(pdf@.sections),
            is_listing(keys@, objects.dom()),
            header_text() + body_text(objects, keys@, 0) == out@ + body_text(
                objects,
                keys@,
                i as int,
            ),
            body_entries(objects, keys@, 0, header_text().len()) == entries@ + body_entries(
                objects,
                keys@,
                i as int,
                out@.len(),
            ),
        decreases keys@.len() - i,
    {
        let number = keys[i];
        let ghost before = out@;
        let ghost listed = entries@;
        assert(keys@.contains(number));
        match pdf.object(number) {
            Some(o) => {
                proof {
                    lemma_model(*o);
                }
                let generation: usize = match o {
                    Object::Indirect(indirect) => indirect.generation as usize,
                    _ => 0,
                };
                let entry = XrefEntry::Used(
                    UsedObject { number, byte_offset: out.len(), generation },
                );
                entries.push(entry);
                write_stored(number, o, &mut out);
                assert(out@ + body_text(objects, keys@, i + 1) =~= before + (stored_text(
                    number,
                    objects[number],
                ) + body_text(objects, keys@, i + 1)));
                assert(entries@ + body_entries(objects, keys@, i + 1, out@.len()) =~= listed + (
                seq![entry] + body_entries(
                    objects,
                    keys@,
                    i + 1,
                    before.len() + stored_text(number, objects[number]).len(),
                )));
            },
            None => {
                assert(false);
            },
        }
        i += 1;
    }
    assert(out@ + Seq::<u8>::empty() =~= out@);
    assert(entries@ + Seq::<XrefEntry>::empty() =~= entries@);
    let ghost body = out@;
    let offset = out.len();
    let mut dictionary = Dictionary::new();
    if pdf.sections.len() > 0 {
        if let Some(t) = &pdf.sections[0].trailer {
            t.add_identity(&mut dictionary);
        }
    }
    write_xref_object(&entries, None, dictionary, &mut out);
    write_keyword(&mut out, "startxref\n");
    out.write(unsigned_digits(offset as u64).as_slice());
    write_keyword(&mut out, "\n%%EOF\n");
    assert(out@ =~= document_text(pdf@));
    out
}

} // verus!
