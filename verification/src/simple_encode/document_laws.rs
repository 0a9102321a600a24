//! A document that is written is read back: laws that relate the encoder
//! of whole documents to the parser.
use vstd::prelude::*;
use vstd::string::*;
use crate::lex::{matches_at, matches_at_no_case, ByteClass, LF};
use crate::parse::assemble::spec_start;
use crate::parse::error::ParseFault;
use crate::parse::grammar::{after_line_end, kw};
use crate::parse::xref::spec_eof_marker;
use crate::parse::{
    announces_binary, found_at, last_match, lemma_search_back, spec_comment, spec_header,
    spec_version,
};
use crate::pdf::object::digits_of;
use crate::simple_encode::laws::{lemma_digits, lemma_run_over, lemma_unsigned_reads_back};
use crate::simple_encode::round_trip::{lemma_byte, lemma_split};
use crate::parse::xref::{be_value, index_pairs, spec_stream_entries, stream_entry};
use crate::pdf::object::{
    dict_get, dict_insert, distinct_keys, lemma_dict_find, number_value, Value,
};
use crate::pdf::trailer::{with_identity, TrailerValue};
use crate::parse::xref::{spec_sections, spec_widths, spec_xref_stream_entries};
use crate::pdf::object::Reference;
use crate::pdf::stream::lemma_identity_chain;
use crate::pdf::trailer::spec_trailer;
use crate::pdf::xref::{highest_number, ordered_by_number, sort_by_number};
use crate::parse::error::TrailerError;
use crate::simple_encode::section::{successor, with_xref_entries};
use crate::pdf::xref::{UsedObject, XrefEntry};
use crate::simple_encode::section::{
    be_bytes, bytes_needed, capped, entries_data, entry_data, entry_fields, field_widths,
    header_text, index_value,
};
use crate::parse::grammar::skip_noise;
use crate::parse::xref::{spec_xref, spec_xref_table};
use crate::pdf::xref::XrefKind;
use crate::simple_encode::object::{
    entries_text, separator, stream_dictionary_text, value_text, SPACE,
};
use crate::simple_encode::round_trip::{
    lemma_indirect_reads_back, writable, writable_body, writable_stream,
};
use crate::parse::assemble::{
    next_offset, spec_head, spec_heads, spec_parse, spec_resolve, spec_resolve_entries,
    spec_resolve_section, spec_revision_trailer, spec_revisions, spec_used_objects,
};
use crate::pdf::xref::compressed_of;
use crate::pdf::document::{spec_catalog, spec_document_catalog};
use crate::pdf::{lookup, referred, resolve, PdfValue, SectionValue};
use crate::simple_encode::round_trip::lemma_value_start;
use crate::simple_encode::section::{
    document_text, identity_dictionary, increasing, is_listing, listing, merged,
};
use crate::pdf::xref::used_of;
use crate::simple_encode::section::{
    body_entries, body_text, number32, stored_generation, stored_text, xref_identity,
    xref_object,
};
use crate::writer::saturated;
use crate::simple_encode::text::{name_text, unsigned_text};

verus! {

/// The bytes of the keywords that frame a document.
pub proof fn lemma_frame_bytes()
    ensures
        kw("%PDF-") =~= seq![37u8, 80u8, 68u8, 70u8, 45u8],
        kw("%PDF-1.7\n") =~= seq![37u8, 80u8, 68u8, 70u8, 45u8, 49u8, 46u8, 55u8, 10u8],
        kw("%%EOF") =~= seq![37u8, 37u8, 69u8, 79u8, 70u8],
        kw("\n%%EOF\n") =~= seq![10u8, 37u8, 37u8, 69u8, 79u8, 70u8, 10u8],
        kw("startxref") =~= seq![
            115u8,
            116u8,
            97u8,
            114u8,
            116u8,
            120u8,
            114u8,
            101u8,
            102u8,
        ],
        kw("startxref\n") =~= seq![
            115u8,
            116u8,
            97u8,
            114u8,
            116u8,
            120u8,
            114u8,
            101u8,
            102u8,
            10u8,
        ],
        kw("xref") =~= seq![120u8, 114u8, 101u8, 102u8],
        kw("\r\n") =~= seq![13u8, 10u8],
{
    broadcast use is_ascii_spec_bytes;

    reveal_strlit("%PDF-");
    reveal_strlit("%PDF-1.7\n");
    reveal_strlit("%%EOF");
    reveal_strlit("\n%%EOF\n");
    reveal_strlit("startxref");
    reveal_strlit("startxref\n");
    reveal_strlit("xref");
    reveal_strlit("\r\n");
    assert(is_ascii("%PDF-"));
    assert(is_ascii("%PDF-1.7\n"));
    assert(is_ascii("%%EOF"));
    assert(is_ascii("\n%%EOF\n"));
    assert(is_ascii("startxref"));
    assert(is_ascii("startxref\n"));
    assert(is_ascii("xref"));
    assert(is_ascii("\r\n"));
}

/// A keyword that stands at a place stands there in whatever case it is
/// looked for.
pub proof fn lemma_found(s: Seq<u8>, pos: int, pattern: Seq<u8>)
    requires
        matches_at(s, pos, pattern),
    ensures
        found_at(s, pos, pattern, true),
        found_at(s, pos, pattern, false),
{
    assert forall|j: int| 0 <= j < pattern.len() implies #[trigger] s[pos + j] == pattern[j] by {
        assert(s.subrange(pos, pos + pattern.len())[j] == pattern[j]);
    }
}

/// The search from the end finds the place at which the pattern stands, if
/// it stands at no later place and the place lies inside the window.
pub proof fn lemma_last_match(s: Seq<u8>, pattern: Seq<u8>, fold: bool, limit: nat, p: int)
    requires
        0 <= p < s.len(),
        s.len() - p <= limit,
        found_at(s, p, pattern, fold),
        forall|q: int| p < q < s.len() ==> !found_at(s, q, pattern, fold),
    ensures
        last_match(s, pattern, fold, limit) == Some(p),
{
    let lowest: int = if limit < s.len() {
        s.len() - limit
    } else {
        0
    };
    lemma_search_back(s, pattern, fold, s.len() - 1, lowest);
}

/// The header that the encoder writes is read: the version 1.7 and the
/// comment that announces binary content.
pub proof fn lemma_header_is_read(s: Seq<u8>)
    requires
        matches_at(s, 0, header_text()),
        s.len() > 15,
        !ByteClass::Space.holds(s[15]),
    ensures
        spec_header(s) == Some(((1u8, 7u8), true, 15int)),
{
    lemma_frame_bytes();
    let line = kw("%PDF-1.7\n");
    let marker = seq![37u8, 191u8, 191u8, 191u8, 191u8, 10u8];
    lemma_split(s, 0, line, marker);
    assert(line =~= kw("%PDF-") + seq![49u8, 46u8, 55u8, 10u8]);
    lemma_split(s, 0, kw("%PDF-"), seq![49u8, 46u8, 55u8, 10u8]);
    lemma_found(s, 0, kw("%PDF-"));
    lemma_byte(s, 0, line, 0);
    lemma_byte(s, 0, line, 5);
    lemma_byte(s, 0, line, 6);
    lemma_byte(s, 0, line, 7);
    lemma_byte(s, 0, line, 8);
    lemma_byte(s, 9, marker, 0);
    lemma_byte(s, 9, marker, 1);
    lemma_byte(s, 9, marker, 2);
    lemma_byte(s, 9, marker, 3);
    lemma_byte(s, 9, marker, 4);
    lemma_byte(s, 9, marker, 5);
    lemma_run_over(s, 0, 0, ByteClass::Space);
    lemma_run_over(s, 5, 1, ByteClass::Digit);
    assert(crate::lex::decimal(s, 5, 6) == 1) by {
        reveal_with_fuel(crate::lex::decimal, 3);
    }
    lemma_run_over(s, 7, 1, ByteClass::Digit);
    assert(crate::lex::decimal(s, 7, 8) == 7) by {
        reveal_with_fuel(crate::lex::decimal, 3);
    }
    lemma_run_over(s, 8, 1, ByteClass::Space);
    assert(spec_version(s, 0) == Some(((1u8, 7u8), 9int)));
    lemma_run_over(s, 9, 0, ByteClass::Space);
    lemma_run_over(s, 10, 4, ByteClass::NotLineEnd);
    if matches_at(s, 14, kw("\r\n")) {
        lemma_byte(s, 14, kw("\r\n"), 0);
    }
    assert(after_line_end(s, 14) == 15);
    lemma_run_over(s, 15, 0, ByteClass::Space);
    assert(spec_comment(s, 9) == Some((10int, 14int, 15int)));
    assert(announces_binary(s.subrange(10, 14)));
}

/// Ten to the power of `k`.
pub open spec fn pow10(k: nat) -> nat
    decreases k,
{
    if k == 0 {
        1
    } else {
        10 * pow10((k - 1) as nat)
    }
}

/// A number below ten to the power of `k` is written in at most `k`
/// digits.
pub proof fn lemma_digits_bound(n: nat, k: nat)
    requires
        k >= 1,
        n < pow10(k),
    ensures
        digits_of(n).len() <= k,
    decreases k,
{
    if n >= 10 {
        assert(pow10(1) == 10) by {
            reveal_with_fuel(pow10, 2);
        }
        assert(k >= 2);
        assert(pow10(k) == 10 * pow10((k - 1) as nat));
        lemma_digits_bound(n / 10, (k - 1) as nat);
    }
}

/// A number that a `usize` holds is written in at most twenty digits.
pub proof fn lemma_digits_of_usize(n: nat)
    requires
        n <= usize::MAX,
    ensures
        1 <= digits_of(n).len() <= 20,
{
    assert(pow10(20) == 100_000_000_000_000_000_000) by {
        reveal_with_fuel(pow10, 21);
    }
    lemma_digits_bound(n, 20);
    lemma_digits(n);
}

/// A text that stands in a sequence stands in every start of it that holds
/// the text.
pub proof fn lemma_matches_in_take(s: Seq<u8>, pos: int, t: Seq<u8>, n: int)
    requires
        matches_at(s, pos, t),
        pos + t.len() <= n <= s.len(),
    ensures
        matches_at(s.take(n), pos, t),
{
    assert(s.take(n).subrange(pos, pos + t.len()) =~= s.subrange(pos, pos + t.len()));
}

/// What ends a document: `startxref`, the offset `b` and `%%EOF`, each on
/// a line.
pub open spec fn tail_text(b: nat) -> Seq<u8> {
    kw("startxref\n") + unsigned_text(b) + kw("\n%%EOF\n")
}

/// The end-of-file marker that the encoder writes is found.
pub proof fn lemma_marker_is_found(s: Seq<u8>)
    requires
        s.len() >= 7,
        matches_at(s, s.len() - 7, kw("\n%%EOF\n")),
    ensures
        spec_eof_marker(s) == Some(s.len() - 6),
{
    lemma_frame_bytes();
    let len = s.len() as int;
    let eof = len - 6;
    assert(kw("\n%%EOF\n") =~= (seq![LF] + kw("%%EOF")) + seq![LF]);
    lemma_split(s, len - 7, seq![LF] + kw("%%EOF"), seq![LF]);
    lemma_split(s, len - 7, seq![LF], kw("%%EOF"));
    lemma_found(s, eof, kw("%%EOF"));
    lemma_byte(s, eof, kw("%%EOF"), 2);
    assert forall|q: int| eof < q < len implies !found_at(s, q, kw("%%EOF"), true) by {
        if q == eof + 1 {
            if matches_at_no_case(s, q, kw("%%EOF")) {
                assert(crate::lex::ascii_lower(s[q + 1]) == crate::lex::ascii_lower(
                    kw("%%EOF")[1],
                ));
            }
        }
    }
    lemma_last_match(s, kw("%%EOF"), true, 9, eof);
}

/// The end of a document that the encoder writes is read: the marker is
/// found, and before it `startxref` with the offset.
pub proof fn lemma_tail_is_read(s: Seq<u8>, kpos: int, b: nat)
    requires
        0 <= kpos,
        b <= usize::MAX,
        matches_at(s, kpos, tail_text(b)),
        kpos + tail_text(b).len() == s.len(),
    ensures
        spec_start(s) == Ok::<(int, usize), ParseFault>((kpos, b as usize)),
{
    lemma_frame_bytes();
    let digits = unsigned_text(b);
    let nd = digits.len() as int;
    lemma_digits_of_usize(b);
    lemma_digits(b);
    let len = s.len() as int;
    let eof = len - 6;
    lemma_split(s, kpos, kw("startxref\n") + digits, kw("\n%%EOF\n"));
    lemma_split(s, kpos, kw("startxref\n"), digits);
    lemma_marker_is_found(s);
    let front = s.take(eof);
    assert(kw("startxref\n") =~= kw("startxref") + seq![LF]);
    lemma_split(s, kpos, kw("startxref"), seq![LF]);
    lemma_matches_in_take(s, kpos, kw("startxref"), eof);
    lemma_matches_in_take(s, kpos + 9, seq![LF], eof);
    lemma_matches_in_take(s, kpos + 10, digits, eof);
    assert(kw("\n%%EOF\n") =~= seq![LF] + (kw("%%EOF") + seq![LF]));
    lemma_split(s, kpos + 10 + nd, seq![LF], kw("%%EOF") + seq![LF]);
    lemma_matches_in_take(s, kpos + 10 + nd, seq![LF], eof);
    lemma_found(front, kpos, kw("startxref"));
    assert forall|q: int| kpos < q < front.len() implies !found_at(
        front,
        q,
        kw("startxref"),
        true,
    ) by {
        if matches_at_no_case(front, q, kw("startxref")) {
            assert(crate::lex::ascii_lower(front[q + 0]) == crate::lex::ascii_lower(
                kw("startxref")[0],
            ));
            if q < kpos + 9 {
                lemma_byte(front, kpos, kw("startxref"), q - kpos);
            } else if q == kpos + 9 {
                lemma_byte(front, kpos + 9, seq![LF], 0);
            } else if q < kpos + 10 + nd {
                lemma_byte(front, kpos + 10, digits, q - kpos - 10);
            } else {
                lemma_byte(front, kpos + 10 + nd, seq![LF], 0);
            }
        }
    }
    lemma_last_match(front, kw("startxref"), true, 2057, kpos);
    lemma_byte(front, kpos + 9, seq![LF], 0);
    lemma_byte(front, kpos + 10, digits, 0);
    lemma_byte(front, kpos + 10 + nd, seq![LF], 0);
    lemma_run_over(front, kpos + 9, 1, ByteClass::Space);
    lemma_unsigned_reads_back(front, kpos + 10, b, usize::MAX as nat);
}

/// 256 to the power of `k`.
pub open spec fn pow256(k: nat) -> nat
    decreases k,
{
    if k == 0 {
        1
    } else {
        256 * pow256((k - 1) as nat)
    }
}

/// A number is below 256 to the power of the count of bytes that it
/// takes.
pub proof fn lemma_bytes_needed(v: nat, w: nat)
    requires
        bytes_needed(v) <= w,
    ensures
        v < pow256(w),
    decreases w,
{
    if w > 0 {
        if v >= 256 {
            lemma_bytes_needed(v / 256, (w - 1) as nat);
        } else {
            lemma_pow256_positive((w - 1) as nat);
        }
    }
}

/// Powers of 256 are positive.
pub proof fn lemma_pow256_positive(k: nat)
    ensures
        pow256(k) >= 1,
    decreases k,
{
    if k > 0 {
        lemma_pow256_positive((k - 1) as nat);
    }
}

/// A number that is written in enough bytes, the most significant first,
/// is read back from them.
pub proof fn lemma_be_reads_back(s: Seq<u8>, from: int, v: nat, w: nat)
    requires
        matches_at(s, from, be_bytes(v, w)),
        v < pow256(w),
    ensures
        be_bytes(v, w).len() == w,
        be_value(s, from, from + w) == v,
    decreases w,
{
    if w > 0 {
        let front = be_bytes(v / 256, (w - 1) as nat);
        let last = seq![(v % 256) as u8];
        assert(be_bytes(v, w) =~= front + last);
        lemma_split(s, from, front, last);
        lemma_be_reads_back(s, from, v / 256, (w - 1) as nat);
        lemma_byte(s, from + (w - 1), last, 0);
    }
}

/// The sections that number the entries of a cross-reference stream one by
/// one: for each entry its object number and the count one.
pub open spec fn unit_sections(entries: Seq<XrefEntry>) -> Seq<(usize, usize)> {
    Seq::new(entries.len(), |i: int| (entries[i].number(), 1usize))
}

/// All of `entries` are entries of objects that stand on their own.
pub open spec fn all_used(entries: Seq<XrefEntry>) -> bool {
    forall|i: int| 0 <= i < entries.len() ==> (#[trigger] entries[i]) is Used
}

/// The widths `w` hold the fields of all of `entries`.
pub open spec fn fields_fit(entries: Seq<XrefEntry>, w: (usize, usize, usize)) -> bool {
    w.0 <= 8 && w.1 <= 8 && w.2 <= 8 && forall|i: int|
        0 <= i < entries.len() ==> bytes_needed(entry_fields(#[trigger] entries[i]).0 as nat)
            <= w.0 && bytes_needed(entry_fields(entries[i]).1 as nat) <= w.1 && bytes_needed(
            entry_fields(entries[i]).2 as nat,
        ) <= w.2
}

/// The widths that the encoder chooses hold the fields of all entries.
pub proof fn lemma_field_widths(entries: Seq<XrefEntry>, upto: int)
    requires
        0 <= upto <= entries.len(),
    ensures
        1 <= field_widths(entries, upto).0 <= 8,
        1 <= field_widths(entries, upto).1 <= 8,
        1 <= field_widths(entries, upto).2 <= 8,
        forall|i: int|
            0 <= i < upto ==> (bytes_needed(entry_fields(#[trigger] entries[i]).0 as nat) <= 8
                ==> bytes_needed(entry_fields(entries[i]).0 as nat) <= field_widths(
                entries,
                upto,
            ).0) && (bytes_needed(entry_fields(entries[i]).1 as nat) <= 8 ==> bytes_needed(
                entry_fields(entries[i]).1 as nat,
            ) <= field_widths(entries, upto).1) && (bytes_needed(
                entry_fields(entries[i]).2 as nat,
            ) <= 8 ==> bytes_needed(entry_fields(entries[i]).2 as nat) <= field_widths(
                entries,
                upto,
            ).2),
    decreases upto,
{
    if upto > 0 {
        lemma_field_widths(entries, upto - 1);
    }
}

/// A number that a `usize` holds takes at most eight bytes.
pub proof fn lemma_bytes_needed_of_usize(v: nat)
    requires
        v <= usize::MAX,
    ensures
        bytes_needed(v) <= 8,
{
    reveal_with_fuel(bytes_needed, 9);
}

/// The payload of a cross-reference stream that the encoder writes for
/// entries of objects that stand on their own is read back as the entries,
/// numbered one by one.
pub proof fn lemma_entries_data_read(
    data: Seq<u8>,
    pos: int,
    entries: Seq<XrefEntry>,
    i: int,
    w: (usize, usize, usize),
)
    requires
        0 <= i <= entries.len(),
        0 <= pos,
        all_used(entries),
        fields_fit(entries, w),
        w.0 + w.1 + w.2 > 0,
        matches_at(data, pos, entries_data(entries, i, w)),
        pos + entries_data(entries, i, w).len() == data.len(),
    ensures
        spec_stream_entries(data, pos, w, unit_sections(entries), i, 0, entries.take(i)) == Some(
            entries,
        ),
    decreases entries.len() - i,
{
    let sections = unit_sections(entries);
    let width = w.0 + w.1 + w.2;
    if i == entries.len() {
        assert(entries.take(i) =~= entries);
    } else {
        let e = entries[i];
        let f = entry_fields(e);
        let first = be_bytes(f.0 as nat, capped(w.0));
        let second = be_bytes(f.1 as nat, capped(w.1));
        let third = be_bytes(f.2 as nat, capped(w.2));
        let rest = entries_data(entries, i + 1, w);
        assert(entries_data(entries, i, w) == entry_data(e, w) + rest);
        lemma_split(data, pos, entry_data(e, w), rest);
        lemma_split(data, pos, first + second, third);
        lemma_split(data, pos, first, second);
        lemma_bytes_needed(f.0 as nat, w.0 as nat);
        lemma_bytes_needed(f.1 as nat, w.1 as nat);
        lemma_bytes_needed(f.2 as nat, w.2 as nat);
        lemma_be_reads_back(data, pos, f.0 as nat, w.0 as nat);
        lemma_be_reads_back(data, pos + w.0, f.1 as nat, w.1 as nat);
        lemma_be_reads_back(data, pos + w.0 + w.1, f.2 as nat, w.2 as nat);
        assert(stream_entry(e.number(), f.0, f.1, f.2) == e);
        assert(entries.take(i).push(e) =~= entries.take(i + 1));
        lemma_entries_data_read(data, pos + width, entries, i + 1, w);
        assert(sections[i] == (e.number(), 1usize));
        assert(spec_stream_entries(data, pos + width, w, sections, i, 1, entries.take(i + 1))
            == spec_stream_entries(data, pos + width, w, sections, i + 1, 0, entries.take(i + 1)))
            by {
            if pos + width + width > data.len() {
                assert(rest.len() == 0);
                if i + 1 < entries.len() {
                    assert(entries_data(entries, i + 1, w) == entry_data(entries[i + 1], w)
                        + entries_data(entries, i + 2, w));
                    let g = entry_fields(entries[i + 1]);
                    lemma_bytes_needed(g.0 as nat, w.0 as nat);
                    lemma_bytes_needed(g.1 as nat, w.1 as nat);
                    lemma_bytes_needed(g.2 as nat, w.2 as nat);
                    lemma_be_length(g.0 as nat, w.0 as nat);
                    lemma_be_length(g.1 as nat, w.1 as nat);
                    lemma_be_length(g.2 as nat, w.2 as nat);
                }
            }
        }
    }
}

/// A number is written in as many bytes as are asked for.
pub proof fn lemma_be_length(v: nat, w: nat)
    ensures
        be_bytes(v, w).len() == w,
    decreases w,
{
    if w > 0 {
        lemma_be_length(v / 256, (w - 1) as nat);
    }
}

/// The `Index` array that the encoder writes for entries whose numbers are
/// integers of 32 bits is read back as the sections that number the entries
/// one by one.
pub proof fn lemma_index_read(entries: Seq<XrefEntry>, i: int)
    requires
        0 <= i <= entries.len(),
        forall|k: int| 0 <= k < entries.len() ==> (#[trigger] entries[k]).number() <= i32::MAX,
    ensures
        index_pairs(index_value(entries, i), 0) == Some(
            unit_sections(entries).subrange(i, entries.len() as int),
        ),
    decreases entries.len() - i,
{
    let len = entries.len() as int;
    let sections = unit_sections(entries);
    if i == len {
        assert(sections.subrange(i, len) =~= Seq::<(usize, usize)>::empty());
    } else {
        let a = index_value(entries, i);
        let rest = index_value(entries, i + 1);
        lemma_index_read(entries, i + 1);
        assert(a == seq![number_value(entries[i].number()), Value::Integer(1)] + rest);
        lemma_index_shift(a, rest, 0);
        assert(seq![sections[i]] + sections.subrange(i + 1, len) =~= sections.subrange(i, len));
    }
}

/// Reading pairs from an array that starts with one pair reads what is
/// read from the rest of it, two places further on.
pub proof fn lemma_index_shift(a: Seq<Value>, rest: Seq<Value>, from: int)
    requires
        0 <= from,
        a.len() == rest.len() + 2,
        forall|k: int| 0 <= k < rest.len() ==> a[k + 2] == #[trigger] rest[k],
    ensures
        index_pairs(a, from + 2) == index_pairs(rest, from),
    decreases rest.len() - from,
{
    if from < rest.len() {
        assert(a[from + 2] == rest[from]);
        if from + 1 < rest.len() {
            assert(a[from + 1 + 2] == rest[from + 1]);
            lemma_index_shift(a, rest, from + 2);
        }
    }
}

/// The first byte and the length of each key that the dictionary of a
/// cross-reference stream can hold, which tell the keys apart.
pub proof fn lemma_key_bytes()
    ensures
        kw("Root").len() == 4 && kw("Root")[0] == 82,
        kw("Encrypt").len() == 7 && kw("Encrypt")[0] == 69,
        kw("Info").len() == 4 && kw("Info")[0] == 73,
        kw("ID").len() == 2 && kw("ID")[0] == 73,
        kw("Type").len() == 4 && kw("Type")[0] == 84,
        kw("Size").len() == 4 && kw("Size")[0] == 83,
        kw("W").len() == 1 && kw("W")[0] == 87,
        kw("Index").len() == 5 && kw("Index")[0] == 73,
        kw("Length").len() == 6 && kw("Length")[0] == 76,
        kw("Prev").len() == 4 && kw("Prev")[0] == 80,
        kw("XRefStm").len() == 7 && kw("XRefStm")[0] == 88,
        kw("Filter").len() == 6 && kw("Filter")[0] == 70,
{
    broadcast use is_ascii_spec_bytes;

    reveal_strlit("Root");
    reveal_strlit("Encrypt");
    reveal_strlit("Info");
    reveal_strlit("ID");
    reveal_strlit("Type");
    reveal_strlit("Size");
    reveal_strlit("W");
    reveal_strlit("Index");
    reveal_strlit("Length");
    reveal_strlit("Prev");
    reveal_strlit("XRefStm");
    reveal_strlit("Filter");
    assert(is_ascii("Root"));
    assert(is_ascii("Encrypt"));
    assert(is_ascii("Info"));
    assert(is_ascii("ID"));
    assert(is_ascii("Type"));
    assert(is_ascii("Size"));
    assert(is_ascii("W"));
    assert(is_ascii("Index"));
    assert(is_ascii("Length"));
    assert(is_ascii("Prev"));
    assert(is_ascii("XRefStm"));
    assert(is_ascii("Filter"));
}

/// None of the entries of `d` has the key `key`.
pub open spec fn key_absent(d: Seq<(Seq<u8>, Value)>, key: Seq<u8>) -> bool {
    forall|j: int| 0 <= j < d.len() ==> (#[trigger] d[j]).0 != key
}

/// Under a key that a dictionary does not have, a value is put in as a
/// new last entry, and nothing is found.
pub proof fn lemma_insert_fresh(d: Seq<(Seq<u8>, Value)>, key: Seq<u8>, value: Value)
    requires
        key_absent(d, key),
    ensures
        dict_insert(d, key, value) == d.push((key, value)),
        dict_get(d, key) is None,
{
    lemma_dict_find(d, key, 0);
}

/// Looking a key up finds the first entry that has it.
pub proof fn lemma_get_first(d: Seq<(Seq<u8>, Value)>, key: Seq<u8>, j: int)
    requires
        0 <= j < d.len(),
        d[j].0 == key,
        forall|i: int| 0 <= i < j ==> (#[trigger] d[i]).0 != key,
    ensures
        dict_get(d, key) == Some(d[j].1),
{
    lemma_dict_find(d, key, 0);
}

/// The entries that `with_identity` puts into an empty dictionary.
pub open spec fn identity_part(t: TrailerValue) -> Seq<(Seq<u8>, Value)> {
    seq![(kw("Root"), Value::Reference(t.root.index, t.root.generation))] + (match t.encrypt {
        Some(e) => seq![(kw("Encrypt"), Value::Dictionary(e))],
        None => Seq::empty(),
    }) + (match t.info {
        Some(i) => seq![(kw("Info"), Value::Reference(i.index, i.generation))],
        None => Seq::empty(),
    }) + (match t.id {
        Some((a, b)) => seq![
            (kw("ID"), Value::Array(seq![Value::HexString(a), Value::HexString(b)])),
        ],
        None => Seq::empty(),
    })
}

/// `with_identity` puts its entries into an empty dictionary one after
/// another.
pub proof fn lemma_identity_part(t: TrailerValue)
    ensures
        with_identity(Seq::empty(), t) == identity_part(t),
        1 <= identity_part(t).len() <= 4,
        forall|j: int|
            0 <= j < identity_part(t).len() ==> (#[trigger] identity_part(t)[j]).0 == kw("Root")
                || identity_part(t)[j].0 == kw("Encrypt") || identity_part(t)[j].0 == kw("Info")
                || identity_part(t)[j].0 == kw("ID"),
        distinct_keys(identity_part(t)),
{
    lemma_key_bytes();
    let root = seq![(kw("Root"), Value::Reference(t.root.index, t.root.generation))];
    lemma_insert_fresh(
        Seq::empty(),
        kw("Root"),
        Value::Reference(t.root.index, t.root.generation),
    );
    assert(Seq::<(Seq<u8>, Value)>::empty().push(
        (kw("Root"), Value::Reference(t.root.index, t.root.generation)),
    ) =~= root);
    let encrypted = match t.encrypt {
        Some(e) => root.push((kw("Encrypt"), Value::Dictionary(e))),
        None => root,
    };
    if let Some(e) = t.encrypt {
        lemma_insert_fresh(root, kw("Encrypt"), Value::Dictionary(e));
    }
    let informed = match t.info {
        Some(i) => encrypted.push((kw("Info"), Value::Reference(i.index, i.generation))),
        None => encrypted,
    };
    if let Some(i) = t.info {
        lemma_insert_fresh(encrypted, kw("Info"), Value::Reference(i.index, i.generation));
    }
    let identified = match t.id {
        Some((a, b)) => informed.push(
            (kw("ID"), Value::Array(seq![Value::HexString(a), Value::HexString(b)])),
        ),
        None => informed,
    };
    if let Some((a, b)) = t.id {
        lemma_insert_fresh(
            informed,
            kw("ID"),
            Value::Array(seq![Value::HexString(a), Value::HexString(b)]),
        );
    }
    assert(identified =~= identity_part(t));
}

/// The entries that describe a cross-reference stream.
pub open spec fn xref_part(entries: Seq<XrefEntry>) -> Seq<(Seq<u8>, Value)> {
    let w = field_widths(entries, entries.len() as int);
    seq![
        (kw("Type"), Value::Name(kw("XRef"))),
        (kw("Size"), number_value(successor(highest_number(entries)))),
        (
            kw("W"),
            Value::Array(
                seq![
                    Value::Integer(w.0 as i32),
                    Value::Integer(w.1 as i32),
                    Value::Integer(w.2 as i32),
                ],
            ),
        ),
        (kw("Index"), Value::Array(index_value(entries, 0))),
    ]
}

/// What describes a cross-reference stream is put behind what the trailer
/// says of the document.
pub proof fn lemma_xref_part(t: TrailerValue, entries: Seq<XrefEntry>)
    ensures
        with_xref_entries(identity_part(t), entries) == identity_part(t) + xref_part(entries),
{
    lemma_key_bytes();
    lemma_identity_part(t);
    let d = identity_part(t);
    let x = xref_part(entries);
    lemma_insert_fresh(d, kw("Type"), x[0].1);
    let d1 = d.push(x[0]);
    lemma_insert_fresh(d1, kw("Size"), x[1].1);
    let d2 = d1.push(x[1]);
    lemma_insert_fresh(d2, kw("W"), x[2].1);
    let d3 = d2.push(x[2]);
    lemma_insert_fresh(d3, kw("Index"), x[3].1);
    assert(d3.push(x[3]) =~= d + x);
}

/// The dictionary of the cross-reference stream of a document as it is
/// read: what the trailer says of the document, what describes the stream,
/// and the length of the payload.
pub open spec fn read_dictionary(t: TrailerValue, entries: Seq<XrefEntry>, n: nat) -> Seq<
    (Seq<u8>, Value),
> {
    (identity_part(t) + xref_part(entries)).push((kw("Length"), Value::Integer(n as i32)))
}

/// The entries of the dictionary of the cross-reference stream of a
/// document, place by place, and the keys of the entries.
pub proof fn lemma_read_dictionary_shape(t: TrailerValue, entries: Seq<XrefEntry>, n: nat)
    ensures
        read_dictionary(t, entries, n).len() == identity_part(t).len() + 5,
        forall|j: int|
            0 <= j < identity_part(t).len() ==> #[trigger] read_dictionary(t, entries, n)[j]
                == identity_part(t)[j],
        read_dictionary(t, entries, n)[identity_part(t).len() as int] == xref_part(entries)[0],
        read_dictionary(t, entries, n)[identity_part(t).len() as int + 1] == xref_part(entries)[1],
        read_dictionary(t, entries, n)[identity_part(t).len() as int + 2] == xref_part(entries)[2],
        read_dictionary(t, entries, n)[identity_part(t).len() as int + 3] == xref_part(entries)[3],
        read_dictionary(t, entries, n)[identity_part(t).len() as int + 4] == (
            kw("Length"),
            Value::Integer(n as i32),
        ),
        forall|j: int|
            0 <= j < identity_part(t).len() ==> (#[trigger] read_dictionary(t, entries, n)[j]).0
                == kw("Root") || read_dictionary(t, entries, n)[j].0 == kw("Encrypt")
                || read_dictionary(t, entries, n)[j].0 == kw("Info") || read_dictionary(
                t,
                entries,
                n,
            )[j].0 == kw("ID"),
{
    lemma_identity_part(t);
    let a = identity_part(t);
    let d = read_dictionary(t, entries, n);
    assert forall|j: int| 0 <= j < a.len() implies (#[trigger] d[j]).0 == kw("Root") || d[j].0
        == kw("Encrypt") || d[j].0 == kw("Info") || d[j].0 == kw("ID") by {
        assert(d[j] == a[j]);
    }
}

/// A key that is none of those of the entries of the dictionary of the
/// cross-reference stream of a document is not found in it.
pub proof fn lemma_read_dictionary_absent(
    t: TrailerValue,
    entries: Seq<XrefEntry>,
    n: nat,
    key: Seq<u8>,
)
    requires
        key != kw("Root"),
        key != kw("Encrypt"),
        key != kw("Info"),
        key != kw("ID"),
        key != kw("Type"),
        key != kw("Size"),
        key != kw("W"),
        key != kw("Index"),
        key != kw("Length"),
    ensures
        dict_get(read_dictionary(t, entries, n), key) is None,
{
    lemma_read_dictionary_shape(t, entries, n);
    let d = read_dictionary(t, entries, n);
    let na = identity_part(t).len() as int;
    assert forall|j: int| 0 <= j < d.len() implies (#[trigger] d[j]).0 != key by {
        if j >= na {
            assert(j == na || j == na + 1 || j == na + 2 || j == na + 3 || j == na + 4);
        }
    }
    lemma_insert_fresh(d, key, Value::Null);
}

/// What the dictionary of the cross-reference stream of a document holds
/// under the keys that describe the stream.
pub proof fn lemma_read_dictionary_stream(t: TrailerValue, entries: Seq<XrefEntry>, n: nat)
    ensures
        dict_get(read_dictionary(t, entries, n), kw("Type")) == Some(xref_part(entries)[0].1),
        dict_get(read_dictionary(t, entries, n), kw("Size")) == Some(xref_part(entries)[1].1),
        dict_get(read_dictionary(t, entries, n), kw("W")) == Some(xref_part(entries)[2].1),
        dict_get(read_dictionary(t, entries, n), kw("Index")) == Some(xref_part(entries)[3].1),
        dict_get(read_dictionary(t, entries, n), kw("Length")) == Some(Value::Integer(n as i32)),
{
    lemma_key_bytes();
    lemma_read_dictionary_shape(t, entries, n);
    let d = read_dictionary(t, entries, n);
    let na = identity_part(t).len() as int;
    lemma_get_first(d, kw("Type"), na);
    lemma_get_first(d, kw("Size"), na + 1);
    lemma_get_first(d, kw("W"), na + 2);
    lemma_get_first(d, kw("Index"), na + 3);
    lemma_get_first(d, kw("Length"), na + 4);
}

/// What the dictionary of the cross-reference stream of a document holds
/// under the keys of a trailer.
pub proof fn lemma_read_dictionary_identity(t: TrailerValue, entries: Seq<XrefEntry>, n: nat)
    ensures
        dict_get(read_dictionary(t, entries, n), kw("Root")) == Some(
            Value::Reference(t.root.index, t.root.generation),
        ),
        dict_get(read_dictionary(t, entries, n), kw("Encrypt")) == (match t.encrypt {
            Some(e) => Some(Value::Dictionary(e)),
            None => None,
        }),
        dict_get(read_dictionary(t, entries, n), kw("Info")) == (match t.info {
            Some(i) => Some(Value::Reference(i.index, i.generation)),
            None => None,
        }),
        dict_get(read_dictionary(t, entries, n), kw("ID")) == (match t.id {
            Some((a, b)) => Some(Value::Array(seq![Value::HexString(a), Value::HexString(b)])),
            None => None,
        }),
{
    lemma_key_bytes();
    lemma_read_dictionary_shape(t, entries, n);
    let a = identity_part(t);
    let d = read_dictionary(t, entries, n);
    let na = a.len() as int;
    lemma_get_first(d, kw("Root"), 0);
    let e: int = if t.encrypt is Some {
        1
    } else {
        0
    };
    let i: int = if t.info is Some {
        1
    } else {
        0
    };
    assert forall|j: int| na <= j < d.len() implies (#[trigger] d[j]).0 != kw("Encrypt") && d[j].0
        != kw("Info") && d[j].0 != kw("ID") by {
        assert(j == na || j == na + 1 || j == na + 2 || j == na + 3 || j == na + 4);
    }
    if t.encrypt is Some {
        assert(a[1].0 == kw("Encrypt"));
        lemma_get_first(d, kw("Encrypt"), 1);
    } else {
        assert forall|j: int| 0 <= j < na implies (#[trigger] d[j]).0 != kw("Encrypt") by {
            assert(d[j] == a[j]);
        }
        lemma_insert_fresh(d, kw("Encrypt"), Value::Null);
    }
    if t.info is Some {
        assert(a[1 + e].0 == kw("Info"));
        assert forall|j: int| 0 <= j < 1 + e implies (#[trigger] d[j]).0 != kw("Info") by {
            assert(d[j] == a[j]);
        }
        lemma_get_first(d, kw("Info"), 1 + e);
    } else {
        assert forall|j: int| 0 <= j < na implies (#[trigger] d[j]).0 != kw("Info") by {
            assert(d[j] == a[j]);
        }
        lemma_insert_fresh(d, kw("Info"), Value::Null);
    }
    if t.id is Some {
        assert(a[1 + e + i].0 == kw("ID"));
        assert forall|j: int| 0 <= j < 1 + e + i implies (#[trigger] d[j]).0 != kw("ID") by {
            assert(d[j] == a[j]);
        }
        lemma_get_first(d, kw("ID"), 1 + e + i);
    } else {
        assert forall|j: int| 0 <= j < na implies (#[trigger] d[j]).0 != kw("ID") by {
            assert(d[j] == a[j]);
        }
        lemma_insert_fresh(d, kw("ID"), Value::Null);
    }
}

/// No key occurs twice in the dictionary of the cross-reference stream of
/// a document.
pub proof fn lemma_read_dictionary_distinct(t: TrailerValue, entries: Seq<XrefEntry>, n: nat)
    ensures
        distinct_keys(read_dictionary(t, entries, n)),
{
    lemma_key_bytes();
    lemma_identity_part(t);
    lemma_read_dictionary_shape(t, entries, n);
    let a = identity_part(t);
    let d = read_dictionary(t, entries, n);
    let na = a.len() as int;
    assert forall|i: int, j: int| 0 <= i < j < d.len() implies (#[trigger] d[i]).0 != (
    #[trigger] d[j]).0 by {
        if j < na {
            assert(a[i] == d[i] && a[j] == d[j]);
        } else {
            assert(j == na || j == na + 1 || j == na + 2 || j == na + 3 || j == na + 4);
            if i >= na {
                assert(i == na || i == na + 1 || i == na + 2 || i == na + 3);
            }
        }
    }
}

/// What the dictionary of the cross-reference stream of a document holds
/// under each key.
pub proof fn lemma_read_dictionary(t: TrailerValue, entries: Seq<XrefEntry>, n: nat)
    ensures
        distinct_keys(read_dictionary(t, entries, n)),
        dict_get(read_dictionary(t, entries, n), kw("Type")) == Some(xref_part(entries)[0].1),
        dict_get(read_dictionary(t, entries, n), kw("Size")) == Some(xref_part(entries)[1].1),
        dict_get(read_dictionary(t, entries, n), kw("W")) == Some(xref_part(entries)[2].1),
        dict_get(read_dictionary(t, entries, n), kw("Index")) == Some(xref_part(entries)[3].1),
        dict_get(read_dictionary(t, entries, n), kw("Length")) == Some(Value::Integer(n as i32)),
        dict_get(read_dictionary(t, entries, n), kw("Root")) == Some(
            Value::Reference(t.root.index, t.root.generation),
        ),
        dict_get(read_dictionary(t, entries, n), kw("Prev")) is None,
        dict_get(read_dictionary(t, entries, n), kw("XRefStm")) is None,
        dict_get(read_dictionary(t, entries, n), kw("Filter")) is None,
        dict_get(read_dictionary(t, entries, n), kw("Encrypt")) == (match t.encrypt {
            Some(e) => Some(Value::Dictionary(e)),
            None => None,
        }),
        dict_get(read_dictionary(t, entries, n), kw("Info")) == (match t.info {
            Some(i) => Some(Value::Reference(i.index, i.generation)),
            None => None,
        }),
        dict_get(read_dictionary(t, entries, n), kw("ID")) == (match t.id {
            Some((a, b)) => Some(Value::Array(seq![Value::HexString(a), Value::HexString(b)])),
            None => None,
        }),
{
    lemma_key_bytes();
    lemma_read_dictionary_distinct(t, entries, n);
    lemma_read_dictionary_stream(t, entries, n);
    lemma_read_dictionary_identity(t, entries, n);
    lemma_read_dictionary_absent(t, entries, n, kw("Prev"));
    lemma_read_dictionary_absent(t, entries, n, kw("XRefStm"));
    lemma_read_dictionary_absent(t, entries, n, kw("Filter"));
}

/// Sorting entries that are in the order of their numbers changes
/// nothing.
pub proof fn lemma_sorted_is_fixed(entries: Seq<XrefEntry>)
    requires
        ordered_by_number(entries),
    ensures
        sort_by_number(entries) == entries,
    decreases entries.len(),
{
    if entries.len() == 0 {
        assert(entries =~= Seq::<XrefEntry>::empty());
    } else {
        let front = entries.drop_last();
        assert forall|i: int, j: int| 0 <= i <= j < front.len() implies front[i].number()
            <= front[j].number() by {
            assert(front[i] == entries[i] && front[j] == entries[j]);
        }
        lemma_sorted_is_fixed(front);
        if front.len() > 0 {
            assert(front.last() == entries[entries.len() - 2]);
            assert(entries[entries.len() - 2].number() <= entries[entries.len() - 1].number());
        }
        assert(front.push(entries.last()) =~= entries);
    }
}

/// The document as a whole that a trailer describes, with the size `size`:
/// what is read back of a trailer from the cross-reference stream of a
/// document that the encoder wrote.
pub open spec fn read_trailer(t: TrailerValue, size: usize) -> TrailerValue {
    TrailerValue {
        size,
        previous: None,
        root: t.root,
        encrypt: t.encrypt,
        info: t.info,
        id: t.id,
        x_ref_stm: None,
    }
}

/// The cross-reference stream of a document that the encoder wrote gives
/// its entries and its trailer back, where the numbers in it are integers of
/// 32 bits and the entries stand in the order of their numbers.
pub proof fn lemma_xref_stream_values(
    t: TrailerValue,
    entries: Seq<XrefEntry>,
    data: Seq<u8>,
)
    requires
        all_used(entries),
        ordered_by_number(entries),
        forall|k: int| 0 <= k < entries.len() ==> (#[trigger] entries[k]).number() < i32::MAX,
        data == entries_data(entries, 0, field_widths(entries, entries.len() as int)),
        data.len() <= i32::MAX,
    ensures
        spec_xref_stream_entries(read_dictionary(t, entries, data.len()), data) == Ok::<
            Seq<XrefEntry>,
            ParseFault,
        >(entries),
        spec_trailer(read_dictionary(t, entries, data.len())) == Ok::<TrailerValue, TrailerError>(
            read_trailer(t, successor(highest_number(entries))),
        ),
{
    let d = read_dictionary(t, entries, data.len());
    let w = field_widths(entries, entries.len() as int);
    lemma_read_dictionary(t, entries, data.len());
    lemma_identity_chain(d, data);
    lemma_field_widths(entries, entries.len() as int);
    lemma_highest_bound(entries, i32::MAX as usize);
    assert(spec_widths(d) == Some(w));
    lemma_index_read(entries, 0);
    assert(unit_sections(entries).subrange(0, entries.len() as int) =~= unit_sections(entries));
    assert(spec_sections(d) == Some(unit_sections(entries)));
    assert(fields_fit(entries, w)) by {
        assert forall|i: int| 0 <= i < entries.len() implies bytes_needed(
            entry_fields(#[trigger] entries[i]).0 as nat,
        ) <= w.0 && bytes_needed(entry_fields(entries[i]).1 as nat) <= w.1 && bytes_needed(
            entry_fields(entries[i]).2 as nat,
        ) <= w.2 by {
            lemma_bytes_needed_of_usize(entry_fields(entries[i]).0 as nat);
            lemma_bytes_needed_of_usize(entry_fields(entries[i]).1 as nat);
            lemma_bytes_needed_of_usize(entry_fields(entries[i]).2 as nat);
        }
    }
    assert(data.subrange(0, data.len() as int) =~= data);
    assert(entries.take(0) =~= Seq::<XrefEntry>::empty());
    lemma_entries_data_read(data, 0, entries, 0, w);
    lemma_sorted_is_fixed(entries);
}

/// The greatest number of entries whose numbers lie below a bound lies
/// below it, or is zero.
pub proof fn lemma_highest_bound(entries: Seq<XrefEntry>, bound: usize)
    requires
        forall|k: int| 0 <= k < entries.len() ==> (#[trigger] entries[k]).number() < bound,
    ensures
        highest_number(entries) < bound || highest_number(entries) == 0,
    decreases entries.len(),
{
    if entries.len() > 0 {
        let front = entries.drop_last();
        assert forall|k: int| 0 <= k < front.len() implies (#[trigger] front[k]).number()
            < bound by {
            assert(front[k] == entries[k]);
        }
        lemma_highest_bound(front, bound);
        assert(entries.last() == entries[entries.len() - 1]);
    }
}

/// The entries of a dictionary with one more entry are written as the
/// entries without it, and then that entry.
pub proof fn lemma_entries_pushed(
    d: Seq<(Seq<u8>, Value)>,
    key: Seq<u8>,
    value: Value,
    from: int,
    length: Option<Seq<u8>>,
)
    requires
        0 <= from <= d.len(),
    ensures
        entries_text(d.push((key, value)), from, length) == entries_text(d, from, length)
            + separator(d.len() as int) + name_text(key) + seq![SPACE] + (if length is Some && key
            == kw("Length") {
            length->0
        } else {
            value_text(value)
        }),
    decreases d.len() - from,
{
    let pushed = d.push((key, value));
    let last = separator(d.len() as int) + name_text(key) + seq![SPACE] + (if length is Some && key
        == kw("Length") {
        length->0
    } else {
        value_text(value)
    });
    if from < d.len() {
        lemma_entries_pushed(d, key, value, from + 1, length);
        assert(pushed[from] == d[from]);
        let head = separator(from) + name_text(d[from].0) + seq![SPACE] + (if length is Some
            && d[from].0 == kw("Length") {
            length->0
        } else {
            value_text(d[from].1)
        });
        assert(entries_text(pushed, from, length) == head + entries_text(
            pushed,
            from + 1,
            length,
        ));
        assert(entries_text(d, from, length) == head + entries_text(d, from + 1, length));
        assert(head + (entries_text(d, from + 1, length) + separator(d.len() as int) + name_text(
            key,
        ) + seq![SPACE] + (if length is Some && key == kw("Length") {
            length->0
        } else {
            value_text(value)
        })) =~= entries_text(d, from, length) + separator(d.len() as int) + name_text(key) + seq![
            SPACE,
        ] + (if length is Some && key == kw("Length") {
            length->0
        } else {
            value_text(value)
        }));
    } else {
        assert(entries_text(pushed, from + 1, length) =~= Seq::<u8>::empty());
        assert(entries_text(d, from, length) =~= Seq::<u8>::empty());
        assert(pushed[from] == (key, value));
        assert(entries_text(pushed, from, length) =~= last);
        assert(Seq::<u8>::empty() + separator(d.len() as int) + name_text(key) + seq![SPACE] + (
        if length is Some && key == kw("Length") {
            length->0
        } else {
            value_text(value)
        }) =~= last);
    }
}

/// A stream whose dictionary does not hold its length is written like the
/// stream whose dictionary holds the length as its last entry.
pub proof fn lemma_stream_with_length(d: Seq<(Seq<u8>, Value)>, data: Seq<u8>)
    requires
        key_absent(d, kw("Length")),
        data.len() <= i32::MAX,
    ensures
        value_text(Value::Stream(d, data)) == value_text(
            Value::Stream(d.push((kw("Length"), Value::Integer(data.len() as i32))), data),
        ),
{
    let n = data.len();
    let lt = unsigned_text(n);
    let v = Value::Integer(n as i32);
    let pushed = d.push((kw("Length"), v));
    lemma_insert_fresh(d, kw("Length"), v);
    lemma_entries_pushed(d, kw("Length"), v, 0, Some(lt));
    lemma_get_first(pushed, kw("Length"), d.len() as int);
    assert(stream_dictionary_text(pushed, lt) =~= stream_dictionary_text(d, lt));
}

/// The elements of the `Index` array that the encoder writes are
/// integers, where the numbers of the entries are integers of 32 bits.
pub proof fn lemma_index_writable(entries: Seq<XrefEntry>, from: int)
    requires
        0 <= from,
        forall|k: int| 0 <= k < entries.len() ==> (#[trigger] entries[k]).number() <= i32::MAX,
    ensures
        forall|j: int|
            0 <= j < index_value(entries, from).len() ==> writable(
                #[trigger] index_value(entries, from)[j],
            ),
    decreases entries.len() - from,
{
    if from < entries.len() {
        lemma_index_writable(entries, from + 1);
        let rest = index_value(entries, from + 1);
        let a = index_value(entries, from);
        assert forall|j: int| 0 <= j < a.len() implies writable(#[trigger] a[j]) by {
            if j >= 2 {
                assert(a[j] == rest[j - 2]);
            }
        }
    }
}

/// What a trailer says of the document can be written so that it is read
/// back: the dictionary under `Encrypt` can, and the two strings of the
/// identifier are not empty.
pub open spec fn writable_identity(t: TrailerValue) -> bool {
    (t.encrypt matches Some(e) ==> writable(Value::Dictionary(e))) && (t.id matches Some(
        (a, b),
    ) ==> a.len() > 0 && b.len() > 0)
}

/// The cross-reference stream of a document can be written so that it is
/// read back.
pub proof fn lemma_xref_stream_writable(t: TrailerValue, entries: Seq<XrefEntry>, data: Seq<u8>)
    requires
        writable_identity(t),
        forall|k: int| 0 <= k < entries.len() ==> (#[trigger] entries[k]).number() < i32::MAX,
        data.len() <= i32::MAX,
    ensures
        writable_stream(read_dictionary(t, entries, data.len()), data),
        key_absent(identity_part(t) + xref_part(entries), kw("Length")),
{
    lemma_key_bytes();
    lemma_identity_part(t);
    lemma_read_dictionary(t, entries, data.len());
    lemma_index_writable(entries, 0);
    lemma_highest_bound(entries, i32::MAX as usize);
    lemma_field_widths(entries, entries.len() as int);
    let a = identity_part(t);
    let x = xref_part(entries);
    let d = read_dictionary(t, entries, data.len());
    let na = a.len() as int;
    assert forall|j: int| 0 <= j < d.len() implies writable(#[trigger] d[j].1) by {
        if j < na {
            assert(d[j] == a[j]);
            if let Some((first, second)) = t.id {
                let pair = seq![Value::HexString(first), Value::HexString(second)];
                assert(writable(Value::Array(pair))) by {
                    assert forall|k: int| 0 <= k < pair.len() implies writable(
                        #[trigger] pair[k],
                    ) by {}
                }
            }
        } else if j < na + 4 {
            assert(d[j] == x[j - na]);
            let w = field_widths(entries, entries.len() as int);
            let widths = seq![
                Value::Integer(w.0 as i32),
                Value::Integer(w.1 as i32),
                Value::Integer(w.2 as i32),
            ];
            assert(writable(Value::Array(widths))) by {
                assert forall|k: int| 0 <= k < widths.len() implies writable(
                    #[trigger] widths[k],
                ) by {}
            }
        }
    }
    assert forall|j: int| 0 <= j < (a + x).len() implies (#[trigger] (a + x)[j]).0 != kw(
        "Length",
    ) by {
        if j < na {
            assert((a + x)[j] == a[j]);
        } else {
            assert((a + x)[j] == x[j - na]);
        }
    }
}

/// The cross-reference stream of a document that the encoder wrote is
/// read where it stands: it gives the entries, the dictionary of the
/// stream, and the number and generation of the object that holds it.
pub proof fn lemma_xref_is_read(
    s: Seq<u8>,
    b: int,
    t: TrailerValue,
    entries: Seq<XrefEntry>,
)
    requires
        writable_identity(t),
        all_used(entries),
        ordered_by_number(entries),
        forall|k: int| 0 <= k < entries.len() ==> (#[trigger] entries[k]).number() < i32::MAX,
        entries_data(entries, 0, field_widths(entries, entries.len() as int)).len() <= i32::MAX,
        matches_at(
            s,
            b,
            value_text(xref_object(entries, None, identity_part(t) + xref_part(entries))),
        ),
    ensures
        spec_xref(s, b) == Ok::<
            (Seq<XrefEntry>, XrefKind, Option<Seq<(Seq<u8>, Value)>>, int),
            ParseFault,
        >(
            (
                entries,
                XrefKind::Stream {
                    number: xref_identity(entries, None).0,
                    generation: xref_identity(entries, None).1,
                },
                Some(
                    read_dictionary(
                        t,
                        entries,
                        entries_data(entries, 0, field_widths(entries, entries.len() as int)).len(),
                    ),
                ),
                skip_noise(
                    s,
                    b + value_text(
                        xref_object(entries, None, identity_part(t) + xref_part(entries)),
                    ).len(),
                ),
            ),
        ),
        spec_trailer(
            read_dictionary(
                t,
                entries,
                entries_data(entries, 0, field_widths(entries, entries.len() as int)).len(),
            ),
        ) == Ok::<TrailerValue, TrailerError>(
            read_trailer(t, successor(highest_number(entries))),
        ),
        0 <= b < s.len(),
        ByteClass::Digit.holds(s[b]),
{
    lemma_frame_bytes();
    let data = entries_data(entries, 0, field_widths(entries, entries.len() as int));
    let xd = identity_part(t) + xref_part(entries);
    let read = read_dictionary(t, entries, data.len());
    let id = xref_identity(entries, None);
    lemma_xref_stream_writable(t, entries, data);
    lemma_stream_with_length(xd, data);
    let written = Value::Indirect(id.0, id.1, Box::new(Value::Stream(xd, data)));
    let stored = Value::Indirect(id.0, id.1, Box::new(Value::Stream(read, data)));
    assert(xref_object(entries, None, xd) == written);
    assert(value_text(written) == value_text(stored));
    assert(writable_body(Value::Stream(read, data)));
    lemma_indirect_reads_back(s, b, id.0, id.1, Value::Stream(read, data));
    lemma_xref_stream_values(t, entries, data);
    lemma_run_over(s, b, 0, ByteClass::Space);
    if matches_at(s, b, kw("xref")) {
        lemma_byte(s, b, kw("xref"), 0);
    }
    assert(spec_xref_table(s, b) is None);
}

/// Where the object under `keys[i]` is written in a document: behind the
/// header and the objects before it.
pub open spec fn offset_of(objects: Map<usize, Value>, keys: Seq<usize>, i: int) -> nat
    decreases i,
{
    if i <= 0 {
        15
    } else {
        offset_of(objects, keys, i - 1) + stored_text(keys[i - 1], objects[keys[i - 1]]).len()
    }
}

/// The cross-reference entry of the object under `keys[i]`.
pub open spec fn entry_of(objects: Map<usize, Value>, keys: Seq<usize>, i: int) -> UsedObject {
    UsedObject {
        number: keys[i],
        byte_offset: saturated(offset_of(objects, keys, i)),
        generation: stored_generation(objects[keys[i]]),
    }
}

/// The entries that the encoder lists for the objects from `keys[from]`
/// on are the entries of these objects, one for each.
pub proof fn lemma_body_entries(objects: Map<usize, Value>, keys: Seq<usize>, from: int)
    requires
        0 <= from <= keys.len(),
    ensures
        body_entries(objects, keys, from, offset_of(objects, keys, from)).len() == keys.len()
            - from,
        forall|j: int|
            0 <= j < keys.len() - from ==> #[trigger] body_entries(
                objects,
                keys,
                from,
                offset_of(objects, keys, from),
            )[j] == XrefEntry::Used(entry_of(objects, keys, from + j)),
    decreases keys.len() - from,
{
    if from < keys.len() {
        lemma_body_entries(objects, keys, from + 1);
        let rest = body_entries(objects, keys, from + 1, offset_of(objects, keys, from + 1));
        let all = body_entries(objects, keys, from, offset_of(objects, keys, from));
        assert(all == seq![XrefEntry::Used(entry_of(objects, keys, from))] + rest);
        assert forall|j: int| 0 <= j < keys.len() - from implies #[trigger] all[j]
            == XrefEntry::Used(entry_of(objects, keys, from + j)) by {
            if j > 0 {
                assert(all[j] == rest[j - 1]);
            }
        }
    }
}

/// Where the objects from `keys[from]` on are written one after another,
/// each of them stands at its place.
pub proof fn lemma_body_places(
    s: Seq<u8>,
    objects: Map<usize, Value>,
    keys: Seq<usize>,
    from: int,
    i: int,
)
    requires
        0 <= from <= i < keys.len(),
        matches_at(s, offset_of(objects, keys, from) as int, body_text(objects, keys, from)),
    ensures
        matches_at(
            s,
            offset_of(objects, keys, i) as int,
            stored_text(keys[i], objects[keys[i]]),
        ),
        offset_of(objects, keys, i) + stored_text(keys[i], objects[keys[i]]).len()
            <= offset_of(objects, keys, from) + body_text(objects, keys, from).len(),
    decreases i - from,
{
    let first = stored_text(keys[from], objects[keys[from]]);
    let rest = body_text(objects, keys, from + 1);
    assert(body_text(objects, keys, from) == first + rest);
    lemma_split(s, offset_of(objects, keys, from) as int, first, rest);
    if from < i {
        lemma_body_places(s, objects, keys, from + 1, i);
    }
}

/// The object `v` that is stored under `number`, as the indirect object
/// that it is written as.
pub open spec fn stored_value(number: usize, v: Value) -> Value {
    match v {
        Value::Indirect(_, _, _) => v,
        _ => Value::Indirect(number32(number), 0, Box::new(v)),
    }
}

/// The objects under the first `upto` of `keys`, as they are written.
pub open spec fn stored_objects(objects: Map<usize, Value>, keys: Seq<usize>, upto: int) -> Map<
    usize,
    Value,
> {
    Map::new(
        |number: usize| keys.take(upto).contains(number),
        |number: usize| stored_value(number, objects[number]),
    )
}

/// Each of the objects under `keys` can be written so that it is read
/// back, and its number is an integer of 32 bits.
pub open spec fn writable_objects(objects: Map<usize, Value>, keys: Seq<usize>) -> bool {
    forall|i: int|
        0 <= i < keys.len() ==> writable(stored_value(#[trigger] keys[i], objects[keys[i]]))
            && keys[i] < i32::MAX
}

/// Among entries that are all for objects that stand on their own,
/// `used_of` gives one for each, in their order.
pub proof fn lemma_used_of_all(entries: Seq<XrefEntry>)
    requires
        all_used(entries),
    ensures
        used_of(entries).len() == entries.len(),
        forall|j: int|
            0 <= j < entries.len() ==> XrefEntry::Used(#[trigger] used_of(entries)[j])
                == entries[j],
        compressed_of(entries).len() == 0,
    decreases entries.len(),
{
    if entries.len() > 0 {
        let front = entries.drop_last();
        assert forall|i: int| 0 <= i < front.len() implies (#[trigger] front[i]) is Used by {
            assert(front[i] == entries[i]);
        }
        lemma_used_of_all(front);
        assert(entries.last() == entries[entries.len() - 1]);
        assert forall|j: int| 0 <= j < entries.len() implies XrefEntry::Used(
            #[trigger] used_of(entries)[j],
        ) == entries[j] by {
            if j < front.len() {
                assert(used_of(entries)[j] == used_of(front)[j]);
                assert(front[j] == entries[j]);
            }
        }
    }
}

/// The objects of a document that the encoder wrote are read at the byte
/// offsets that its cross-reference entries name.
pub proof fn lemma_used_are_read(
    s: Seq<u8>,
    objects: Map<usize, Value>,
    keys: Seq<usize>,
    used: Seq<UsedObject>,
    i: int,
)
    requires
        0 <= i <= keys.len(),
        writable_objects(objects, keys),
        used.len() == keys.len(),
        forall|j: int| 0 <= j < keys.len() ==> #[trigger] used[j] == entry_of(objects, keys, j),
        matches_at(s, 15, body_text(objects, keys, 0)),
        15 + body_text(objects, keys, 0).len() <= usize::MAX,
    ensures
        spec_used_objects(s, used, i, stored_objects(objects, keys, i)) == Ok::<
            Map<usize, Value>,
            (int, ParseFault),
        >(stored_objects(objects, keys, keys.len() as int)),
    decreases keys.len() - i,
{
    if i < keys.len() {
        let k = keys[i];
        let v = stored_value(k, objects[k]);
        lemma_body_places(s, objects, keys, 0, i);
        let at = offset_of(objects, keys, i) as int;
        assert(used[i] == entry_of(objects, keys, i));
        assert(stored_text(k, objects[k]) == value_text(v) + seq![LF]);
        lemma_split(s, at, value_text(v), seq![LF]);
        assert(writable(v));
        match v {
            Value::Indirect(index, generation, inner) => {
                assert(writable_body(*inner));
                lemma_indirect_reads_back(s, at, index, generation, *inner);
            },
            _ => {},
        }
        lemma_used_are_read(s, objects, keys, used, i + 1);
        let seen = keys.take(i);
        let next = keys.take(i + 1);
        assert(stored_objects(objects, keys, i).insert(k, v) =~= stored_objects(
            objects,
            keys,
            i + 1,
        )) by {
            assert forall|number: usize|
                next.contains(number) <==> (seen.contains(number) || number == k) by {
                if next.contains(number) {
                    let x = choose|x: int| 0 <= x < next.len() && #[trigger] next[x] == number;
                    if x < i {
                        assert(seen[x] == number);
                    }
                }
                if seen.contains(number) {
                    let x = choose|x: int| 0 <= x < seen.len() && #[trigger] seen[x] == number;
                    assert(next[x] == number);
                }
                assert(next[i] == k);
            }
        }
    }
}

/// The entries that the encoder lists for the objects of a document, from
/// the first object on, which is written behind the header.
pub open spec fn listed_entries(objects: Map<usize, Value>, keys: Seq<usize>) -> Seq<XrefEntry> {
    body_entries(objects, keys, 0, 15)
}

/// The cross-reference stream that the encoder writes for the objects of
/// a document, in its indirect object.
pub open spec fn listed_xref(t: TrailerValue, objects: Map<usize, Value>, keys: Seq<usize>) -> Value {
    xref_object(
        listed_entries(objects, keys),
        None,
        identity_part(t) + xref_part(listed_entries(objects, keys)),
    )
}

/// The payload of the cross-reference stream that the encoder writes for
/// the objects of a document.
pub open spec fn listed_data(objects: Map<usize, Value>, keys: Seq<usize>) -> Seq<u8> {
    entries_data(
        listed_entries(objects, keys),
        0,
        field_widths(listed_entries(objects, keys), keys.len() as int),
    )
}

/// The revision that is read from a document that the encoder wrote: at
/// the offset `b`, with the objects as they were written, the trailer that
/// the cross-reference stream stands for, and the entries of the stream.
pub open spec fn read_section(
    t: TrailerValue,
    objects: Map<usize, Value>,
    keys: Seq<usize>,
    b: usize,
) -> SectionValue {
    SectionValue {
        offset: b,
        objects: stored_objects(objects, keys, keys.len() as int),
        trailer: Some(
            read_trailer(t, successor(highest_number(listed_entries(objects, keys)))),
        ),
        xref: listed_entries(objects, keys),
        kind: Some(
            XrefKind::Stream {
                number: xref_identity(listed_entries(objects, keys), None).0,
                generation: xref_identity(listed_entries(objects, keys), None).1,
            },
        ),
    }
}

/// What the encoder lists for the objects of a document: an entry for
/// each, in the order of the numbers, all of them for objects that stand on
/// their own.
pub proof fn lemma_listed_entries(objects: Map<usize, Value>, keys: Seq<usize>)
    requires
        increasing(keys),
        writable_objects(objects, keys),
    ensures
        listed_entries(objects, keys).len() == keys.len(),
        all_used(listed_entries(objects, keys)),
        ordered_by_number(listed_entries(objects, keys)),
        forall|k: int|
            0 <= k < keys.len() ==> (#[trigger] listed_entries(objects, keys)[k]).number()
                < i32::MAX,
        forall|j: int|
            0 <= j < keys.len() ==> #[trigger] used_of(listed_entries(objects, keys))[j]
                == entry_of(objects, keys, j),
        used_of(listed_entries(objects, keys)).len() == keys.len(),
        compressed_of(listed_entries(objects, keys)).len() == 0,
{
    let e = listed_entries(objects, keys);
    lemma_body_entries(objects, keys, 0);
    assert forall|j: int| 0 <= j < keys.len() implies #[trigger] e[j] == XrefEntry::Used(
        entry_of(objects, keys, j),
    ) by {
        assert(e[j] == body_entries(objects, keys, 0, offset_of(objects, keys, 0))[j]);
    }
    assert(all_used(e));
    lemma_used_of_all(e);
    assert forall|i: int, j: int| 0 <= i <= j < e.len() implies e[i].number()
        <= e[j].number() by {
        assert(e[i] == XrefEntry::Used(entry_of(objects, keys, i)));
        assert(e[j] == XrefEntry::Used(entry_of(objects, keys, j)));
    }
    assert forall|k: int| 0 <= k < keys.len() implies (#[trigger] e[k]).number() < i32::MAX by {
        assert(e[k] == XrefEntry::Used(entry_of(objects, keys, k)));
        assert(keys[k] < i32::MAX);
    }
    assert forall|j: int| 0 <= j < keys.len() implies #[trigger] used_of(e)[j] == entry_of(
        objects,
        keys,
        j,
    ) by {
        assert(XrefEntry::Used(used_of(e)[j]) == e[j]);
        assert(e[j] == XrefEntry::Used(entry_of(objects, keys, j)));
    }
}

/// The revision of a document that the encoder wrote is read where its
/// cross-reference stream stands.
pub proof fn lemma_section_is_read(
    s: Seq<u8>,
    t: TrailerValue,
    objects: Map<usize, Value>,
    keys: Seq<usize>,
    b: usize,
    upper: int,
)
    requires
        writable_identity(t),
        increasing(keys),
        writable_objects(objects, keys),
        matches_at(s, 15, body_text(objects, keys, 0)),
        b == 15 + body_text(objects, keys, 0).len(),
        matches_at(s, b as int, value_text(listed_xref(t, objects, keys))),
        listed_data(objects, keys).len() <= i32::MAX,
    ensures
        spec_head(s, b, upper) == Ok::<SectionValue, (int, ParseFault)>(
            read_section(t, objects, keys, b),
        ),
        ByteClass::Digit.holds(s[b as int]),
{
    let e = listed_entries(objects, keys);
    lemma_listed_entries(objects, keys);
    lemma_xref_is_read(s, b as int, t, e);
    let used = used_of(e);
    assert(stored_objects(objects, keys, 0) =~= Map::<usize, Value>::empty()) by {
        assert(keys.take(0) =~= Seq::<usize>::empty());
    }
    lemma_used_are_read(s, objects, keys, used, 0);
    let data = listed_data(objects, keys);
    let read = read_dictionary(t, e, data.len());
    assert(spec_revision_trailer(s, Some(read), skip_noise(
        s,
        b + value_text(listed_xref(t, objects, keys)).len(),
    ), upper) == Ok::<Option<TrailerValue>, ParseFault>(
        Some(read_trailer(t, successor(highest_number(e)))),
    ));
}

/// A document that has one revision whose trailer names no previous one,
/// and whose cross-reference section names no object stream, is read as
/// that revision.
pub proof fn lemma_single_revision(s: Seq<u8>, b: usize, upper: int, section: SectionValue)
    requires
        spec_head(s, b, upper) == Ok::<SectionValue, (int, ParseFault)>(section),
        section.trailer matches Some(t) ==> t.previous is None,
        compressed_of(section.xref).len() == 0,
    ensures
        spec_revisions(s, b, upper) == Ok::<Seq<SectionValue>, (int, ParseFault, usize)>(
            seq![section],
        ),
{
    assert(next_offset(section.trailer, b) is None);
    assert(spec_heads(s, b, upper) == Ok::<Seq<SectionValue>, (int, ParseFault, usize)>(
        seq![section],
    ));
    let heads = seq![section];
    assert(heads.last() == section);
    assert(spec_resolve_entries(
        compressed_of(section.xref),
        0,
        section.objects,
        Seq::<SectionValue>::empty(),
    ) == Ok::<Map<usize, Value>, ParseFault>(section.objects));
    assert(spec_resolve_section(section, Seq::<SectionValue>::empty()) == Ok::<
        SectionValue,
        ParseFault,
    >(section));
    assert(heads.drop_last() =~= Seq::<SectionValue>::empty());
    assert(seq![section] + Seq::<SectionValue>::empty() =~= seq![section]);
    assert(spec_resolve(heads.drop_last(), seq![section] + Seq::<SectionValue>::empty())
        == Ok::<Seq<SectionValue>, (int, ParseFault, usize)>(seq![section]));
}

/// A document of which the encoder writes what the parser reads back: it
/// has a revision with a trailer; what the trailer says of the document and
/// every object can be written so that it is read back; the numbers of the
/// objects are integers of 32 bits, and there are finitely many; and the
/// document that is written and the payload of its cross-reference stream
/// are not too long for their lengths to be written down.
pub open spec fn plain_document(pdf: PdfValue) -> bool {
    let objects = merged(pdf.sections);
    let keys = listing(objects.dom());
    &&& pdf.sections.len() >= 1
    &&& pdf.sections[0].trailer is Some
    &&& writable_identity(pdf.sections[0].trailer->0)
    &&& is_listing(keys, objects.dom())
    &&& writable_objects(objects, keys)
    &&& document_text(pdf).len() <= usize::MAX
    &&& listed_data(objects, keys).len() <= i32::MAX
}

/// What is read from the document that the encoder writes for `pdf`: the
/// version 1.7, binary content announced, and one revision with all objects
/// of `pdf`, of each number the newest.
pub open spec fn read_document(pdf: PdfValue) -> PdfValue {
    let objects = merged(pdf.sections);
    let keys = listing(objects.dom());
    PdfValue {
        version: (1u8, 7u8),
        announced_binary: true,
        sections: seq![
            read_section(
                pdf.sections[0].trailer->0,
                objects,
                keys,
                (15 + body_text(objects, keys, 0).len()) as usize,
            ),
        ],
    }
}

/// The document that the encoder writes is made of the header and the
/// objects, the cross-reference stream, and the end of the document.
pub proof fn lemma_document_layout(pdf: PdfValue)
    requires
        pdf.sections.len() >= 1,
        pdf.sections[0].trailer is Some,
    ensures
        document_text(pdf) == (((header_text() + body_text(
            merged(pdf.sections),
            listing(merged(pdf.sections).dom()),
            0,
        )) + value_text(
            listed_xref(
                pdf.sections[0].trailer->0,
                merged(pdf.sections),
                listing(merged(pdf.sections).dom()),
            ),
        )) + seq![LF]) + tail_text(
            15 + body_text(merged(pdf.sections), listing(merged(pdf.sections).dom()), 0).len(),
        ),
        header_text().len() == 15,
{
    lemma_frame_bytes();
    let t = pdf.sections[0].trailer->0;
    let objects = merged(pdf.sections);
    let keys = listing(objects.dom());
    let e = listed_entries(objects, keys);
    lemma_identity_part(t);
    lemma_xref_part(t, e);
    assert(identity_dictionary(pdf.sections) == identity_part(t));
    let body = header_text() + body_text(objects, keys, 0);
    let xt = value_text(listed_xref(t, objects, keys));
    assert(body.len() == 15 + body_text(objects, keys, 0).len());
    assert(body + xt + seq![LF] + kw("startxref\n") + unsigned_text(body.len()) + kw(
        "\n%%EOF\n",
    ) =~= ((body + xt) + seq![LF]) + tail_text(body.len()));
}

/// Where the parts of the document that the encoder writes stand in it.
pub proof fn lemma_document_places(pdf: PdfValue)
    requires
        pdf.sections.len() >= 1,
        pdf.sections[0].trailer is Some,
    ensures
        ({
            let s = document_text(pdf);
            let t = pdf.sections[0].trailer->0;
            let objects = merged(pdf.sections);
            let keys = listing(objects.dom());
            let bt = body_text(objects, keys, 0);
            let xt = value_text(listed_xref(t, objects, keys));
            let b = 15 + bt.len();
            &&& matches_at(s, 0, header_text())
            &&& matches_at(s, 15, bt)
            &&& matches_at(s, b as int, xt)
            &&& matches_at(s, (b + xt.len() + 1) as int, tail_text(b))
            &&& b + xt.len() + 1 + tail_text(b).len() == s.len()
        }),
{
    let s = document_text(pdf);
    let t = pdf.sections[0].trailer->0;
    let objects = merged(pdf.sections);
    let keys = listing(objects.dom());
    let bt = body_text(objects, keys, 0);
    let body = header_text() + bt;
    let xt = value_text(listed_xref(t, objects, keys));
    let b = 15 + bt.len();
    lemma_document_layout(pdf);
    assert(s.subrange(0, s.len() as int) =~= s);
    lemma_split(s, 0, (body + xt) + seq![LF], tail_text(b));
    lemma_split(s, 0, body + xt, seq![LF]);
    lemma_split(s, 0, body, xt);
    lemma_split(s, 0, header_text(), bt);
}

/// A document whose header, end and revisions are read is read.
pub proof fn lemma_parse_of_parts(
    s: Seq<u8>,
    version: (u8, u8),
    binary: bool,
    after: int,
    keyword: int,
    offset: usize,
    sections: Seq<SectionValue>,
)
    requires
        spec_header(s) == Some((version, binary, after)),
        spec_start(s) == Ok::<(int, usize), ParseFault>((keyword, offset)),
        spec_revisions(s, offset, keyword) == Ok::<
            Seq<SectionValue>,
            (int, ParseFault, usize),
        >(sections),
    ensures
        spec_parse(s) == Ok::<PdfValue, (int, ParseFault, Option<usize>)>(
            PdfValue { version, announced_binary: binary, sections },
        ),
{
}

/// The first object of the document that the encoder writes does not
/// start with whitespace.
pub proof fn lemma_first_object(
    s: Seq<u8>,
    objects: Map<usize, Value>,
    keys: Seq<usize>,
)
    requires
        keys.len() > 0,
        writable_objects(objects, keys),
        matches_at(s, 15, body_text(objects, keys, 0)),
    ensures
        15 < s.len(),
        !ByteClass::Space.holds(s[15]),
{
    let v = stored_value(keys[0], objects[keys[0]]);
    lemma_body_places(s, objects, keys, 0, 0);
    assert(stored_text(keys[0], objects[keys[0]]) == value_text(v) + seq![LF]);
    lemma_split(s, 15, value_text(v), seq![LF]);
    lemma_value_start(v);
    lemma_byte(s, 15, value_text(v), 0);
}

/// The document that the encoder writes for a plain document is read
/// back: as one revision that holds all objects, of each number the
/// newest.
pub proof fn lemma_document_reads_back(pdf: PdfValue)
    requires
        plain_document(pdf),
    ensures
        spec_parse(document_text(pdf)) == Ok::<PdfValue, (int, ParseFault, Option<usize>)>(
            read_document(pdf),
        ),
{
    let s = document_text(pdf);
    let t = pdf.sections[0].trailer->0;
    let objects = merged(pdf.sections);
    let keys = listing(objects.dom());
    let bt = body_text(objects, keys, 0);
    let xt = value_text(listed_xref(t, objects, keys));
    let b = 15 + bt.len();
    let kpos = (b + xt.len() + 1) as int;
    lemma_document_places(pdf);
    assert(b <= usize::MAX);
    lemma_tail_is_read(s, kpos, b);
    lemma_section_is_read(s, t, objects, keys, b as usize, kpos);
    let section = read_section(t, objects, keys, b as usize);
    lemma_listed_entries(objects, keys);
    lemma_single_revision(s, b as usize, kpos, section);
    if keys.len() > 0 {
        lemma_first_object(s, objects, keys);
    } else {
        assert(bt =~= Seq::<u8>::empty());
    }
    lemma_header_is_read(s);
    lemma_parse_of_parts(s, (1u8, 7u8), true, 15, kpos, b as usize, seq![section]);
}

/// Every object of `objects` is an indirect object.
pub open spec fn all_indirect(objects: Map<usize, Value>) -> bool {
    forall|number: usize| objects.contains_key(number) ==> (#[trigger] objects[number]) is Indirect
}

/// What `reference` refers to among `objects`: the inner object of the
/// indirect object under its number, if that has its number and generation.
pub open spec fn found_in(objects: Map<usize, Value>, reference: Reference) -> Option<Value> {
    if objects.contains_key(reference.index as usize) {
        referred(objects[reference.index as usize], reference)
    } else {
        None
    }
}

/// Every reference is served by the newest object of its number: it refers
/// to what that object gives for it, and to nothing in older revisions
/// where that object has another generation.
pub open spec fn newest_serve(sections: Seq<SectionValue>) -> bool {
    forall|reference: Reference| #[trigger]
        resolve(sections, 0, reference) == found_in(merged(sections), reference)
}

/// The objects of a document of one revision are the objects of that
/// revision.
pub proof fn lemma_merged_single(a: SectionValue)
    ensures
        merged(seq![a]) =~= a.objects,
{
    let sections = seq![a];
    assert(sections[0] == a);
    assert forall|number: usize| merged(sections).contains_key(number) == a.objects.contains_key(
        number,
    ) by {
        assert(lookup(sections, 1, number) is None);
    }
    assert forall|number: usize| merged(sections).contains_key(number) implies merged(
        sections,
    )[number] == a.objects[number] by {
        assert(lookup(sections, 1, number) is None);
    }
}

/// In a document of one revision every reference is served by the newest
/// object of its number.
pub proof fn lemma_single_serves(a: SectionValue)
    ensures
        newest_serve(seq![a]),
{
    let sections = seq![a];
    lemma_merged_single(a);
    assert(sections[0] == a);
    assert forall|reference: Reference| #[trigger]
        resolve(sections, 0, reference) == found_in(merged(sections), reference) by {
        assert(resolve(sections, 1, reference) is None);
    }
}

/// Round trip: a plain document whose objects are all indirect objects,
/// and in which every reference is served by the newest object of its
/// number, has the same catalog after it was written and read back.
pub proof fn lemma_catalog_survives(pdf: PdfValue)
    requires
        plain_document(pdf),
        newest_serve(pdf.sections),
        all_indirect(merged(pdf.sections)),
    ensures
        spec_parse(document_text(pdf)) == Ok::<PdfValue, (int, ParseFault, Option<usize>)>(
            read_document(pdf),
        ),
        spec_document_catalog(read_document(pdf)) == spec_document_catalog(pdf),
{
    lemma_document_reads_back(pdf);
    let t = pdf.sections[0].trailer->0;
    let objects = merged(pdf.sections);
    let keys = listing(objects.dom());
    let read = read_document(pdf).sections[0];
    assert(read_document(pdf).sections =~= seq![read]);
    assert(read.objects =~= objects) by {
        assert(keys.take(keys.len() as int) =~= keys);
    }
    lemma_single_serves(read);
    lemma_merged_single(read);
    assert forall|reference: Reference|
        resolve(seq![read], 0, reference) == resolve(pdf.sections, 0, reference) by {
        assert(resolve(seq![read], 0, reference) == found_in(merged(seq![read]), reference));
        assert(resolve(pdf.sections, 0, reference) == found_in(objects, reference));
    }
    lemma_same_catalog(
        PdfValue { version: (1u8, 7u8), announced_binary: true, sections: seq![read] },
        pdf,
    );
}

/// Two documents in which every reference refers to the same object, and
/// whose newest trailers name the same root, have the same catalog.
pub proof fn lemma_same_catalog(a: PdfValue, b: PdfValue)
    requires
        a.sections.len() >= 1,
        b.sections.len() >= 1,
        a.sections[0].trailer is Some,
        b.sections[0].trailer is Some,
        a.sections[0].trailer->0.root == b.sections[0].trailer->0.root,
        forall|reference: Reference|
            resolve(a.sections, 0, reference) == resolve(b.sections, 0, reference),
    ensures
        spec_document_catalog(a) == spec_document_catalog(b),
{
    match resolve(a.sections, 0, a.sections[0].trailer->0.root) {
        Some(Value::Dictionary(d)) => {
            assert(spec_catalog(a.sections, d) == spec_catalog(b.sections, d));
        },
        _ => {},
    }
}

} // verus!
