use claybrick::parse::error::{CbParseErrorKind, Context, XrefError};
use claybrick::parse::object::{
    array_object, dictionary_object, indirect_object, require_termination,
};
use claybrick::parse::xref::{eof_marker_tail, startxref_tail, xref, xref_stream_data};
use claybrick::parse::{backward_search, binary_indicator, header, version, Span};
use claybrick::pdf::xref::{
    FreeObject, Unsupported, UsedCompressedObject, UsedObject, XrefEntry, XrefKind,
};

#[test]
fn test_backward_search() {
    let input = &b"Hello World!"[..];

    let res = backward_search(6, b"World", false, Span::new(input)).unwrap();
    assert_eq!(res.0.fragment(), &b"Hello "[..]);
    assert_eq!(res.1 .0.fragment(), &b"!"[..]);
    assert_eq!(res.1 .1.fragment(), &b"World"[..]);

    let res = backward_search(5, b"World", false, Span::new(input));
    let err = res.unwrap_err();
    assert_eq!(err.kind, CbParseErrorKind::BackwardSearchNotFound);
    assert_eq!(err.position, 0);
}

#[test]
fn backward_search_finds_the_last_match() {
    let input = &b"ab AB ab xx"[..];
    let res = backward_search(100, b"ab", false, Span::new(input)).unwrap();
    assert_eq!(res.0.fragment(), &b"ab AB "[..]);
    assert_eq!(res.1 .1.location_offset(), 6);
    let res = backward_search(8, b"AB", true, Span::new(input)).unwrap();
    assert_eq!(res.0.fragment(), &b"ab AB "[..]);
    let res = backward_search(8, b"AB", false, Span::new(input)).unwrap();
    assert_eq!(res.0.fragment(), &b"ab "[..]);
    assert_eq!(res.1 .0.fragment(), &b" ab xx"[..]);
}

#[test]
fn test_parse_version() {
    assert_eq!((1, 8), version(Span::new(b"%PDF-1.8")).unwrap().1);
}

#[test]
fn version_must_fit_a_byte() {
    assert_eq!((255, 0), version(Span::new(b"%pdf-255.0 \n")).unwrap().1);
    let err = version(Span::new(b"%PDF-256.0")).unwrap_err();
    assert_eq!(err.kind, CbParseErrorKind::Generic(Context::Header));
    assert!(version(Span::new(b"%PDF-1")).is_err());
    assert!(version(Span::new(b"PDF-1.4")).is_err());
}

#[test]
fn test_parse_binary_indicator() {
    assert!(binary_indicator(Span::new(b"%\xbf\xbf\xbf\xbf\xbf\n")).unwrap().1);
}

#[test]
fn binary_indicator_rewinds() {
    let (rest, announced) = binary_indicator(Span::new(b"%\xbf\xbf\xbf\n1 0 obj")).unwrap();
    assert!(!announced);
    assert_eq!(rest.location_offset(), 0);
    let (rest, announced) = binary_indicator(Span::new(b"%abcd\n1 0 obj")).unwrap();
    assert!(!announced);
    assert_eq!(rest.location_offset(), 0);
    let (rest, announced) = binary_indicator(Span::new(b"1 0 obj")).unwrap();
    assert!(!announced);
    assert_eq!(rest.fragment(), b"1 0 obj");
    let (rest, announced) = binary_indicator(Span::new(b" %\xe2\xe3\xcf\xd3\r\n 1 0 obj")).unwrap();
    assert!(announced);
    assert_eq!(rest.fragment(), b"1 0 obj");
}

#[test]
fn header_gives_version_and_indicator() {
    let (rest, (v, binary)) = header(Span::new(b"  %PDF-1.7\n%\xbf\xbf\xbf\xbf\xbf\n1 0 obj")).unwrap();
    assert_eq!(v, (1, 7));
    assert!(binary);
    assert_eq!(rest.fragment(), b"1 0 obj");
    let (rest, (v, binary)) = header(Span::new(b"%PDF-1.4\n1 0 obj")).unwrap();
    assert_eq!(v, (1, 4));
    assert!(!binary);
    assert_eq!(rest.fragment(), b"1 0 obj");
}

#[test]
fn test_startxref_tail() {
    let input = &b"         startxref\n2132"[..];
    let res = startxref_tail(Span::new(input));
    assert!(matches!(res, Ok((_, 2132))));

    let input = &b"         startxref\n555\nasdfsadfasdfsadfasdfsadfsadf"[..];
    let res = startxref_tail(Span::new(input));
    assert!(matches!(res, Ok((_, 555))));
}

#[test]
fn test_invalid_startxref_tail() {
    // to big
    let input = &b"         startxref\n9999999999999999999999999999999"[..];
    let res = startxref_tail(Span::new(input));
    assert!(matches!(res, Err(_)));
    assert_eq!(res.unwrap_err().kind, CbParseErrorKind::StartxrefInvalid);
}

#[test]
fn startxref_without_offset_is_invalid() {
    let err = startxref_tail(Span::new(b"startxref\n%%EOF")).unwrap_err();
    assert_eq!(err.kind, CbParseErrorKind::StartxrefInvalid);
    let err = startxref_tail(Span::new(b"xref\n12\n")).unwrap_err();
    assert_eq!(err.kind, CbParseErrorKind::BackwardSearchNotFound);
}

#[test]
fn eof_marker_allows_four_trailing_bytes() {
    let (rest, _) = eof_marker_tail(Span::new(b"abc\n%%EOF\r\n\r\n")).unwrap();
    assert_eq!(rest.fragment(), b"abc\n");
    let err = eof_marker_tail(Span::new(b"abc\n%%EOF\r\n\r\n ")).unwrap_err();
    assert_eq!(err.kind, CbParseErrorKind::BackwardSearchNotFound);
}

#[test]
fn xref_table_is_sorted_by_number() {
    let input = b"xref\n3 2\n0000000100 00000 n\r\n0000000200 00001 n\r\n0 1\n0000000000 65535 f\r\ntrailer";
    let (rest, x) = xref(Span::new(input)).unwrap();
    assert_eq!(rest.fragment(), b"trailer");
    assert_eq!(x.kind(), Some(XrefKind::Table));
    assert_eq!(
        x.entries(),
        vec![
            XrefEntry::Free(FreeObject { number: 0, generation: 65535, next_free: 0 }),
            XrefEntry::Used(UsedObject { number: 3, byte_offset: 100, generation: 0 }),
            XrefEntry::Used(UsedObject { number: 4, byte_offset: 200, generation: 1 }),
        ]
    );
    assert_eq!(x.used_objects().len(), 2);
    assert_eq!(x.free_objects().len(), 1);
    assert_eq!(x.compressed_objects().len(), 0);
    assert_eq!(x.highest_index(), 4);
}

#[test]
fn xref_table_needs_all_entries_of_the_first_subsection() {
    let err = xref(Span::new(b"xref\n0 2\n0000000000 65535 f\r\n")).unwrap_err();
    assert_eq!(err.kind, CbParseErrorKind::Generic(Context::Xref));
    let err = xref(Span::new(b"1 0 R")).unwrap_err();
    assert_eq!(err.kind, CbParseErrorKind::XrefInvalid(XrefError::StreamObject));
}

#[test]
fn xref_stream_data_reads_big_endian_triples() {
    let data = [0u8, 0, 3, 255, 1, 1, 0, 0, 2, 0, 7, 4, 9, 1, 2, 3, 77];
    let entries = xref_stream_data([1, 2, 1], &vec![(0, usize::MAX)], &data).unwrap();
    assert_eq!(
        entries,
        vec![
            XrefEntry::Free(FreeObject { number: 0, generation: 255, next_free: 3 }),
            XrefEntry::Used(UsedObject { number: 1, byte_offset: 256, generation: 0 }),
            XrefEntry::UsedCompressed(UsedCompressedObject {
                number: 2,
                containing_object: 7,
                index: 4
            }),
            XrefEntry::Unsupported(Unsupported { number: 3, type_num: 9, w1: 258, w2: 3 }),
        ]
    );
}

#[test]
fn xref_stream_data_honours_sections() {
    let data = [1u8, 10, 1, 20, 1, 30, 1, 40];
    let entries = xref_stream_data([1, 1, 0], &vec![(5, 1), (9, 2)], &data).unwrap();
    assert_eq!(
        entries,
        vec![
            XrefEntry::Used(UsedObject { number: 5, byte_offset: 10, generation: 0 }),
            XrefEntry::Used(UsedObject { number: 9, byte_offset: 20, generation: 0 }),
            XrefEntry::Used(UsedObject { number: 10, byte_offset: 30, generation: 0 }),
        ]
    );
    assert_eq!(xref_stream_data([0, 0, 0], &vec![(0, 9)], &data), Some(vec![]));
    assert_eq!(xref_stream_data([0, 9, 0], &vec![(0, 9)], &[255; 9]), None);
}

fn xref_stream(dictionary: &str, data: &[u8]) -> Vec<u8> {
    let mut input = Vec::new();
    input.extend_from_slice(
        format!("7 0 obj\n<< {} /Length {} >>\nstream\n", dictionary, data.len()).as_bytes(),
    );
    input.extend_from_slice(data);
    input.extend_from_slice(b"\nendstream\nendobj\n");
    input
}

#[test]
fn xref_stream_is_read_from_its_object() {
    let input = xref_stream("/Type /XRef /W [1 1 1] /Size 2", &[0, 0, 255, 1, 9, 0]);
    let (rest, x) = xref(Span::new(&input)).unwrap();
    assert_eq!(rest.fragment(), b"");
    assert_eq!(x.kind(), Some(XrefKind::Stream { number: 7, generation: 0 }));
    assert_eq!(
        x.entries(),
        vec![
            XrefEntry::Free(FreeObject { number: 0, generation: 255, next_free: 0 }),
            XrefEntry::Used(UsedObject { number: 1, byte_offset: 9, generation: 0 }),
        ]
    );
}

#[test]
fn xref_stream_errors_are_told_apart() {
    let kind = |dictionary: &str, data: &[u8]| {
        xref(Span::new(&xref_stream(dictionary, data))).unwrap_err().kind
    };
    let w = CbParseErrorKind::XrefInvalid(XrefError::WEntry);
    assert_eq!(kind("/Type /XRef", &[]), w);
    assert_eq!(kind("/Type /XRef /W 3", &[]), w);
    assert_eq!(kind("/Type /XRef /W [1 1]", &[]), w);
    assert_eq!(kind("/Type /XRef /W [1 (a) 1]", &[]), w);
    assert_eq!(kind("/Type /XRef /W [1 -1 1]", &[]), w);
    assert_eq!(kind("/Type /XRef /W [0 0 0]", &[]), w);
    let o = CbParseErrorKind::XrefInvalid(XrefError::StreamObject);
    assert_eq!(kind("/W [1 1 1]", &[]), o);
    assert_eq!(kind("/Type /ObjStm /W [1 1 1]", &[]), o);
    assert_eq!(kind("/Type /XRef /W [1 1 1] /Index 5", &[]), o);
    assert_eq!(xref(Span::new(b"7 0 obj (no stream) endobj")).unwrap_err().kind, o);
    assert_eq!(
        kind("/Type /XRef /W [1 9 1]", &[1, 255, 255, 255, 255, 255, 255, 255, 255, 255, 0]),
        CbParseErrorKind::XrefInvalid(XrefError::StreamContent)
    );
    assert_eq!(
        kind("/Type /XRef /W [1 1 1] /Filter /FlateDecode", &[1, 2, 3]),
        CbParseErrorKind::StreamError(claybrick::parse::error::FilterError::InvalidData)
    );
    assert_eq!(
        kind("/Type /XRef /W [1 1 1] /Filter /DCTDecode", &[1, 2, 3]),
        CbParseErrorKind::StreamError(claybrick::parse::error::FilterError::UnsupportedFilter(
            claybrick::pdf::object::Name::from_str("DCTDecode")
        ))
    );
}

#[test]
fn parsers_report_their_part_of_the_grammar() {
    assert_eq!(
        require_termination(Span::new(b"x")).unwrap_err().kind,
        CbParseErrorKind::Generic(Context::Termination)
    );
    assert_eq!(
        array_object(Span::new(b"[1 2")).unwrap_err().kind,
        CbParseErrorKind::Generic(Context::Array)
    );
    assert_eq!(
        dictionary_object(Span::new(b"<< /A >>")).unwrap_err().kind,
        CbParseErrorKind::Generic(Context::Dictionary)
    );
    assert_eq!(
        indirect_object(Span::new(b"1 0 obj 5")).unwrap_err().kind,
        CbParseErrorKind::Generic(Context::IndirectObject)
    );
    let (rest, a) = array_object(Span::new(b"[ /a ] x")).unwrap();
    assert_eq!(a.len(), 1);
    assert_eq!(rest.fragment(), b"x");
    assert!(!rest.is_empty());
    assert_eq!(rest.len(), 1);
}
