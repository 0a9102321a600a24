use claybrick::error::CbError;
use claybrick::parse::assemble::{parse_complete, pdf_section};
use claybrick::parse::error::{CbParseErrorKind, Context, TrailerError};
use claybrick::parse::object_stream::object_stream;
use claybrick::parse::trailer::trailer_tail;
use claybrick::parse::Span;
use claybrick::pdf::document::{CatalogError, Pages, PagesError};
use claybrick::pdf::object::{
    Array, Bytes, Dictionary, IndirectObject, Name, Object, Reference, Stream,
};
use claybrick::pdf::trailer::Trailer;
use claybrick::pdf::xref::{FreeObject, UsedObject, XrefEntry, XrefKind};
use claybrick::read;
use claybrick::simple_encode::SimpleEncoder;
use claybrick::writer::Encoder;
use std::io::Write;

fn dictionary(entries: Vec<(&str, Object)>) -> Dictionary {
    let mut d = Dictionary::new();
    for (key, value) in entries {
        d.insert(Name::from_str(key), value);
    }
    d
}

fn name(n: &str) -> Object {
    Object::Name(Name::from_str(n))
}

fn reference(index: u32, generation: u32) -> Object {
    Object::Reference(Reference { index, generation })
}

fn pad_to(file: &mut Vec<u8>, offset: usize) {
    assert!(file.len() <= offset, "{} is beyond {}", file.len(), offset);
    while file.len() < offset {
        file.push(b'\n');
    }
}

fn minimal_file() -> Vec<u8> {
    let mut file = Vec::new();
    file.extend_from_slice(b"%PDF-1.7\n%\xbf\xbf\xbf\xbf\xbf\n");
    pad_to(&mut file, 17);
    file.extend_from_slice(b"1 0 obj\n<< /Type /Catalog /Pages 2 0 R >>\nendobj\n");
    pad_to(&mut file, 81);
    file.extend_from_slice(b"2 0 obj\n<</Kids[3 0 R]/Type/Pages/Count 1>>\nendobj\n");
    pad_to(&mut file, 134);
    file.extend_from_slice(b"xref\n0 6\n");
    file.extend_from_slice(
        b"0000000003 65535 f\r\n0000000017 00000 n\r\n0000000081 00000 n\r\n0000000000 00007 f\r\n0000000331 00000 n\r\n0000000409 00000 n\r\n",
    );
    pad_to(&mut file, 331);
    file.extend_from_slice(b"4 0 obj\n(four)\nendobj\n");
    pad_to(&mut file, 409);
    file.extend_from_slice(b"5 0 obj\n5\nendobj\n");
    file.extend_from_slice(b"startxref\n134\n%%EOF\n");
    file
}

#[test]
fn minimal_valid_file() {
    let file = minimal_file();
    let pdf = read(&file).unwrap();
    assert_eq!(pdf.version(), (1, 7));
    assert!(pdf.announced_binary());
    assert_eq!(pdf.section_count(), 1);
    let section = pdf.section(0).unwrap();
    assert_eq!(section.offset(), 134);
    assert_eq!(section.xref().kind(), Some(XrefKind::Table));
    assert_eq!(
        section.xref().entries(),
        vec![
            XrefEntry::Free(FreeObject { number: 0, generation: 65535, next_free: 3 }),
            XrefEntry::Used(UsedObject { number: 1, byte_offset: 17, generation: 0 }),
            XrefEntry::Used(UsedObject { number: 2, byte_offset: 81, generation: 0 }),
            XrefEntry::Free(FreeObject { number: 3, generation: 7, next_free: 0 }),
            XrefEntry::Used(UsedObject { number: 4, byte_offset: 331, generation: 0 }),
            XrefEntry::Used(UsedObject { number: 5, byte_offset: 409, generation: 0 }),
        ]
    );
    assert!(section.trailer().is_none());
    assert_eq!(
        section.object(1),
        Some(&Object::Indirect(IndirectObject {
            index: 1,
            generation: 0,
            object: Box::new(Object::Dictionary(dictionary(vec![
                ("Type", name("Catalog")),
                ("Pages", reference(2, 0)),
            ]))),
        }))
    );
    assert_eq!(
        section.object(2),
        Some(&Object::Indirect(IndirectObject {
            index: 2,
            generation: 0,
            object: Box::new(Object::Dictionary(dictionary(vec![
                ("Kids", Object::Array(Array(vec![reference(3, 0)]))),
                ("Type", name("Pages")),
                ("Count", Object::Integer(1)),
            ]))),
        }))
    );
    assert_eq!(section.object_count(), 4);
    assert_eq!(section.object(3), None);
    assert_eq!(pdf.catalog().err(), Some(CatalogError::MissingTrailer));
}

#[test]
fn keys_of_a_revision_come_from_its_xref() {
    let file = minimal_file();
    let pdf = read(&file).unwrap();
    let section = pdf.section(0).unwrap();
    let used: Vec<usize> = section.xref().used_objects().iter().map(|u| u.number).collect();
    for number in 0..10 {
        if section.object(number).is_some() {
            assert!(used.contains(&number));
        }
    }
}

#[test]
fn used_entries_have_objects() {
    let file = minimal_file();
    let pdf = read(&file).unwrap();
    let section = pdf.section(0).unwrap();
    let used = section.xref().used_objects();
    assert!(!used.is_empty());
    for entry in used {
        assert!(section.object(entry.number).is_some());
        assert!(pdf.object(entry.number).is_some());
    }
}

const TABLE_XREF: usize = 124;

fn table_file(trailer: &str) -> Vec<u8> {
    let mut file = Vec::new();
    file.extend_from_slice(b"%PDF-1.4\n");
    let first = file.len();
    file.extend_from_slice(b"1 0 obj\n<< /Type /Catalog /Pages 2 0 R /Version /1.4 >>\nendobj\n");
    let second = file.len();
    file.extend_from_slice(b"2 0 obj\n<< /Type /Pages /Kids [] /Count 0 >>\nendobj\n");
    let xref = file.len();
    assert_eq!(xref, TABLE_XREF);
    file.extend_from_slice(
        format!(
            "xref\n0 3\n0000000000 65535 f \n{:010} 00000 n \n{:010} 00000 n \n",
            first, second
        )
        .as_bytes(),
    );
    file.extend_from_slice(trailer.as_bytes());
    file.extend_from_slice(format!("\nstartxref\n{}\n%%EOF\n", xref).as_bytes());
    file
}

#[test]
fn trailer_follows_the_table() {
    let file = table_file("trailer\n<< /Size 3 /Root 1 0 R /Info 2 0 R /ID [<01ab> <02>] >>");
    let pdf = read(&file).unwrap();
    let t = pdf.section(0).unwrap().trailer().unwrap();
    assert_eq!(t.size, 3);
    assert_eq!(t.previous, None);
    assert_eq!(t.root, Reference { index: 1, generation: 0 });
    assert_eq!(t.info, Some(Reference { index: 2, generation: 0 }));
    assert_eq!(t.id, Some((Bytes(vec![1, 0xab]), Bytes(vec![2]))));
    assert_eq!(t.x_ref_stm, None);
    let catalog = pdf.catalog().unwrap();
    assert_eq!(catalog.version(), Some(&Name::from_str("1.4")));
    assert_eq!(catalog.pages().get(b"Count"), Some(&Object::Integer(0)));
    let pages = Pages::new_with(&pdf, catalog.pages()).ok().unwrap();
    assert_eq!(pages.count(), 0);
    assert_eq!(pages.kids().len(), 0);
}

#[test]
fn dereference_matches_number_and_generation() {
    let file = table_file("trailer\n<< /Size 3 /Root 1 0 R >>");
    let pdf = read(&file).unwrap();
    let found = pdf.dereference(&Reference { index: 2, generation: 0 }).unwrap();
    assert_eq!(found.dictionary().unwrap().get(b"Type"), Some(&name("Pages")));
    assert_eq!(pdf.dereference(&Reference { index: 2, generation: 1 }), None);
    assert_eq!(pdf.dereference(&Reference { index: 7, generation: 0 }), None);
    assert!(pdf.object(2).unwrap().indirect().is_some());
    assert_eq!(pdf.object(0), None);
}

#[test]
fn invalid_trailer_is_fatal() {
    let cases = vec![
        ("trailer << /Root 1 0 R >>", TrailerError::MissingSize),
        ("trailer << /Size (3) /Root 1 0 R >>", TrailerError::InvalidSize),
        ("trailer << /Size -3 /Root 1 0 R >>", TrailerError::InvalidSize),
        ("trailer << /Size 3 >>", TrailerError::MissingRoot),
        ("trailer << /Size 3 /Root 1 >>", TrailerError::InvalidRoot),
        ("trailer << /Size 3 /Root 1 0 R /Prev -1 >>", TrailerError::InvalidPrevious),
        ("trailer << /Size 3 /Root 1 0 R /Prev /x >>", TrailerError::InvalidPrevious),
        ("trailer << /Size 3 /Root 1 0 R /Info 7 >>", TrailerError::InvalidInfo),
        ("trailer << /Size 3 /Root 1 0 R /ID [<00>] >>", TrailerError::InvalidId),
        ("trailer << /Size 3 /Root 1 0 R /ID [<00> (a)] >>", TrailerError::InvalidId),
        ("trailer << /Size 3 /Root 1 0 R /ID 1 >>", TrailerError::InvalidId),
        ("trailer << /Size 3 /Root 1 0 R /XRefStm (x) >>", TrailerError::InvalidXRefStm),
    ];
    for (trailer, expected) in cases {
        let file = table_file(trailer);
        match read(&file) {
            Err(CbError::Parse(e)) => {
                assert_eq!(e.kind, CbParseErrorKind::InvalidTrailer(expected), "{}", trailer);
                assert_eq!(e.revision, Some(TABLE_XREF));
                assert_eq!(e.position, TABLE_XREF);
            }
            other => panic!("{}: {:?}", trailer, other.map(|_| ())),
        }
    }
    let file = table_file("trailer [1 2]");
    match read(&file) {
        Err(CbError::Parse(e)) => assert_eq!(e.kind, CbParseErrorKind::Generic(Context::Dictionary)),
        other => panic!("{:?}", other.map(|_| ())),
    }
}

#[test]
fn trailer_tail_searches_backward() {
    let input = b"xref...\ntrailer\n<< /Size 3 /Root 1 0 R /Encrypt << /V 1 >> /XRefStm 9 >>\nstartxref";
    let (rest, t) = trailer_tail(Span::new(input)).unwrap();
    assert_eq!(rest.fragment(), b"xref...\n");
    assert_eq!(t.size, 3);
    assert_eq!(t.x_ref_stm, Some(9));
    assert_eq!(t.encrypt, Some(dictionary(vec![("V", Object::Integer(1))])));
    let err = trailer_tail(Span::new(b"no such keyword")).unwrap_err();
    assert_eq!(err.kind, CbParseErrorKind::BackwardSearchNotFound);
}

#[test]
fn trailer_dictionary_reads_back() {
    let t = Trailer {
        size: 12,
        previous: Some(400),
        root: Reference { index: 1, generation: 0 },
        encrypt: Some(dictionary(vec![("V", Object::Integer(1))])),
        info: Some(Reference { index: 3, generation: 2 }),
        id: Some((Bytes(vec![1]), Bytes(vec![2, 3]))),
        x_ref_stm: Some(77),
    };
    let d = t.to_dictionary();
    assert_eq!(d.len(), 7);
    assert_eq!(Trailer::try_from(&d), Ok(t));
}

fn two_revisions(previous: usize) -> (Vec<u8>, usize, usize) {
    let mut file = table_file("trailer\n<< /Size 3 /Root 1 0 R >>");
    let old_xref = TABLE_XREF;
    let third = file.len();
    file.extend_from_slice(b"2 0 obj\n<< /Type /Pages /Kids [] /Count 0 /New true >>\nendobj\n");
    let xref = file.len();
    file.extend_from_slice(format!("xref\n2 1\n{:010} 00000 n \n", third).as_bytes());
    file.extend_from_slice(
        format!("trailer\n<< /Size 3 /Root 1 0 R /Prev {} >>\nstartxref\n{}\n%%EOF\n", previous, xref)
            .as_bytes(),
    );
    (file, xref, old_xref)
}

#[test]
fn revisions_are_followed_newest_first() {
    let (file, xref, old_xref) = two_revisions(TABLE_XREF);
    let pdf = read(&file).unwrap();
    assert_eq!(pdf.section_count(), 2);
    assert_eq!(pdf.section(0).unwrap().offset(), xref);
    assert_eq!(pdf.section(1).unwrap().offset(), old_xref);
    assert!(pdf.section(0).unwrap().offset() > pdf.section(1).unwrap().offset());
    assert_eq!(pdf.section(0).unwrap().trailer().unwrap().previous, Some(TABLE_XREF));
    let newest = pdf.dereference(&Reference { index: 2, generation: 0 }).unwrap();
    assert_eq!(newest.dictionary().unwrap().get(b"New"), Some(&Object::Bool(true)));
    assert!(pdf.section(1).unwrap().object(2).is_some());
    assert!(pdf.section(0).unwrap().object(1).is_none());
    assert!(pdf.catalog().is_ok());
}

#[test]
fn previous_offset_must_lie_before() {
    let (file, xref, _) = two_revisions(100000);
    let pdf = read(&file).unwrap();
    assert_eq!(pdf.section_count(), 1);
    let looping = two_revisions(xref).0;
    let pdf = read(&looping).unwrap();
    assert_eq!(pdf.section_count(), 1);
    assert_eq!(pdf.section(0).unwrap().offset(), xref);
}

#[test]
fn missing_anchors_are_fatal() {
    match read(b"%PDF-1.4\nxref\n0 0\n") {
        Err(CbError::Parse(e)) => {
            assert_eq!(e.kind, CbParseErrorKind::BackwardSearchNotFound);
            assert_eq!(e.position, 0);
            assert_eq!(e.revision, None);
        }
        other => panic!("{:?}", other.map(|_| ())),
    }
    match read(b"%PDF-1.4\nstartxref\n9999999999999999999999999999999\n%%EOF") {
        Err(CbError::Parse(e)) => assert_eq!(e.kind, CbParseErrorKind::StartxrefInvalid),
        other => panic!("{:?}", other.map(|_| ())),
    }
    match read(b"%PDF-1.4\nstartxref\n999\n%%EOF") {
        Err(CbError::Parse(e)) => {
            assert_eq!(e.kind, CbParseErrorKind::Generic(Context::Offset));
            assert_eq!(e.position, 28);
            assert_eq!(e.revision, Some(999));
        }
        other => panic!("{:?}", other.map(|_| ())),
    }
    match read(b"startxref\n0\n%%EOF") {
        Err(CbError::Parse(e)) => assert_eq!(e.kind, CbParseErrorKind::Generic(Context::Header)),
        other => panic!("{:?}", other.map(|_| ())),
    }
    let mut broken = table_file("trailer\n<< /Size 3 /Root 1 0 R >>");
    broken[9] = b'x';
    match read(&broken) {
        Err(CbError::Parse(e)) => {
            assert_eq!(e.kind, CbParseErrorKind::Generic(Context::IndirectObject));
            assert_eq!(e.position, 9);
            assert_eq!(e.revision, Some(TABLE_XREF));
        }
        other => panic!("{:?}", other.map(|_| ())),
    }
}

#[test]
fn pdf_section_returns_what_stands_before_startxref() {
    let file = table_file("trailer\n<< /Size 3 /Root 1 0 R >>");
    let (rest, sections) = pdf_section(Span::new(&file)).unwrap();
    assert_eq!(sections.len(), 1);
    assert!(rest.fragment().ends_with(b">>\n"));
    let (rest, pdf) = parse_complete(Span::new(&file)).unwrap();
    assert_eq!(rest.fragment().len(), file.len());
    assert_eq!(pdf.version(), (1, 4));
    assert!(!pdf.announced_binary());
}

#[test]
fn test_object_stream_empty() {
    let input_stream = Stream {
        dictionary: dictionary(vec![
            ("Type", name("ObjStm")),
            ("N", Object::Integer(0)),
            ("First", Object::Integer(0)),
            ("Length", Object::Integer(0)),
        ]),
        data: Bytes(b"".to_vec()),
    };

    assert_eq!(object_stream(&input_stream), Ok(vec![]))
}

#[test]
fn test_object_stream_single() {
    let data = Bytes(b"123 0 999".to_vec());
    let input_stream = Stream {
        dictionary: dictionary(vec![
            ("Type", name("ObjStm")),
            ("N", Object::Integer(1)),
            ("First", Object::Integer(6)),
            ("Length", Object::Integer(data.0.len().try_into().unwrap())),
        ]),
        data,
    };

    assert_eq!(object_stream(&input_stream), Ok(vec![(123, Object::Integer(999))]))
}

#[test]
fn object_stream_reports_what_is_wrong() {
    let stream = |entries: Vec<(&str, Object)>, data: &[u8]| Stream {
        dictionary: dictionary(entries),
        data: Bytes(data.to_vec()),
    };
    let full = |n: i32, first: i32, data: &[u8]| {
        stream(
            vec![
                ("Type", name("ObjStm")),
                ("N", Object::Integer(n)),
                ("First", Object::Integer(first)),
                ("Length", Object::Integer(data.len() as i32)),
            ],
            data,
        )
    };
    let kind = |s: &Stream| object_stream(s).unwrap_err().kind;
    assert_eq!(
        kind(&stream(vec![("N", Object::Integer(0)), ("First", Object::Integer(0))], b"")),
        CbParseErrorKind::Generic(Context::ObjectStream)
    );
    assert_eq!(kind(&full(-1, 0, b"")), CbParseErrorKind::Generic(Context::ObjectStream));
    assert_eq!(kind(&full(1, 4, b"1 x (a)")), CbParseErrorKind::Generic(Context::ObjectStream));
    assert_eq!(kind(&full(1, 4, b"1 9 (a)")), CbParseErrorKind::Generic(Context::Offset));
    assert_eq!(kind(&full(1, 4, b"1 0 )")), CbParseErrorKind::Generic(Context::Object));
    assert_eq!(kind(&full(1, 4, b"1 0 /a#")), CbParseErrorKind::InvalidName);
    assert_eq!(
        object_stream(&full(2, 8, b"7 0 9 4 (a) /b")),
        Ok(vec![
            (7, Object::String(claybrick::pdf::object::CbString(b"a".to_vec()))),
            (9, name("b"))
        ])
    );
}

fn zlib(data: &[u8]) -> Vec<u8> {
    let mut encoder = flate2::write::ZlibEncoder::new(Vec::new(), flate2::Compression::default());
    encoder.write_all(data).unwrap();
    encoder.finish().unwrap()
}

fn stream_file(index: &str, numbers: [usize; 4]) -> Vec<u8> {
    let mut file = Vec::new();
    file.extend_from_slice(b"%PDF-1.5\n%\xe2\xe3\xcf\xd3\n");
    let container = file.len();
    let children = b"1 0 2 41 << /Type /Catalog /Pages 2 0 R /Ver 5 >> << /Type /Pages /Kids [] /Count 0 >>";
    let packed = zlib(children);
    file.extend_from_slice(
        format!(
            "3 0 obj\n<< /Type /ObjStm /N 2 /First 9 /Filter /FlateDecode /Length {} >>\nstream\n",
            packed.len()
        )
        .as_bytes(),
    );
    file.extend_from_slice(&packed);
    file.extend_from_slice(b"\nendstream\nendobj\n");
    let xref = file.len();
    let mut entries = Vec::new();
    entries.extend_from_slice(&[0, 0, 0, 255]);
    entries.extend_from_slice(&[2, 0, 3, 0]);
    entries.extend_from_slice(&[2, 0, 3, 1]);
    entries.extend_from_slice(&[1, (container / 256) as u8, (container % 256) as u8, 0]);
    let packed = zlib(&entries);
    file.extend_from_slice(
        format!(
            "4 0 obj\n<< /Type /XRef /Size 5 /W [1 2 1] {} /Root 1 0 R /Filter /FlateDecode /Length {} >>\nstream\n",
            index,
            packed.len()
        )
        .as_bytes(),
    );
    file.extend_from_slice(&packed);
    file.extend_from_slice(b"\nendstream\nendobj\n");
    file.extend_from_slice(format!("startxref\n{}\n%%EOF\n", xref).as_bytes());
    let _ = numbers;
    file
}

#[test]
fn compressed_objects_are_read_from_their_stream() {
    let file = stream_file("", [0, 1, 2, 3]);
    let pdf = read(&file).unwrap();
    assert_eq!(pdf.version(), (1, 5));
    assert!(pdf.announced_binary());
    let section = pdf.section(0).unwrap();
    assert_eq!(section.xref().kind(), Some(XrefKind::Stream { number: 4, generation: 0 }));
    assert_eq!(section.xref().len(), 4);
    assert_eq!(section.xref().compressed_objects().len(), 2);
    assert_eq!(section.object_count(), 3);
    assert_eq!(section.trailer().unwrap().size, 5);
    let catalog = pdf.dereference(&Reference { index: 1, generation: 0 }).unwrap();
    assert_eq!(catalog.dictionary().unwrap().get(b"Ver"), Some(&Object::Integer(5)));
    assert!(matches!(
        pdf.object(2),
        Some(Object::Indirect(IndirectObject { index: 2, generation: 0, object: _ }))
    ));
    assert!(pdf.catalog().is_ok());
}

#[test]
fn index_numbers_the_entries_of_a_stream() {
    let file = stream_file("/Index [0 1 1 2 3 1]", [0, 1, 2, 3]);
    let pdf = read(&file).unwrap();
    let numbers: Vec<usize> =
        pdf.section(0).unwrap().xref().entries().iter().map(|e| e.number()).collect();
    assert_eq!(numbers, vec![0, 1, 2, 3]);
    let file = stream_file("/Index [10 4]", [0, 1, 2, 3]);
    match read(&file) {
        Err(CbError::Parse(e)) => {
            assert_eq!(e.kind, CbParseErrorKind::Generic(Context::ObjectStream))
        }
        other => panic!("{:?}", other.map(|_| ())),
    }
    let file = stream_file("/Index [0 1 2]", [0, 1, 2, 3]);
    match read(&file) {
        Err(CbError::Parse(e)) => assert_eq!(
            e.kind,
            CbParseErrorKind::XrefInvalid(claybrick::parse::error::XrefError::StreamObject)
        ),
        other => panic!("{:?}", other.map(|_| ())),
    }
}

#[test]
fn pages_must_have_kids_and_a_count() {
    let file = table_file("trailer\n<< /Size 3 /Root 1 0 R >>");
    let pdf = read(&file).unwrap();
    let check = |entries: Vec<(&str, Object)>| Pages::new_with(&pdf, &dictionary(entries)).err();
    assert_eq!(check(vec![("Count", Object::Integer(0))]), Some(PagesError::MissingKids));
    assert_eq!(
        check(vec![("Kids", Object::Integer(0)), ("Count", Object::Integer(0))]),
        Some(PagesError::InvalidKids)
    );
    assert_eq!(
        check(vec![("Kids", reference(2, 0)), ("Count", Object::Integer(0))]),
        Some(PagesError::InvalidKids)
    );
    assert_eq!(check(vec![("Kids", Object::Array(Array::new()))]), Some(PagesError::MissingCount));
    assert_eq!(
        check(vec![("Kids", Object::Array(Array(vec![Object::Null]))), ("Count", Object::Integer(0))]),
        Some(PagesError::InvalidCount)
    );
    assert_eq!(
        check(vec![("Kids", Object::Array(Array::new())), ("Count", Object::Null)]),
        Some(PagesError::InvalidCount)
    );
}

#[test]
fn written_document_reads_back() {
    for file in [
        table_file("trailer\n<< /Size 3 /Root 1 0 R /Info 2 0 R /ID [<01ab> <02>] >>"),
        two_revisions(TABLE_XREF).0,
        stream_file("", [0, 1, 2, 3]),
    ] {
        let pdf = read(&file).unwrap();
        let mut out = Vec::new();
        SimpleEncoder::write_to(&pdf, &mut out);
        assert_eq!(SimpleEncoder::encoded_len(&pdf), out.len());
        let again = read(&out).unwrap();
        assert_eq!(again.version(), (1, 7));
        assert!(again.announced_binary());
        assert_eq!(again.section_count(), 1);
        let first = pdf.catalog().unwrap();
        let second = again.catalog().unwrap();
        assert_eq!(first.version(), second.version());
        assert_eq!(first.pages(), second.pages());
        for number in 0..8 {
            let before = pdf.object(number).map(|o| match o {
                Object::Indirect(i) => &*i.object,
                other => other,
            });
            let after = again.object(number).map(|o| match o {
                Object::Indirect(i) => &*i.object,
                other => other,
            });
            match (before, after) {
                (Some(Object::Stream(a)), Some(Object::Stream(b))) => assert_eq!(a.data, b.data),
                (a, b) => assert_eq!(a, b, "object {}", number),
            }
        }
        let mut twice = Vec::new();
        SimpleEncoder::write_to(&again, &mut twice);
        assert_eq!(read(&twice).unwrap().catalog().unwrap().pages(), first.pages());
    }
}

#[test]
fn catalog_needs_a_root_and_pages() {
    let file = table_file("trailer\n<< /Size 3 /Root 2 1 R >>");
    assert_eq!(read(&file).unwrap().catalog().err(), Some(CatalogError::InvalidRoot));
    let mut file = Vec::new();
    file.extend_from_slice(b"%PDF-1.4\n1 0 obj\n<< /Type /Catalog /Pages 5 0 R >>\nendobj\n");
    file.extend_from_slice(b"2 0 obj\n7\nendobj\n");
    let xref = file.len();
    file.extend_from_slice(
        b"xref\n1 2\n0000000009 00000 n \n0000000058 00000 n \ntrailer << /Size 3 /Root 1 0 R >>\n",
    );
    file.extend_from_slice(format!("startxref\n{}\n%%EOF", xref).as_bytes());
    let pdf = read(&file).unwrap();
    assert_eq!(pdf.catalog().err(), Some(CatalogError::MissingPages));
    let text = String::from_utf8(file).unwrap().replace("/Root 1 0 R", "/Root 2 0 R");
    let pdf = read(text.as_bytes()).unwrap();
    assert_eq!(pdf.catalog().err(), Some(CatalogError::InvalidRoot));
}

#[test]
fn compressed_children_come_from_the_xref_of_their_revision() {
    let file = stream_file("", [0, 1, 2, 3]);
    let pdf = read(&file).unwrap();
    let section = pdf.section(0).unwrap();
    let mut marked: Vec<usize> = section.xref().used_objects().iter().map(|u| u.number).collect();
    marked.extend(section.xref().compressed_objects().iter().map(|c| c.number));
    for number in 0..10 {
        if section.object(number).is_some() {
            assert!(marked.contains(&number));
        }
    }
}
