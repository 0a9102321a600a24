use claybrick::parse::object::object;
use claybrick::parse::xref::xref;
use claybrick::parse::Span;
use claybrick::pdf::object::{CbString, Name};
use claybrick::simple_encode::SimpleEncoder;
use claybrick::writer::Encoder;

#[test]
fn delimiter_in_the_middle() {
    let name = Name(b"Hello World!".to_vec());
    let encoded_len = SimpleEncoder::encoded_len(&name);
    assert_eq!(encoded_len, 15);
    let mut out = Vec::new();
    SimpleEncoder::write_to(&name, &mut out);
    let expected = br"/Hello#20World!";
    assert_eq!(
        out,
        expected,
        "Expected {}, got {}",
        String::from_utf8_lossy(expected),
        String::from_utf8_lossy(&out)
    );
    assert_eq!(encoded_len, out.len());
}

#[test]
fn delimiter_start() {
    let name = Name(b" HelloWorld!".to_vec());
    let encoded_len = SimpleEncoder::encoded_len(&name);
    assert_eq!(encoded_len, 15);
    let mut out = Vec::new();
    SimpleEncoder::write_to(&name, &mut out);
    let expected = br"/#20HelloWorld!";
    assert_eq!(
        out,
        expected,
        "Expected {}, got {}",
        String::from_utf8_lossy(expected),
        String::from_utf8_lossy(&out)
    );
    assert_eq!(encoded_len, out.len());
}

#[test]
fn delimiter_end() {
    let name = Name(b"HelloWorld! ".to_vec());
    let encoded_len = SimpleEncoder::encoded_len(&name);
    assert_eq!(encoded_len, 15);
    let mut out = Vec::new();
    SimpleEncoder::write_to(&name, &mut out);
    let expected = br"/HelloWorld!#20";
    assert_eq!(
        out,
        expected,
        "Expected {}, got {}",
        String::from_utf8_lossy(expected),
        String::from_utf8_lossy(&out)
    );
    assert_eq!(encoded_len, out.len());
}

#[test]
fn only_delimiters() {
    let name = Name(b"   ".to_vec());
    let encoded_len = SimpleEncoder::encoded_len(&name);
    assert_eq!(encoded_len, 10);
    let mut out = Vec::new();
    SimpleEncoder::write_to(&name, &mut out);
    let expected = br"/#20#20#20";
    assert_eq!(
        out,
        expected,
        "Expected {}, got {}",
        String::from_utf8_lossy(expected),
        String::from_utf8_lossy(&out)
    );
    assert_eq!(encoded_len, out.len());
}

#[test]
fn no_delimiters() {
    let name = Name(b"HelloWorld!".to_vec());
    let encoded_len = SimpleEncoder::encoded_len(&name);
    assert_eq!(encoded_len, 12);
    let mut out = Vec::new();
    SimpleEncoder::write_to(&name, &mut out);
    let expected = br"/HelloWorld!";
    assert_eq!(
        out,
        expected,
        "Expected {}, got {}",
        String::from_utf8_lossy(expected),
        String::from_utf8_lossy(&out)
    );
    assert_eq!(encoded_len, out.len());
}

#[test]
fn name_escapes_use_lower_case_digits() {
    let name = Name(vec![b'A', 0xAB, b'#', b'(', b'\n', b'z']);
    let mut out = Vec::new();
    SimpleEncoder::write_to(&name, &mut out);
    assert_eq!(out, b"/A\xab#23#28#0az".to_vec());
    let name = Name(vec![0x7f, 0x0c, 0xff]);
    let mut out = Vec::new();
    SimpleEncoder::write_to(&name, &mut out);
    assert_eq!(out, b"/\x7f#0c\xff".to_vec());
}

#[test]
fn string_test_simple() {
    let simple = CbString(b"abcdefg".to_vec());
    let encoded_len = SimpleEncoder::encoded_len(&simple);
    assert_eq!(encoded_len, simple.0.len() + 2);
    let mut out = Vec::new();
    SimpleEncoder::write_to(&simple, &mut out);
    assert_eq!(out, b"(abcdefg)".to_vec());
    assert_eq!(encoded_len, out.len());
}

#[test]
fn string_test_end_with_closing_paranthesis() {
    let simple = CbString(b"(abcdefg)".to_vec());
    let encoded_len = SimpleEncoder::encoded_len(&simple);
    assert_eq!(encoded_len, simple.0.len() + 2);
    let mut out = Vec::new();
    SimpleEncoder::write_to(&simple, &mut out);
    assert_eq!(out, b"((abcdefg))".to_vec());
    assert_eq!(encoded_len, out.len());
}

#[test]
fn string_test_end_with_unmatched_closing_paranthesis() {
    let simple = CbString(b"abcdefg)".to_vec());

    // 2 for start and end. One for escaping.
    let encoded_len = SimpleEncoder::encoded_len(&simple);
    assert_eq!(encoded_len, simple.0.len() + 3);
    let mut out = Vec::new();
    SimpleEncoder::write_to(&simple, &mut out);
    assert_eq!(out, br"(abcdefg\))".to_vec());
    assert_eq!(encoded_len, out.len());
}

#[test]
fn string_test_many_unmatched_closing_paranthesis() {
    let simple = CbString(b")))))))))".to_vec());

    // 2 for start and end. many for escaping.
    let encoded_len = SimpleEncoder::encoded_len(&simple);
    assert_eq!(encoded_len, simple.0.len() * 2 + 2);
    let mut out = Vec::new();
    SimpleEncoder::write_to(&simple, &mut out);
    assert_eq!(out, br"(\)\)\)\)\)\)\)\)\))".to_vec());
    assert_eq!(encoded_len, out.len());
}

#[test]
fn string_test_many_unmatched_opening_paranthesis() {
    let simple = CbString(b"(((((((((".to_vec());

    // 2 for start and end. many for escaping.
    let encoded_len = SimpleEncoder::encoded_len(&simple);
    assert_eq!(encoded_len, simple.0.len() * 2 + 2);
    let mut out = Vec::new();
    SimpleEncoder::write_to(&simple, &mut out);
    assert_eq!(out, br"(\(\(\(\(\(\(\(\(\()".to_vec());
    assert_eq!(encoded_len, out.len());
}

#[test]
fn string_test_many_matched_paranthesis() {
    let simple = CbString(b"((((((()))))))".to_vec());

    // 2 for start and end. many for escaping.
    let encoded_len = SimpleEncoder::encoded_len(&simple);
    assert_eq!(encoded_len, simple.0.len() + 2);
    let mut out = Vec::new();
    SimpleEncoder::write_to(&simple, &mut out);
    assert_eq!(out, br"(((((((())))))))".to_vec());
    assert_eq!(encoded_len, out.len());
}

#[test]
fn string_test_many_unmatched_paranthesis() {
    let simple = CbString(b")))))(((((".to_vec());

    // 2 for start and end. many for escaping.
    let encoded_len = SimpleEncoder::encoded_len(&simple);
    assert_eq!(encoded_len, simple.0.len() * 2 + 2);
    let mut out = Vec::new();
    SimpleEncoder::write_to(&simple, &mut out);
    assert_eq!(out, br"(\)\)\)\)\)\(\(\(\(\()".to_vec());
    assert_eq!(encoded_len, out.len());
}

#[test]
fn string_escapes_only_what_is_unmatched() {
    let cases: Vec<(&[u8], &[u8])> = vec![
        (b"(()", br"(\(())"),
        (b"())", br"(()\))"),
        (br"a\)b", br"(a\)b)"),
        (br"a\(b)", br"(a\(b\))"),
        (b"a\\", b"(a\\\\)"),
        (br"(\)", br"(\(\))"),
    ];
    for (content, expected) in cases {
        let s = CbString(content.to_vec());
        let mut out = Vec::new();
        SimpleEncoder::write_to(&s, &mut out);
        assert_eq!(out, expected.to_vec(), "content {:?}", String::from_utf8_lossy(content));
        assert_eq!(SimpleEncoder::encoded_len(&s), out.len());
    }
}

#[test]
fn test_simple() {
    let simple = CbString(b"abcdefg".to_vec());
    assert_eq!(simple.0.len() + 2, SimpleEncoder::encoded_len(&simple));
    let mut out = Vec::new();
    SimpleEncoder::write_to(&simple, &mut out);
    assert_eq!(out, b"(abcdefg)".to_vec())
}

#[test]
fn test_end_with_closing_paranthesis() {
    let simple = CbString(b"(abcdefg)".to_vec());
    assert_eq!(simple.0.len() + 2, SimpleEncoder::encoded_len(&simple));
    let mut out = Vec::new();
    SimpleEncoder::write_to(&simple, &mut out);
    assert_eq!(out, b"((abcdefg))".to_vec())
}

#[test]
fn test_end_with_unmatched_closing_paranthesis() {
    let simple = CbString(b"abcdefg)".to_vec());

    // 2 for start and end. One for escaping.
    assert_eq!(simple.0.len() + 3, SimpleEncoder::encoded_len(&simple));
    let mut out = Vec::new();
    SimpleEncoder::write_to(&simple, &mut out);
    assert_eq!(out, br"(abcdefg\))".to_vec())
}

#[test]
fn test_many_unmatched_closing_paranthesis() {
    let simple = CbString(b")))))))))".to_vec());

    // 2 for start and end. many for escaping.
    assert_eq!(simple.0.len() * 2 + 2, SimpleEncoder::encoded_len(&simple));
    let mut out = Vec::new();
    SimpleEncoder::write_to(&simple, &mut out);
    assert_eq!(out, br"(\)\)\)\)\)\)\)\)\))".to_vec())
}

#[test]
fn test_many_unmatched_opening_paranthesis() {
    let simple = CbString(b"(((((((((".to_vec());

    // 2 for start and end. many for escaping.
    assert_eq!(simple.0.len() * 2 + 2, SimpleEncoder::encoded_len(&simple));
    let mut out = Vec::new();
    SimpleEncoder::write_to(&simple, &mut out);
    assert_eq!(out, br"(\(\(\(\(\(\(\(\(\()".to_vec())
}

#[test]
fn test_many_matched_paranthesis() {
    let simple = CbString(b"((((((()))))))".to_vec());

    // 2 for start and end. many for escaping.
    assert_eq!(simple.0.len() + 2, SimpleEncoder::encoded_len(&simple));
    let mut out = Vec::new();
    SimpleEncoder::write_to(&simple, &mut out);
    assert_eq!(out, br"(((((((())))))))".to_vec())
}

#[test]
fn test_many_unmatched_paranthesis() {
    let simple = CbString(b")))))(((((".to_vec());

    // 2 for start and end. many for escaping.
    assert_eq!(simple.0.len() * 2 + 2, SimpleEncoder::encoded_len(&simple));
    let mut out = Vec::new();
    SimpleEncoder::write_to(&simple, &mut out);
    assert_eq!(out, br"(\)\)\)\)\)\(\(\(\(\()".to_vec())
}

#[test]
fn array_empty_array() {
    let array = claybrick::pdf::object::Array(vec![]);
    let encoded_len = SimpleEncoder::encoded_len(&array);
    assert_eq!(encoded_len, 2);

    let mut out = Vec::new();
    SimpleEncoder::write_to(&array, &mut out);
    let expected = b"[]";
    assert_eq!(expected, &out[..]);
    assert_eq!(encoded_len, out.len())
}

#[test]
fn array_array_with_numbers() {
    let array = claybrick::pdf::object::Array(vec![
        claybrick::pdf::object::Object::Integer(0),
        claybrick::pdf::object::Object::Integer(1),
        claybrick::pdf::object::Object::Integer(2),
    ]);
    let encoded_len = SimpleEncoder::encoded_len(&array);
    assert_eq!(encoded_len, 7);

    let mut out = Vec::new();
    SimpleEncoder::write_to(&array, &mut out);
    let expected = b"[0 1 2]";
    assert_eq!(expected, &out[..]);
    assert_eq!(encoded_len, out.len())
}

#[test]
fn empty_dict() {
    let d = claybrick::pdf::object::Dictionary::new();
    let expected_len = SimpleEncoder::encoded_len(&d);
    let expected_output = b"<<>>";
    assert_eq!(expected_len, expected_output.len());

    let mut out = Vec::new();
    SimpleEncoder::write_to(&d, &mut out);
    assert_eq!(expected_output, &out[..]);
    assert_eq!(out.len(), expected_len);
}

#[test]
fn filled_dict() {
    let mut d = claybrick::pdf::object::Dictionary::new();
    d.insert(Name(b"one".to_vec()), claybrick::pdf::object::Object::Integer(1));
    d.insert(Name(b"two".to_vec()), claybrick::pdf::object::Object::Integer(2));
    d.insert(Name(b"three".to_vec()), claybrick::pdf::object::Object::Integer(3));

    let expected_len = SimpleEncoder::encoded_len(&d);
    let expected_output = br"<</one 1 /two 2 /three 3>>";
    assert_eq!(expected_len, expected_output.len());

    let mut out = Vec::new();
    SimpleEncoder::write_to(&d, &mut out);
    assert_eq!(expected_output, &out[..]);
    assert_eq!(out.len(), expected_len);
}

use claybrick::pdf::object::{
    Array, Bytes, Dictionary, IndirectObject, Object, Reference, Stream,
};
use claybrick::pdf::trailer::Trailer;
use claybrick::pdf::xref::{
    FreeObject, Unsupported, UsedCompressedObject, UsedObject, Xref, XrefEntry,
};
use claybrick::simple_encode::section::{encode_xref_entry, width_of, xref_to_tuple};
use claybrick::writer::{DummyWriter, Writer};

fn written<T>(value: &T) -> Vec<u8>
where
    SimpleEncoder: Encoder<T>,
{
    let mut out = Vec::new();
    SimpleEncoder::write_to(value, &mut out);
    assert_eq!(SimpleEncoder::encoded_len(value), out.len());
    out
}

#[test]
fn objects_are_written_with_a_line_feed() {
    assert_eq!(written(&Object::Null), b"null\n".to_vec());
    assert_eq!(written(&Object::Bool(true)), b"true\n".to_vec());
    assert_eq!(written(&Object::Bool(false)), b"false\n".to_vec());
    assert_eq!(written(&Object::Integer(0)), b"0\n".to_vec());
    assert_eq!(written(&Object::Integer(-2147483648)), b"-2147483648\n".to_vec());
    assert_eq!(written(&Object::Integer(2147483647)), b"2147483647\n".to_vec());
    assert_eq!(written(&Object::Float(b"-.5e3".to_vec())), b"-.5e3\n".to_vec());
    assert_eq!(
        written(&Object::HexString(Bytes(vec![0x00, 0x1f, 0xab, 0xff]))),
        b"<001fabff>\n".to_vec()
    );
    assert_eq!(
        written(&Object::Reference(Reference { index: 12, generation: 3 })),
        b"12 3 R\n".to_vec()
    );
    assert_eq!(written(&Object::Name(Name(b"a b".to_vec()))), b"/a#20b\n".to_vec());
    assert_eq!(written(&Object::String(CbString(b"a)".to_vec()))), b"(a\\))\n".to_vec());
}

#[test]
fn indirect_objects_and_streams_are_written_on_lines() {
    let indirect = IndirectObject { index: 4, generation: 1, object: Box::new(Object::Null) };
    assert_eq!(written(&indirect), b"4 1 obj\nnull\nendobj\n".to_vec());
    let mut dictionary = Dictionary::new();
    dictionary.insert(Name::from_str("Length"), Object::Integer(77));
    dictionary.insert(Name::from_str("K"), Object::Bool(true));
    let stream = Stream { dictionary, data: Bytes(b"abc".to_vec()) };
    assert_eq!(written(&stream), b"<</Length 3 /K true>> stream\nabc\nendstream".to_vec());
    let stream = Stream { dictionary: Dictionary::new(), data: Bytes(b"abcd".to_vec()) };
    assert_eq!(written(&stream), b"<</Length 4>> stream\nabcd\nendstream".to_vec());
    let nested = Array(vec![
        Object::Array(Array(vec![Object::Integer(1)])),
        Object::Dictionary(Dictionary::new()),
    ]);
    assert_eq!(written(&nested), b"[[1] <<>>]".to_vec());
}

#[test]
fn written_objects_read_back() {
    let mut dictionary = Dictionary::new();
    dictionary.insert(Name(b"a#b c".to_vec()), Object::String(CbString(b"x(y)z\\)".to_vec())));
    dictionary.insert(
        Name::from_str("list"),
        Object::Array(Array(vec![
            Object::Integer(1),
            Object::Integer(2),
            Object::Reference(Reference { index: 3, generation: 0 }),
            Object::Integer(-4),
            Object::HexString(Bytes(vec![0xde, 0xad])),
            Object::Null,
            Object::Bool(false),
            Object::Float(b"1.5".to_vec()),
        ])),
    );
    let mut inner = Dictionary::new();
    inner.insert(Name::from_str("Length"), Object::Integer(5));
    let values = vec![
        Object::Dictionary(dictionary),
        Object::Indirect(IndirectObject {
            index: 9,
            generation: 2,
            object: Box::new(Object::Stream(Stream {
                dictionary: inner,
                data: Bytes(b"\nend\n".to_vec()),
            })),
        }),
        Object::Indirect(IndirectObject {
            index: 1,
            generation: 0,
            object: Box::new(Object::Integer(7)),
        }),
    ];
    for value in values {
        let text = written(&value);
        let (rest, read) = object(Span::new(&text)).unwrap();
        assert_eq!(read, value);
        assert_eq!(rest.fragment(), b"");
    }
}

#[test]
fn xref_entries_are_written_in_their_widths() {
    let used = XrefEntry::Used(UsedObject { number: 5, byte_offset: 0x0102, generation: 3 });
    assert_eq!(xref_to_tuple(&used), (1, 0x0102, 3));
    assert_eq!(
        xref_to_tuple(&XrefEntry::Free(FreeObject { number: 0, generation: 65535, next_free: 4 })),
        (0, 4, 65535)
    );
    assert_eq!(
        xref_to_tuple(&XrefEntry::UsedCompressed(UsedCompressedObject {
            number: 1,
            containing_object: 8,
            index: 2
        })),
        (2, 8, 2)
    );
    assert_eq!(
        xref_to_tuple(&XrefEntry::Unsupported(Unsupported { number: 1, type_num: 7, w1: 8, w2: 9 })),
        (7, 8, 9)
    );
    let mut buffer = vec![0xee];
    encode_xref_entry([1, 3, 0], &used, &mut buffer);
    assert_eq!(buffer, vec![0xee, 1, 0, 1, 2]);
    let mut buffer = Vec::new();
    encode_xref_entry([2, 1, 9], &used, &mut buffer);
    assert_eq!(buffer, vec![0, 1, 2, 0, 0, 0, 0, 0, 0, 0, 3]);
    assert_eq!(width_of(0), 1);
    assert_eq!(width_of(255), 1);
    assert_eq!(width_of(256), 2);
    assert_eq!(width_of(usize::MAX), std::mem::size_of::<usize>());
}

#[test]
fn xref_is_written_as_a_stream_that_reads_back() {
    let entries = vec![
        XrefEntry::Used(UsedObject { number: 9, byte_offset: 70000, generation: 1 }),
        XrefEntry::Free(FreeObject { number: 0, generation: 65535, next_free: 0 }),
        XrefEntry::UsedCompressed(UsedCompressedObject { number: 4, containing_object: 9, index: 0 }),
    ];
    let table = Xref::new_table(entries.clone());
    assert_eq!(table.get(0), Some(entries[1]));
    assert_eq!(table.get(2), Some(entries[0]));
    assert_eq!(table.get(3), None);
    let text = written(&table);
    assert!(text.starts_with(b"10 0 obj\n<</Type /XRef /Size 10 /W [1 3 2] /Index [0 1 4 1 9 1] /Length 18>> stream\n"));
    let (_, read) = xref(Span::new(&text)).unwrap();
    assert_eq!(read.entries(), table.entries());
    let stream = Xref::new_stream(entries, 33, 2);
    assert!(written(&stream).starts_with(b"33 2 obj\n"));
    assert_eq!(Xref::new(vec![]).kind(), None);
    assert_eq!(Xref::new(vec![]).highest_index(), 0);
}

#[test]
fn trailer_is_written_after_its_keyword() {
    let t = Trailer {
        size: 3,
        previous: None,
        root: Reference { index: 1, generation: 0 },
        encrypt: None,
        info: None,
        id: None,
        x_ref_stm: None,
    };
    assert_eq!(written(&t), b"trailer\n<</Size 3 /Root 1 0 R>>\n".to_vec());
}

#[test]
fn dummy_writer_counts_bytes() {
    let mut w = DummyWriter::new();
    assert_eq!(w.len(), 0);
    w.write(b"abc");
    w.write(b"");
    w.write(b"de");
    assert_eq!(w.len(), 5);
    assert_eq!(w.position(), 5);
    let mut v = vec![1u8];
    v.write(b"ab");
    assert_eq!(v, vec![1, b'a', b'b']);
    assert_eq!(Writer::position(&v), 3);
}

#[test]
fn objects_of_a_document_are_written_in_the_order_of_their_numbers() {
    let mut file = Vec::new();
    file.extend_from_slice(b"%PDF-1.4\n");
    let mut offsets = Vec::new();
    for number in [30, 4, 17, 1, 22, 9] {
        offsets.push((number, file.len()));
        file.extend_from_slice(format!("{} 0 obj\n({})\nendobj\n", number, number).as_bytes());
    }
    let xref = file.len();
    file.extend_from_slice(b"xref\n");
    for (number, offset) in offsets {
        file.extend_from_slice(format!("{} 1\n{:010} 00000 n \n", number, offset).as_bytes());
    }
    file.extend_from_slice(
        format!("trailer\n<< /Size 31 /Root 1 0 R >>\nstartxref\n{}\n%%EOF\n", xref).as_bytes(),
    );
    let pdf = claybrick::read(&file).unwrap();
    let text = written(&pdf);
    let mut last = 0;
    for number in [1, 4, 9, 17, 22, 30] {
        let head = format!("\n{} 0 obj\n", number).into_bytes();
        let at = text.windows(head.len()).position(|w| w == &head[..]).unwrap();
        assert!(at > last);
        last = at;
    }
    assert!(text.starts_with(b"%PDF-1.7\n%\xbf\xbf\xbf\xbf\n1 0 obj\n"));
    assert!(text.ends_with(b"\n%%EOF\n"));
    let again = claybrick::read(&text).unwrap();
    assert_eq!(again.section(0).unwrap().object_count(), 6);
}
