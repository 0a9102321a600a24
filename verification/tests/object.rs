use claybrick::lex::hex_char_to_nibble;
use claybrick::parse::error::{CbParseErrorKind, Context};
use claybrick::parse::object::{
    bool_object, consume_until_parenthesis, hex_decode, hex_string_object, name_object,
    null_object, object, require_termination, string_object, stream_object,
};
use claybrick::parse::Span;
use claybrick::pdf::object::{
    Array, Bytes, CbString, Dictionary, IndirectObject, Name, Object, Reference,
};

fn float_value(o: &Object) -> f32 {
    match o {
        Object::Float(text) => std::str::from_utf8(text).unwrap().parse().unwrap(),
        other => panic!("no float: {:?}", other),
    }
}

#[test]
fn test_termination() {
    assert_eq!(require_termination(Span::new(b"  asdf")).unwrap().0.fragment(), b"asdf");
    assert_eq!(require_termination(Span::new(b"")).unwrap().0.fragment(), b"");
    assert_eq!(require_termination(Span::new(b"(")).unwrap().0.fragment(), b"(");
    assert!(require_termination(Span::new(b"asdf")).is_err());
}

#[test]
fn test_consume_until_parenthesis() {
    assert_eq!(
        consume_until_parenthesis(Span::new(r"aasd(sadf".as_bytes())).fragment(),
        "(sadf".as_bytes()
    );
    assert_eq!(
        consume_until_parenthesis(Span::new(r"aasd\(asd(".as_bytes())).fragment(),
        "(".as_bytes()
    );
    assert_eq!(consume_until_parenthesis(Span::new(r")".as_bytes())).fragment(), ")".as_bytes());
}

#[test]
fn test_bool_object() {
    assert_eq!(object(Span::new(b"true ")).unwrap().1, Object::Bool(true));
    assert_eq!(object(Span::new(b"false ")).unwrap().1, Object::Bool(false));
    assert_eq!(object(Span::new(b"false%a-comment")).unwrap().1, Object::Bool(false));
    assert!(object(Span::new(b"falsee")).is_err());
    assert!(object(Span::new(b"afalse")).is_err());
}

#[test]
fn test_integer_object() {
    assert_eq!(object(Span::new(b"123")).unwrap().1, Object::Integer(123));
    assert_eq!(object(Span::new(b"-123")).unwrap().1, Object::Integer(-123));
    assert_eq!(object(Span::new(b"+123")).unwrap().1, Object::Integer(123));
    assert_eq!(object(Span::new(b"-123%a-comment")).unwrap().1, Object::Integer(-123));
}

#[test]
fn test_float_object() {
    assert_eq!(float_value(&object(Span::new(b"123.123 ")).unwrap().1), 123.123);
    assert_eq!(float_value(&object(Span::new(b"-123.123 ")).unwrap().1), -123.123);
    assert_eq!(float_value(&object(Span::new(b"-123.123%a-comment")).unwrap().1), -123.123);
    assert!(object(Span::new(b"d123.123 ")).is_err());
    assert!(object(Span::new(b"-1c23.123 ")).is_err());
}

#[test]
fn test_string_object() {
    assert_eq!(object(Span::new(b"()\n")).unwrap().1, Object::String(CbString(b"".to_vec())));
    assert_eq!(object(Span::new(b"(a) ")).unwrap().1, Object::String(CbString(b"a".to_vec())));
    assert_eq!(
        object(Span::new(b"((a)) ")).unwrap().1,
        Object::String(CbString(b"(a)".to_vec()))
    );
    assert_eq!(
        object(Span::new(br"((\(a)) ")).unwrap().1,
        Object::String(CbString(br"(\(a)".to_vec()))
    );
    assert_eq!(
        object(Span::new(br"(a\)\)\)) ")).unwrap().1,
        Object::String(CbString(br"a\)\)\)".to_vec()))
    );
    assert_eq!(
        object(Span::new(b"(123\\nmnbvcx)\n")).unwrap().1,
        Object::String(CbString(b"123\\nmnbvcx".to_vec()))
    );
}

#[test]
fn test_hex_to_nibble() {
    assert_eq!(hex_char_to_nibble(b'f'), Some(15));
    assert_eq!(hex_char_to_nibble(b'F'), Some(15));
    assert_eq!(hex_char_to_nibble(b'0'), Some(0));
    assert_eq!(hex_char_to_nibble(b'5'), Some(5));
}

#[test]
fn test_hex_decode() {
    assert_eq!(hex_decode(b"FFFFFFFFFFFF"), Some(b"\xFF\xFF\xFF\xFF\xFF\xFF".to_vec()))
}

#[test]
fn test_hex_string_object() {
    assert_eq!(
        object(Span::new(b"<FFFFFFFFFFFF>")).unwrap().1,
        Object::HexString(Bytes(b"\xFF\xFF\xFF\xFF\xFF\xFF".to_vec()))
    )
}

#[test]
fn test_null_object() {
    assert_eq!(object(Span::new("null\n".as_bytes())).unwrap().1, Object::Null);
}

#[test]
fn test_name_object() {
    let pairs: Vec<(&[u8], &[u8])> = vec![
        (b"/lime#20Green", b"lime Green"),
        (b"/paired#28#29parentheses", b"paired()parentheses"),
        (b"/The_Key_of_F#23_Minor", b"The_Key_of_F#_Minor"),
        (b"/A#42", b"AB"),
        (b"/Name1", b"Name1"),
        (b"/ASomewhatLongerName", b"ASomewhatLongerName"),
        (b"/A;Name_With-Various***Characters?", b"A;Name_With-Various***Characters?"),
        (b"/1.2", b"1.2"),
        (b"/$$", b"$$"),
        (b"/@pattern", b"@pattern"),
        (b"/.notdef", b".notdef"),
    ];

    for (input, expected) in pairs {
        let out = name_object(Span::new(input));
        assert!(out.is_ok(), "Error while parsing `{}`", String::from_utf8_lossy(input));
        let out = out.unwrap().1;
        assert_eq!(
            &out.0[..],
            expected,
            "Failed to decode name `{}`. Expected `{}`, got `{}`.",
            String::from_utf8_lossy(input),
            String::from_utf8_lossy(expected),
            String::from_utf8_lossy(&out.0)
        );
    }
}

fn dictionary(entries: Vec<(&[u8], Object)>) -> Dictionary {
    let mut d = Dictionary::new();
    for (key, value) in entries {
        d.insert(Name(key.to_vec()), value);
    }
    d
}

#[test]
fn test_dictionary() {
    let obj = Object::Dictionary(dictionary(vec![(b"Length", Object::Integer(93))]));
    assert_eq!(object(Span::new(b"<< /Length 93 >>")).unwrap().1, obj);

    let parsed = object(Span::new(
        b"<< /Type /Example
        /Subtype /DictionaryExample
        /Version 0.01%A COMMENT
        /IntegerItem 12
        /StringItem (a string)
        /Subdictionary <<
        /Item2 true
        >>
        >>",
    ))
    .unwrap()
    .1;
    let d = parsed.dictionary().unwrap();
    assert_eq!(d.len(), 6);
    assert_eq!(d.get(b"Type"), Some(&Object::Name(Name(b"Example".to_vec()))));
    assert_eq!(d.get(b"Subtype"), Some(&Object::Name(Name(b"DictionaryExample".to_vec()))));
    assert_eq!(float_value(d.get(b"Version").unwrap()), 0.01);
    assert_eq!(d.get(b"IntegerItem"), Some(&Object::Integer(12)));
    assert_eq!(d.get(b"StringItem"), Some(&Object::String(CbString(b"a string".to_vec()))));
    assert_eq!(
        d.get(b"Subdictionary"),
        Some(&Object::Dictionary(dictionary(vec![
            (b"Item2", Object::Bool(true)),
            (b"Item2", Object::Bool(true)),
        ])))
    );
}

#[test]
fn test_array_object() {
    let parsed = object(Span::new(b"[549 1.234 false (Ralph) /SomeName]")).unwrap().1;
    let a = parsed.array().unwrap();
    assert_eq!(a.len(), 5);
    assert_eq!(a.get(0), Some(&Object::Integer(549)));
    assert_eq!(float_value(a.get(1).unwrap()), 1.234);
    assert_eq!(a.get(2), Some(&Object::Bool(false)));
    assert_eq!(a.get(3), Some(&Object::String(CbString(b"Ralph".to_vec()))));
    assert_eq!(a.get(4), Some(&Object::Name(Name(b"SomeName".to_vec()))));
    assert_eq!(object(Span::new(b"[]")).unwrap().1, Object::Array(Array::new()));
    assert_eq!(
        object(Span::new(b"[459]")).unwrap().1,
        Object::Array(Array(vec![Object::Integer(459)]))
    );
    assert_eq!(
        object(Span::new(b"[false]")).unwrap().1,
        Object::Array(Array(vec![Object::Bool(false)]))
    );
}

#[test]
fn test_indirect_object() {
    assert_eq!(
        object(Span::new(b"0 0 obj null endobj")).unwrap().1,
        Object::Indirect(IndirectObject { index: 0, generation: 0, object: Box::new(Object::Null) })
    );
    assert_eq!(
        object(Span::new(
            b"1 0 obj
            << /Type /Catalog
               /Pages 2 0 R
            >>
            endobj"
        ))
        .unwrap()
        .1,
        Object::Indirect(IndirectObject {
            index: 1,
            generation: 0,
            object: Box::new(Object::Dictionary(dictionary(vec![
                (b"Type", Object::Name(Name(b"Catalog".to_vec()))),
                (b"Pages", Object::Reference(Reference { index: 2, generation: 0 })),
            ])))
        })
    )
}

#[test]
fn test_reference_object() {
    assert_eq!(
        object(Span::new("0 0 R".as_bytes())).unwrap().1,
        Object::Reference(Reference { index: 0, generation: 0 })
    );
}

#[test]
fn test_stream() {
    let stream = stream_object(Span::new(
        b"<< /Length 93 >>
stream
/DeviceRGB cs /DeviceRGB CS
0 0 0.972549 SC
21.68 194 136.64 26 re
10 10 m 20 20 l S
/Im0 Do
endstream",
    ));
    assert!(stream.is_ok(), "Expected OK got: {:?}", stream);
    assert_eq!(stream.unwrap().1.data.0.len(), 93);
}

#[test]
fn test_stream_line_feed_start() {
    let stream = stream_object(Span::new(
        b"<< /Length 94 >>
stream\r\n\n\n/DeviceRGB cs /DeviceRGB CS
0 0 0.972549 SC
21.68 194 136.64 26 re
10 10 m 20 20 l S
/Im0 Do
endstream",
    ));
    assert!(stream.is_ok(), "Expected OK got: {:?}", stream);
    let data = stream.unwrap().1.data.0;
    assert_eq!(data.len(), 94);
    assert_eq!(&data[..13], b"\n\n/DeviceRGB ");
}

#[test]
fn test_object_00() {
    let parsed_obj = object(Span::new(
        b"8784 0 obj <</Linearized 1/L 6962693/O 8787/E 131293/N 768/T 6954970/H [ 2799 5432]>>\rendobj",
    ))
    .unwrap()
    .1;
    assert!(
        matches!(parsed_obj, Object::Indirect(IndirectObject { index: 8784, generation: 0, object: _ })),
        "Unexpected parsing result: {:#?}",
        parsed_obj
    );
}

#[test]
fn test_object_01() {
    let parsed_obj = object(Span::new(
        b"20 0 obj
<</Author<FEFF004A006F0073002000760061006E002000640065006E0020004F0065007600650072>
/Creator<FEFF005700720069007400650072>
/Producer<FEFF004C0069006200720065004F0066006600690063006500200035002E0033>
/CreationDate(D:20170913090857+02'00')>>
endobj
",
    ))
    .unwrap()
    .1;
    assert!(
        matches!(parsed_obj, Object::Indirect(IndirectObject { index: 20, generation: 0, object: _ })),
        "Unexpected parsing result: {:#?}",
        parsed_obj
    );
}

#[test]
fn test_object_02() {
    let parsed_obj = object(Span::new(
        b"4 0 obj
<</Type/Font/Subtype/CIDFontType2/BaseFont/TBSXET+Arial/CIDSystemInfo<</Registry(Adobe)/Ordering(Identity)/Supplement 0>>/FontDescriptor 3 0 R/CIDToGIDMap/Identity/W[0[750 277]2 3 722 5 6 556 7[333 500 222 500 556 277 610 222 556 500]17 18 556 19[277 556 583 277]23 30 556 31[610 556 277 833]35 36 556 37[500 722 666 943 722 777]43 44 666 45[556 277 833 666 777 556 610 556 610 722 500 556 333 666 333 277]61 62 722 63 64 583 65[722 583 666 500 666 500 556]72 73 277 74[222]75 76 333 77[556 1015 500 333 556]]>>
endobj",
    ))
    .unwrap()
    .1;
    assert!(
        matches!(parsed_obj, Object::Indirect(IndirectObject { index: 4, generation: 0, object: _ })),
        "Unexpected parsing result: {:#?}",
        parsed_obj
    );
}

#[test]
fn invalid_name_escape_is_reported() {
    let err = object(Span::new(b"/A#4")).unwrap_err();
    assert_eq!(err.kind, CbParseErrorKind::InvalidName);
    assert_eq!(err.position, 0);
    let err = name_object(Span::new(b"/A#G1 ")).unwrap_err();
    assert_eq!(err.kind, CbParseErrorKind::InvalidName);
    let err = name_object(Span::new(b"A")).unwrap_err();
    assert_eq!(err.kind, CbParseErrorKind::Generic(Context::Name));
}

#[test]
fn object_error_is_at_the_start() {
    let input = b"   [1 2";
    let err = object(Span::new(input).advance(3)).unwrap_err();
    assert_eq!(err.kind, CbParseErrorKind::Generic(Context::Object));
    assert_eq!(err.position, 3);
    assert_eq!(err.revision, None);
}

#[test]
fn comments_between_tokens_are_skipped() {
    let parsed = object(Span::new(b"[1 % one\n 2 %two\r\n]% end")).unwrap();
    assert_eq!(parsed.1, Object::Array(Array(vec![Object::Integer(1), Object::Integer(2)])));
    assert_eq!(parsed.0.fragment(), b"");
}

#[test]
fn remainder_and_offset_follow_the_object() {
    let (rest, o) = object(Span::new(b"true  false")).unwrap();
    assert_eq!(o, Object::Bool(true));
    assert_eq!(rest.fragment(), b"false");
    assert_eq!(rest.location_offset(), 6);
}

#[test]
fn odd_hex_string_is_padded_with_zero() {
    assert_eq!(
        object(Span::new(b"<ABC>")).unwrap().1,
        Object::HexString(Bytes(vec![0xAB, 0xC0]))
    );
    assert_eq!(hex_decode(b"a"), Some(vec![0xA0]));
    assert_eq!(hex_decode(b"0g"), None);
    assert!(object(Span::new(b"<>")).is_err());
}

#[test]
fn integers_that_do_not_fit_become_decimals() {
    assert_eq!(object(Span::new(b"2147483647")).unwrap().1, Object::Integer(2147483647));
    assert_eq!(object(Span::new(b"-2147483648")).unwrap().1, Object::Integer(-2147483648));
    assert_eq!(
        object(Span::new(b"2147483648 ")).unwrap().1,
        Object::Float(b"2147483648".to_vec())
    );
    assert_eq!(object(Span::new(b".5")).unwrap().1, Object::Float(b".5".to_vec()));
    assert_eq!(object(Span::new(b"4.")).unwrap().1, Object::Float(b"4.".to_vec()));
    assert_eq!(object(Span::new(b"1e3")).unwrap().1, Object::Float(b"1e3".to_vec()));
    assert!(object(Span::new(b"1e")).is_err());
    assert!(object(Span::new(b"+")).is_err());
}

#[test]
fn duplicate_keys_keep_the_last_value() {
    let parsed = object(Span::new(b"<< /A 1 /B 2 /A 3 >>")).unwrap().1;
    let d = parsed.dictionary().unwrap();
    assert_eq!(d.len(), 2);
    assert_eq!(d.get(b"A"), Some(&Object::Integer(3)));
    assert_eq!(d.get(b"B"), Some(&Object::Integer(2)));
    assert_eq!(d.key_at(0).0, b"A".to_vec());
}

#[test]
fn stream_falls_back_to_the_keyword() {
    let (_, s) = stream_object(Span::new(b"<< /Length 2 >>stream\nabcdef\nendstream ")).unwrap();
    assert_eq!(s.data.0, b"abcdef\n".to_vec());
    let (_, s) = stream_object(Span::new(b"<< >>stream\r\nabc\nendstream")).unwrap();
    assert_eq!(s.data.0, b"abc\n".to_vec());
    let (_, s) = stream_object(Span::new(b"<< /Length 3 >>stream\nabc\r\nendstream")).unwrap();
    assert_eq!(s.data.0, b"abc".to_vec());
    let err = stream_object(Span::new(b"<< /Length 3 >>stream\rabc\nendstream")).unwrap_err();
    assert_eq!(err.kind, CbParseErrorKind::Generic(Context::Stream));
}

#[test]
fn matched_parentheses_parse_unchanged() {
    let mut input = vec![b'('];
    let mut content = Vec::new();
    for _ in 0..50 {
        content.push(b'(');
    }
    content.extend_from_slice(b"x");
    for _ in 0..50 {
        content.push(b')');
    }
    input.extend_from_slice(&content);
    input.push(b')');
    assert_eq!(object(Span::new(&input)).unwrap().1, Object::String(CbString(content)));
    assert!(object(Span::new(b"((a)")).is_err());
    assert!(object(Span::new(b"(a\\")).is_err());
}

#[test]
fn values_convert_into_objects() {
    assert_eq!(Object::from(true), Object::Bool(true));
    assert_eq!(Object::from(-3), Object::Integer(-3));
    let name: Name = b"Type".to_vec().into();
    assert_eq!(name, Name::from_str("Type"));
    assert_eq!(Name::new(b"Type".to_vec()), name);
    assert_eq!(Object::from(name.clone()), Object::Name(name));
    let text: CbString = b"abc".to_vec().into();
    assert_eq!(Object::from(text), Object::String(CbString(b"abc".to_vec())));
    let bytes: Bytes = vec![1, 2].into();
    assert_eq!(bytes, Bytes(vec![1, 2]));
    let array: Array = vec![Object::Null].into();
    assert_eq!(Object::from(array), Object::Array(Array(vec![Object::Null])));
    assert_eq!(Object::from(Dictionary::new()), Object::Dictionary(Dictionary::new()));
    assert_eq!(Object::Integer(5).duplicate(), Object::Integer(5));
    let source = object(Span::new(b"<< /a [1 (b) << /c <00> >>] >>")).unwrap().1;
    assert_eq!(source.duplicate(), source);
    assert!(source.dictionary().unwrap().contains_key(b"a"));
    assert_eq!(source.dictionary().unwrap().position(b"zz"), 1);
    assert_eq!(Object::Null.name(), None);
    assert_eq!(Object::Null.integer(), None);
    assert_eq!(Object::Integer(4).integer(), Some(4));
    assert_eq!(Object::Null.reference(), None);
    assert_eq!(Object::Null.hex_string(), None);
    assert_eq!(Object::Null.stream(), None);
    assert_eq!(Object::Null.indirect(), None);
    assert_eq!(Object::Null.array(), None);
}

#[test]
fn single_forms_read_only_their_own_form() {
    let (rest, o) = bool_object(Span::new(b"true ]")).unwrap();
    assert_eq!(o, Object::Bool(true));
    assert_eq!(rest.fragment(), b"]");
    assert_eq!(rest.location_offset(), 5);
    assert_eq!(bool_object(Span::new(b"false")).unwrap().1, Object::Bool(false));
    let failed = bool_object(Span::new(b"null")).unwrap_err();
    assert_eq!(failed.kind, CbParseErrorKind::Generic(Context::Object));
    assert_eq!(failed.position, 0);
    assert!(bool_object(Span::new(b"truely")).is_err());

    let (rest, o) = null_object(Span::new(b"null\n>>")).unwrap();
    assert_eq!(o, Object::Null);
    assert_eq!(rest.fragment(), b">>");
    assert!(null_object(Span::new(b"true")).is_err());
    assert!(null_object(Span::new(b"nullx")).is_err());

    let (rest, o) = string_object(Span::new(b"(a(b)c) /N")).unwrap();
    assert_eq!(o, Object::String(CbString::from(b"a(b)c".to_vec())));
    assert_eq!(rest.fragment(), b"/N");
    assert!(string_object(Span::new(b"<41>")).is_err());
    assert!(string_object(Span::new(b"(open")).is_err());

    let (rest, o) = hex_string_object(Span::new(b"<4A4b7> 1")).unwrap();
    assert_eq!(o, Object::HexString(Bytes::from(vec![0x4a, 0x4b, 0x70])));
    assert_eq!(rest.fragment(), b"1");
    assert!(hex_string_object(Span::new(b"(41)")).is_err());
    assert!(hex_string_object(Span::new(b"<4g>")).is_err());
    assert!(hex_string_object(Span::new(b"<<41>>")).is_err());
}

#[test]
fn dictionary_keeps_the_order_of_insertion() {
    let mut d = Dictionary::new();
    assert_eq!(d.len(), 0);
    d.insert(Name::from(b"B".to_vec()), Object::Integer(1));
    d.insert(Name::from(b"A".to_vec()), Object::Integer(2));
    d.insert(Name::from(b"B".to_vec()), Object::Integer(3));
    assert_eq!(d.len(), 2);
    assert_eq!(d.key_at(0), &Name::from(b"B".to_vec()));
    assert_eq!(d.value_at(0), &Object::Integer(3));
    assert_eq!(d.key_at(1), &Name::from(b"A".to_vec()));
    assert_eq!(d.value_at(1), &Object::Integer(2));
    assert_eq!(d.position(b"A"), 1);
    assert_eq!(d.position(b"C"), 2);
    assert!(d.contains_key(b"B"));
    assert!(!d.contains_key(b"b"));
    assert_eq!(d.get(b"A"), Some(&Object::Integer(2)));
    assert_eq!(d.get(b"C"), None);
}
