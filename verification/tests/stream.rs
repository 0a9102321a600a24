use claybrick::parse::error::FilterError;
use claybrick::pdf::filter::{decode_ascii_hex, decode_flate, filter, flate_outcome};
use claybrick::pdf::object::{Array, Bytes, Dictionary, Name, Object, Stream};

#[test]
fn test_decode_ascii_hex() {
    assert_eq!(
        Ok(Bytes(b"Hello world!".to_vec())),
        decode_ascii_hex(&b"48656c6c6f20776f726c6421"[..])
    );
    assert_eq!(
        Ok(Bytes(b"Hello world!".to_vec())),
        decode_ascii_hex(&b" 48656c6c6f20776f726c6421 "[..])
    );
    assert_eq!(
        Ok(Bytes(b"Hello world!".to_vec())),
        decode_ascii_hex(&b"4 8 6 5 6 c 6 c 6 f 2 0 7 7 6 f 7 2 6 c 6 4 2 1"[..])
    );
}

#[test]
fn ascii_hex_ends_at_the_marker_and_pads() {
    assert_eq!(Ok(Bytes(vec![0x12, 0x30])), decode_ascii_hex(b"123>zz"));
    assert_eq!(Ok(Bytes(vec![0xAB, 0xC0])), decode_ascii_hex(b"aB\x0cc"));
    assert_eq!(Ok(Bytes(vec![])), decode_ascii_hex(b""));
    assert_eq!(Err(FilterError::InvalidData), decode_ascii_hex(b"12x>"));
}

const ZLIB_HELLO: [u8; 19] = [
    0x78, 0x9c, 0xcb, 0x48, 0xcd, 0xc9, 0xc9, 0x57, 0x28, 0xcf, 0x2f, 0xca, 0x49, 0x01, 0x00, 0x1a,
    0x0b, 0x04, 0x5d,
];

#[test]
fn flate_decompresses_zlib_streams() {
    assert_eq!(decode_flate(&Bytes(ZLIB_HELLO.to_vec())), Ok(Bytes(b"hello world".to_vec())));
    assert_eq!(decode_flate(&Bytes(ZLIB_HELLO[..10].to_vec())), Err(FilterError::InvalidData));
    assert_eq!(decode_flate(&Bytes(b"no zlib".to_vec())), Err(FilterError::InvalidData));
    assert_eq!(flate_outcome(None), Err(FilterError::InvalidData));
    assert_eq!(flate_outcome(Some(vec![1, 2])), Ok(Bytes(vec![1, 2])));
}

#[test]
fn filters_are_chosen_by_name() {
    let data = Bytes(b"6162>".to_vec());
    assert_eq!(filter(&Name::from_str("ASCIIHexDecode"), None, &data), Ok(Bytes(b"ab".to_vec())));
    for name in [
        "ASCII85Decode",
        "LZWDecode",
        "RunLengthDecode",
        "CCITTFaxDecode",
        "JBIG2Decode",
        "DCTDecode",
        "JPXDecode",
        "Crypt",
    ] {
        assert_eq!(
            filter(&Name::from_str(name), None, &data),
            Err(FilterError::UnsupportedFilter(Name::from_str(name)))
        );
    }
    assert_eq!(
        filter(&Name::from_str("Nonsense"), None, &data),
        Err(FilterError::UnknownFilter(Name::from_str("Nonsense")))
    );
}

fn stream_with_filter(filter: Option<Object>, data: &[u8]) -> Stream {
    let mut dictionary = Dictionary::new();
    if let Some(f) = filter {
        dictionary.insert(Name::from_str("Filter"), f);
    }
    Stream { dictionary, data: Bytes(data.to_vec()) }
}

#[test]
fn stream_without_filter_is_its_payload() {
    let s = stream_with_filter(None, b"plain \x00 bytes");
    assert_eq!(s.filters(), Ok(vec![]));
    assert_eq!(s.filtered_data(), Ok(Bytes(b"plain \x00 bytes".to_vec())));
}

#[test]
fn filter_chain_runs_in_order() {
    // hexadecimal digits of the zlib stream
    let mut hex = Vec::new();
    for b in ZLIB_HELLO {
        hex.extend_from_slice(format!("{:02X}", b).as_bytes());
    }
    let chain = Object::Array(Array(vec![
        Object::Name(Name::from_str("ASCIIHexDecode")),
        Object::Name(Name::from_str("FlateDecode")),
    ]));
    let s = stream_with_filter(Some(chain), &hex);
    assert_eq!(s.filters().unwrap().len(), 2);
    assert_eq!(s.filtered_data(), Ok(Bytes(b"hello world".to_vec())));

    let s = stream_with_filter(Some(Object::Name(Name::from_str("FlateDecode"))), &ZLIB_HELLO);
    assert_eq!(s.filtered_data(), Ok(Bytes(b"hello world".to_vec())));

    let s = stream_with_filter(Some(Object::Integer(1)), b"");
    assert_eq!(s.filters(), Err(FilterError::InvalidFilter));
    let s = stream_with_filter(
        Some(Object::Array(Array(vec![Object::Name(Name::from_str("FlateDecode")), Object::Null]))),
        b"",
    );
    assert_eq!(s.filtered_data(), Err(FilterError::InvalidFilter));
    let s = stream_with_filter(
        Some(Object::Array(Array(vec![
            Object::Name(Name::from_str("LZWDecode")),
            Object::Name(Name::from_str("Nonsense")),
        ]))),
        b"",
    );
    assert_eq!(
        s.filtered_data(),
        Err(FilterError::UnsupportedFilter(Name::from_str("LZWDecode")))
    );
}
