use claybrick::lex::{signed32, skip_while, unsigned32, unsigned64, unsigned8, ByteClass};
use claybrick::parse::object::{noise_end, parse_float, until_parenthesis};
use nom::error::Error;

const SAMPLES: [&[u8]; 40] = [
    b"",
    b"0",
    b"7",
    b"007",
    b"123 ",
    b"123abc",
    b"+5",
    b"-5",
    b"+-5",
    b"-",
    b"+",
    b"255",
    b"256",
    b"4294967295",
    b"4294967296",
    b"2147483647",
    b"2147483648",
    b"-2147483648",
    b"-2147483649",
    b"18446744073709551615",
    b"18446744073709551616",
    b"99999999999999999999999999",
    b"1.5",
    b"-1.5e3",
    b".5",
    b"5.",
    b".",
    b"1e5",
    b"1e",
    b"1e+",
    b"1E-7x",
    b"+.5E2)",
    b"1..2",
    b"-.e1",
    b"abc",
    b" 12",
    b"12.5.8",
    b"0x10",
    b"1_000",
    b"\x0012",
];

#[test]
fn integers_are_read_as_by_the_parser_library() {
    for input in SAMPLES {
        let theirs = nom::character::complete::i32::<&[u8], Error<&[u8]>>(input)
            .ok()
            .map(|(rest, v)| (v, input.len() - rest.len()));
        assert_eq!(signed32(input, 0), theirs, "{:?}", String::from_utf8_lossy(input));
        let theirs = nom::character::complete::u32::<&[u8], Error<&[u8]>>(input)
            .ok()
            .map(|(rest, v)| (v, input.len() - rest.len()));
        assert_eq!(unsigned32(input, 0), theirs, "{:?}", String::from_utf8_lossy(input));
        let theirs = nom::character::complete::u64::<&[u8], Error<&[u8]>>(input)
            .ok()
            .map(|(rest, v)| (v, input.len() - rest.len()));
        assert_eq!(unsigned64(input, 0), theirs, "{:?}", String::from_utf8_lossy(input));
        let theirs = nom::character::complete::u8::<&[u8], Error<&[u8]>>(input)
            .ok()
            .map(|(rest, v)| (v, input.len() - rest.len()));
        assert_eq!(unsigned8(input, 0), theirs, "{:?}", String::from_utf8_lossy(input));
    }
}

#[test]
fn decimal_numbers_are_recognised_as_by_the_parser_library() {
    for input in SAMPLES {
        let theirs = nom::number::complete::recognize_float::<&[u8], Error<&[u8]>>(input)
            .ok()
            .map(|(rest, _)| input.len() - rest.len());
        assert_eq!(parse_float(input, 0), theirs, "{:?}", String::from_utf8_lossy(input));
    }
}

#[test]
fn runs_of_bytes_end_as_in_the_parser_library() {
    let inputs: Vec<&[u8]> = vec![
        b"",
        b"  \t\r\n x",
        b"\x0c  ",
        b"abc",
        b"0123456789abcdefABCDEFg",
        b"FfX",
        b"12 34",
        b"line one\nline two",
        b"line\r\n",
        b"\n",
    ];
    for input in inputs {
        let theirs = nom::character::complete::multispace0::<&[u8], Error<&[u8]>>(input)
            .map(|(rest, _)| input.len() - rest.len())
            .unwrap();
        assert_eq!(skip_while(input, 0, ByteClass::Space), theirs);
        let theirs = nom::character::complete::hex_digit0::<&[u8], Error<&[u8]>>(input)
            .map(|(rest, _)| input.len() - rest.len())
            .unwrap();
        assert_eq!(skip_while(input, 0, ByteClass::HexDigit), theirs);
        let theirs = nom::character::complete::digit0::<&[u8], Error<&[u8]>>(input)
            .map(|(rest, _)| input.len() - rest.len())
            .unwrap();
        assert_eq!(skip_while(input, 0, ByteClass::Digit), theirs);
        let theirs =
            nom::bytes::complete::take_till::<_, &[u8], Error<&[u8]>>(|c| c == b'\r' || c == b'\n')(
                input,
            )
            .map(|(rest, _)| input.len() - rest.len())
            .unwrap();
        assert_eq!(skip_while(input, 0, ByteClass::NotLineEnd), theirs);
    }
    assert_eq!(skip_while(b"ab cd", 3, ByteClass::Regular), 5);
    assert_eq!(skip_while(b"ab/cd", 0, ByteClass::Regular), 2);
    assert_eq!(skip_while(b"ab\x0ccd", 0, ByteClass::Regular), 2);
    assert!(ByteClass::Regular.test(0));
    assert!(!ByteClass::Space.test(0x0c));
}

#[test]
fn noise_is_whitespace_and_comments() {
    assert_eq!(noise_end(b"  % a comment\r\n\t%another\n x", 0), 26);
    assert_eq!(noise_end(b"%to the end", 0), 11);
    assert_eq!(noise_end(b"x %", 0), 0);
    assert_eq!(noise_end(b"x %", 1), 3);
    assert_eq!(until_parenthesis(b"ab\\(cd)", 0), 6);
    assert_eq!(until_parenthesis(b"ab\\", 0), 2);
    assert_eq!(until_parenthesis(b"abc", 1), 3);
}
