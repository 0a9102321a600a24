//! How numbers, names and strings are written.
use vstd::prelude::*;
use crate::lex::{
    is_regular, spec_is_regular, BACKSLASH, LEFT_PAREN, MINUS, NUMBER_SIGN, RIGHT_PAREN, SOLIDUS,
};
use crate::parse::grammar::string_close;
use crate::pdf::object::{digits, digits_of};
use crate::parse::object::find_string_close;

verus! {

/// The decimal digits that write `n`.
pub open spec fn unsigned_text(n: nat) -> Seq<u8> {
    digits_of(n)
}

/// The decimal digits that write `i`, after a minus sign where `i` is
/// negative.
pub open spec fn integer_text(i: int) -> Seq<u8> {
    if i < 0 {
        seq![MINUS] + unsigned_text((-i) as nat)
    } else {
        unsigned_text(i as nat)
    }
}

/// Writes `n` in decimal digits.
pub fn unsigned_digits(n: u64) -> (r: Vec<u8>)
    ensures
        r@ == unsigned_text(n as nat),
{
    digits(n)
}

/// Writes `i` in decimal digits, with a minus sign where it is negative.
pub fn integer_digits(i: i32) -> (r: Vec<u8>)
    ensures
        r@ == integer_text(i as int),
{
    if i < 0 {
        let mut digits: Vec<u8> = Vec::new();
        digits.push(MINUS);
        let mut magnitude = unsigned_digits((-(i as i64)) as u64);
        assert(digits@ =~= seq![MINUS]);
        digits.append(&mut magnitude);
        digits
    } else {
        unsigned_digits(i as u64)
    }
}

/// The lower-case hexadecimal digit of the value `n`.
pub open spec fn hex_digit(n: u8) -> u8 {
    if n < 10 {
        (48 + n) as u8
    } else {
        (87 + n) as u8
    }
}

/// `data` in lower-case hexadecimal digits, two for each byte, the high half
/// first.
#[verifier::opaque]
pub open spec fn hex_encoding(data: Seq<u8>) -> Seq<u8> {
    Seq::new(
        2 * data.len(),
        |i: int|
            hex_digit(
                if i % 2 == 0 {
                    data[i / 2] / 16
                } else {
                    data[i / 2] % 16
                },
            ),
    )
}

/// Calls `hex::encode` and takes the bytes of the string that it returns.
/// The string writes each byte of `data` in two hexadecimal digits, the high
/// half first, with the letters `a` to `f` in lower case.
#[verifier::external_body]
pub(crate) fn hex_encode(data: &[u8]) -> (r: Vec<u8>)
    ensures
        r@ == hex_encoding(data@),
{
    hex::encode(data).into_bytes()
}

/// Whether a byte of a name is written as it is: a regular byte other than
/// the number sign.
pub open spec fn plain_in_name(c: u8) -> bool {
    spec_is_regular(c) && c != NUMBER_SIGN
}

/// How one byte of a name is written: as it is, or as a number sign and its
/// two hexadecimal digits.
pub open spec fn name_byte_text(c: u8) -> Seq<u8> {
    if plain_in_name(c) {
        seq![c]
    } else {
        seq![NUMBER_SIGN] + hex_encoding(seq![c])
    }
}

/// How the bytes `n[from..]` of a name are written.
pub open spec fn name_body(n: Seq<u8>, from: int) -> Seq<u8>
    decreases n.len() - from,
{
    if from < 0 || from >= n.len() {
        Seq::empty()
    } else {
        name_byte_text(n[from]) + name_body(n, from + 1)
    }
}

/// How the name `n` is written: a solidus and its bytes.
pub open spec fn name_text(n: Seq<u8>) -> Seq<u8> {
    seq![SOLIDUS] + name_body(n, 0)
}

/// Writes the name `n`.
pub fn encode_name(n: &[u8]) -> (r: Vec<u8>)
    ensures
        r@ == name_text(n@),
{
    let mut out: Vec<u8> = Vec::new();
    out.push(SOLIDUS);
    let mut i: usize = 0;
    assert(out@ =~= seq![SOLIDUS]);
    while i < n.len()
        invariant
            i <= n.len(),
            name_text(n@) == out@ + name_body(n@, i as int),
        decreases n.len() - i,
    {
        let c = n[i];
        if is_regular(c) && c != NUMBER_SIGN {
            assert(out@.push(c) + name_body(n@, i + 1) =~= out@ + (seq![c] + name_body(
                n@,
                i + 1,
            )));
            out.push(c);
        } else {
            let byte: [u8; 1] = [c];
            let mut digits = hex_encode(byte.as_slice());
            assert(byte@ =~= seq![c]);
            assert((out@.push(NUMBER_SIGN) + digits@) + name_body(n@, i + 1) =~= out@ + ((
            seq![NUMBER_SIGN] + hex_encoding(seq![c])) + name_body(n@, i + 1)));
            out.push(NUMBER_SIGN);
            out.append(&mut digits);
        }
        i += 1;
    }
    assert(out@ + Seq::<u8>::empty() =~= out@);
    out
}

/// How the bytes `s[pos..]` of a literal string are written, `depth`
/// parentheses being open that are closed further on. A backslash stays
/// with the byte after it. A parenthesis that has its partner is written as
/// it is; one that has none gets a backslash before it, and so does a
/// backslash that nothing follows.
pub open spec fn string_body(s: Seq<u8>, pos: int, depth: nat) -> Seq<u8>
    decreases s.len() - pos,
{
    if pos < 0 || pos >= s.len() {
        Seq::empty()
    } else if s[pos] == BACKSLASH {
        if pos + 1 < s.len() {
            seq![BACKSLASH, s[pos + 1]] + string_body(s, pos + 2, depth)
        } else {
            seq![BACKSLASH, BACKSLASH]
        }
    } else if s[pos] == LEFT_PAREN {
        if string_close(s, pos + 1, 0) is Some {
            seq![LEFT_PAREN] + string_body(s, pos + 1, depth + 1)
        } else {
            seq![BACKSLASH, LEFT_PAREN] + string_body(s, pos + 1, depth)
        }
    } else if s[pos] == RIGHT_PAREN {
        if depth > 0 {
            seq![RIGHT_PAREN] + string_body(s, pos + 1, (depth - 1) as nat)
        } else {
            seq![BACKSLASH, RIGHT_PAREN] + string_body(s, pos + 1, depth)
        }
    } else {
        seq![s[pos]] + string_body(s, pos + 1, depth)
    }
}

/// How the literal string with the content `s` is written.
pub open spec fn string_text(s: Seq<u8>) -> Seq<u8> {
    seq![LEFT_PAREN] + string_body(s, 0, 0) + seq![RIGHT_PAREN]
}

/// Writes the literal string with the content `s`.
pub fn encode_string(s: &[u8]) -> (r: Vec<u8>)
    ensures
        r@ == string_text(s@),
{
    let mut out: Vec<u8> = Vec::new();
    out.push(LEFT_PAREN);
    let mut i: usize = 0;
    let mut depth: usize = 0;
    assert(out@ =~= seq![LEFT_PAREN]);
    while i < s.len()
        invariant
            i <= s.len(),
            depth <= i,
            seq![LEFT_PAREN] + string_body(s@, 0, 0) == out@ + string_body(
                s@,
                i as int,
                depth as nat,
            ),
        decreases s.len() - i,
    {
        let c = s[i];
        let ghost before = out@;
        if c == BACKSLASH {
            out.push(BACKSLASH);
            if s.len() - i > 1 {
                out.push(s[i + 1]);
                assert(out@ + string_body(s@, i + 2, depth as nat) =~= before + (seq![
                    BACKSLASH,
                    s@[i + 1],
                ] + string_body(s@, i + 2, depth as nat)));
                i += 2;
            } else {
                out.push(BACKSLASH);
                assert(out@ + string_body(s@, i + 1, depth as nat) =~= before + seq![
                    BACKSLASH,
                    BACKSLASH,
                ]);
                i += 1;
            }
        } else if c == LEFT_PAREN {
            if find_string_close(s, i + 1).is_some() {
                out.push(LEFT_PAREN);
                assert(out@ + string_body(s@, i + 1, (depth + 1) as nat) =~= before + (seq![
                    LEFT_PAREN,
                ] + string_body(s@, i + 1, (depth + 1) as nat)));
                depth += 1;
            } else {
                out.push(BACKSLASH);
                out.push(LEFT_PAREN);
                assert(out@ + string_body(s@, i + 1, depth as nat) =~= before + (seq![
                    BACKSLASH,
                    LEFT_PAREN,
                ] + string_body(s@, i + 1, depth as nat)));
            }
            i += 1;
        } else if c == RIGHT_PAREN {
            if depth > 0 {
                out.push(RIGHT_PAREN);
                assert(out@ + string_body(s@, i + 1, (depth - 1) as nat) =~= before + (seq![
                    RIGHT_PAREN,
                ] + string_body(s@, i + 1, (depth - 1) as nat)));
                depth -= 1;
            } else {
                out.push(BACKSLASH);
                out.push(RIGHT_PAREN);
                assert(out@ + string_body(s@, i + 1, depth as nat) =~= before + (seq![
                    BACKSLASH,
                    RIGHT_PAREN,
                ] + string_body(s@, i + 1, depth as nat)));
            }
            i += 1;
        } else {
            out.push(c);
            assert(out@ + string_body(s@, i + 1, depth as nat) =~= before + (seq![c]
                + string_body(s@, i + 1, depth as nat)));
            i += 1;
        }
    }
    assert(out@ + Seq::<u8>::empty() =~= out@);
    out.push(RIGHT_PAREN);
    assert(out@ =~= string_text(s@));
    out
}

} // verus!
