//! The grammar of PDF objects, as spec functions.
//!
//! Each function reads the sequence `s` from position `pos` on and gives what
//! stands there together with the position after it, or `None` where nothing
//! of the kind stands there. The executable parsers are specified against
//! these functions.
use vstd::prelude::*;
use vstd::string::*;
use crate::lex::{
    after_sign, matches_at, run_end, spec_hex_char_to_nibble, spec_is_delimiter, spec_signed32,
    spec_unsigned, ByteClass, BACKSLASH, GREATER_THAN, LEFT_BRACKET, LEFT_PAREN, LESS_THAN, LF,
    NUMBER_SIGN, PERCENT, PERIOD, RIGHT_BRACKET, RIGHT_PAREN, SOLIDUS,
};
use crate::pdf::object::{dict_get, dict_insert, Value};

verus! {

/// The bytes of a keyword.
pub open spec fn kw(k: &str) -> Seq<u8> {
    k.spec_bytes()
}

/// How long the keywords of the grammar are.
pub proof fn lemma_keywords()
    ensures
        kw("true").len() == 4,
        kw("false").len() == 5,
        kw("null").len() == 4,
        kw("<<").len() == 2,
        kw(">>").len() == 2,
        kw("obj").len() == 3,
        kw("endobj").len() == 6,
        kw("stream").len() == 6,
        kw("endstream").len() == 9,
        kw("\r\n").len() == 2,
        kw("xref").len() == 4,
        kw("trailer").len() == 7,
        kw("startxref").len() == 9,
        kw("%%EOF").len() == 5,
        kw("%PDF-").len() == 5,
        kw("Length") =~= seq![76u8, 101u8, 110u8, 103u8, 116u8, 104u8],
{
    broadcast use is_ascii_spec_bytes;

    reveal_strlit("true");
    reveal_strlit("false");
    reveal_strlit("null");
    reveal_strlit("<<");
    reveal_strlit(">>");
    reveal_strlit("obj");
    reveal_strlit("endobj");
    reveal_strlit("stream");
    reveal_strlit("endstream");
    reveal_strlit("\r\n");
    reveal_strlit("xref");
    reveal_strlit("trailer");
    reveal_strlit("startxref");
    reveal_strlit("%%EOF");
    reveal_strlit("%PDF-");
    reveal_strlit("Length");
    assert(is_ascii("true"));
    assert(is_ascii("false"));
    assert(is_ascii("null"));
    assert(is_ascii("<<"));
    assert(is_ascii(">>"));
    assert(is_ascii("obj"));
    assert(is_ascii("endobj"));
    assert(is_ascii("stream"));
    assert(is_ascii("endstream"));
    assert(is_ascii("\r\n"));
    assert(is_ascii("xref"));
    assert(is_ascii("trailer"));
    assert(is_ascii("startxref"));
    assert(is_ascii("%%EOF"));
    assert(is_ascii("%PDF-"));
    assert(is_ascii("Length"));
}

/// `to` lies after `from` and inside `s`: what a parser that consumed
/// something returns.
pub open spec fn advances(s: Seq<u8>, from: int, to: int) -> bool {
    from < to <= s.len()
}

/// The position after the whitespace and the comments that start at `pos`. A
/// comment runs from a `%` to the end of its line.
pub open spec fn skip_noise(s: Seq<u8>, pos: int) -> int
    decreases s.len() - pos,
{
    if pos < 0 || pos >= s.len() {
        pos
    } else if ByteClass::Space.holds(s[pos]) {
        skip_noise(s, pos + 1)
    } else if s[pos] == PERCENT {
        let e = run_end(s, pos + 1, ByteClass::NotLineEnd);
        if advances(s, pos, e) {
            skip_noise(s, e)
        } else {
            pos
        }
    } else {
        pos
    }
}

/// A token that has no closing delimiter of its own must be followed by the
/// end of the input, by whitespace or by a delimiter. Gives the position
/// after the whitespace and comments that follow.
pub open spec fn spec_termination(s: Seq<u8>, pos: int) -> Option<int> {
    if 0 <= pos < s.len() && !ByteClass::Space.holds(s[pos]) && !spec_is_delimiter(s[pos]) {
        None
    } else {
        Some(skip_noise(s, pos))
    }
}

/// `true` or `false`.
pub open spec fn spec_bool(s: Seq<u8>, pos: int) -> Option<(bool, int)> {
    if matches_at(s, pos, kw("true")) {
        match spec_termination(s, pos + 4) {
            Some(e) => Some((true, e)),
            None => None,
        }
    } else if matches_at(s, pos, kw("false")) {
        match spec_termination(s, pos + 5) {
            Some(e) => Some((false, e)),
            None => None,
        }
    } else {
        None
    }
}

/// `null`. Gives the position after it.
pub open spec fn spec_null(s: Seq<u8>, pos: int) -> Option<int> {
    if matches_at(s, pos, kw("null")) {
        spec_termination(s, pos + 4)
    } else {
        None
    }
}

/// Where the mantissa of a decimal number that starts at `pos` ends: digits
/// with an optional fraction, or a period and digits.
pub open spec fn mantissa_end(s: Seq<u8>, pos: int) -> Option<int> {
    let int_end = run_end(s, pos, ByteClass::Digit);
    if int_end > pos {
        if int_end < s.len() && s[int_end] == PERIOD {
            Some(run_end(s, int_end + 1, ByteClass::Digit))
        } else {
            Some(int_end)
        }
    } else if 0 <= pos < s.len() && s[pos] == PERIOD && run_end(s, pos + 1, ByteClass::Digit) > pos
        + 1 {
        Some(run_end(s, pos + 1, ByteClass::Digit))
    } else {
        None
    }
}

/// Where the decimal number that starts at `pos` ends: an optional sign, a
/// mantissa, and an optional exponent, which is `e` or `E`, an optional sign
/// and digits. An exponent mark that no digits follow is an error.
pub open spec fn float_end(s: Seq<u8>, pos: int) -> Option<int> {
    if pos < 0 {
        None
    } else {
        match mantissa_end(s, after_sign(s, pos)) {
            Some(m) => {
                if 0 <= m < s.len() && (s[m] == 101 || s[m] == 69) {
                    let digits = after_sign(s, m + 1);
                    let end = run_end(s, digits, ByteClass::Digit);
                    if end > digits {
                        Some(end)
                    } else {
                        None
                    }
                } else {
                    Some(m)
                }
            },
            None => None,
        }
    }
}

/// A number: a signed integer of 32 bits where one stands, else a decimal
/// number, which is kept as it is written.
pub open spec fn spec_number(s: Seq<u8>, pos: int) -> Option<(Value, int)> {
    let as_integer = match spec_signed32(s, pos) {
        Some((v, e)) => match spec_termination(s, e) {
            Some(t) => Some((Value::Integer(v), t)),
            None => None,
        },
        None => None,
    };
    if as_integer is Some {
        as_integer
    } else {
        match float_end(s, pos) {
            Some(e) => match spec_termination(s, e) {
                Some(t) => Some((Value::Float(s.subrange(pos, e)), t)),
                None => None,
            },
            None => None,
        }
    }
}

/// The bytes that the raw name `s[from..to]` stands for: `#` and two
/// hexadecimal digits stand for one byte, any other byte for itself. `None`
/// where a `#` is not followed by two hexadecimal digits.
pub open spec fn name_decoded(s: Seq<u8>, from: int, to: int) -> Option<Seq<u8>>
    decreases to - from,
{
    if from >= to {
        Some(Seq::empty())
    } else if s[from] == NUMBER_SIGN {
        if from + 2 < to && spec_hex_char_to_nibble(s[from + 1]) is Some && spec_hex_char_to_nibble(
            s[from + 2],
        ) is Some {
            match name_decoded(s, from + 3, to) {
                Some(rest) => Some(
                    seq![
                        (spec_hex_char_to_nibble(s[from + 1])->0 * 16 + spec_hex_char_to_nibble(
                            s[from + 2],
                        )->0) as u8,
                    ] + rest,
                ),
                None => None,
            }
        } else {
            None
        }
    } else {
        match name_decoded(s, from + 1, to) {
            Some(rest) => Some(seq![s[from]] + rest),
            None => None,
        }
    }
}

/// A solidus and the regular bytes after it, properly terminated. Gives
/// where the regular bytes end and the position after the name.
pub open spec fn spec_raw_name(s: Seq<u8>, pos: int) -> Option<(int, int)> {
    if 0 <= pos < s.len() && s[pos] == SOLIDUS {
        let e = run_end(s, pos + 1, ByteClass::Regular);
        match spec_termination(s, e) {
            Some(t) => Some((e, t)),
            None => None,
        }
    } else {
        None
    }
}

/// A name.
pub open spec fn spec_name(s: Seq<u8>, pos: int) -> Option<(Seq<u8>, int)> {
    match spec_raw_name(s, pos) {
        Some((e, t)) => match name_decoded(s, pos + 1, e) {
            Some(n) => Some((n, t)),
            None => None,
        },
        None => None,
    }
}

/// A name stands at `pos` whose `#` escapes are malformed.
pub open spec fn invalid_name_at(s: Seq<u8>, pos: int) -> bool {
    spec_raw_name(s, pos) is Some && spec_name(s, pos) is None
}

/// Where the parenthesis stands that closes a literal string, read from
/// `pos` on with `depth` parentheses open inside the string. A backslash
/// takes the byte after it with it, whatever it is.
pub open spec fn string_close(s: Seq<u8>, pos: int, depth: nat) -> Option<int>
    decreases s.len() - pos,
{
    if pos < 0 || pos >= s.len() {
        None
    } else if s[pos] == BACKSLASH {
        if pos + 1 < s.len() {
            string_close(s, pos + 2, depth)
        } else {
            None
        }
    } else if s[pos] == LEFT_PAREN {
        string_close(s, pos + 1, depth + 1)
    } else if s[pos] == RIGHT_PAREN {
        if depth == 0 {
            Some(pos)
        } else {
            string_close(s, pos + 1, (depth - 1) as nat)
        }
    } else {
        string_close(s, pos + 1, depth)
    }
}

/// A literal string: the bytes between the outer parentheses, as they stand.
pub open spec fn spec_string(s: Seq<u8>, pos: int) -> Option<(Seq<u8>, int)> {
    if 0 <= pos < s.len() && s[pos] == LEFT_PAREN {
        match string_close(s, pos + 1, 0) {
            Some(close) => Some((s.subrange(pos + 1, close), skip_noise(s, close + 1))),
            None => None,
        }
    } else {
        None
    }
}

/// The bytes that the hexadecimal digits `digits` write, two digits to a
/// byte; a last single digit is the high half of a byte whose low half is
/// zero.
#[verifier::opaque]
pub open spec fn hex_decoded(digits: Seq<u8>) -> Seq<u8> {
    Seq::new(
        ((digits.len() + 1) / 2) as nat,
        |i: int|
            (spec_hex_char_to_nibble(digits[2 * i]).unwrap_or(0) * 16 + (if 2 * i + 1
                < digits.len() {
                spec_hex_char_to_nibble(digits[2 * i + 1]).unwrap_or(0)
            } else {
                0
            })) as u8,
    )
}

/// A hexadecimal string: one or more digits between `<` and `>`.
pub open spec fn spec_hex_string(s: Seq<u8>, pos: int) -> Option<(Seq<u8>, int)> {
    if 0 <= pos < s.len() && s[pos] == LESS_THAN {
        let e = run_end(s, pos + 1, ByteClass::HexDigit);
        if e > pos + 1 && e < s.len() && s[e] == GREATER_THAN {
            Some((hex_decoded(s.subrange(pos + 1, e)), skip_noise(s, e + 1)))
        } else {
            None
        }
    } else {
        None
    }
}

/// The first position from `pos` on at which `kw` stands.
pub open spec fn find_first(s: Seq<u8>, pos: int, kw: Seq<u8>) -> Option<int>
    decreases s.len() - pos,
{
    if pos < 0 || pos >= s.len() || pos + kw.len() > s.len() {
        None
    } else if matches_at(s, pos, kw) {
        Some(pos)
    } else {
        find_first(s, pos + 1, kw)
    }
}

/// The position after an optional line end, `\n` or `\r\n`, at `pos`.
pub open spec fn after_line_end(s: Seq<u8>, pos: int) -> int {
    if matches_at(s, pos, kw("\r\n")) {
        pos + 2
    } else if 0 <= pos < s.len() && s[pos] == LF {
        pos + 1
    } else {
        pos
    }
}

/// The payload of a stream whose dictionary gives its length: `length`
/// bytes, an optional line end, `endstream`.
pub open spec fn stream_by_length(s: Seq<u8>, pos: int, length: nat) -> Option<(Seq<u8>, int)> {
    if 0 <= pos && pos + length <= s.len() {
        let e = after_line_end(s, pos + length);
        if matches_at(s, e, kw("endstream")) {
            match spec_termination(s, e + 9) {
                Some(t) => Some((s.subrange(pos, pos + length), t)),
                None => None,
            }
        } else {
            None
        }
    } else {
        None
    }
}

/// The payload of a stream found by its end: the bytes up to the first
/// `endstream`.
pub open spec fn stream_by_keyword(s: Seq<u8>, pos: int) -> Option<(Seq<u8>, int)> {
    match find_first(s, pos, kw("endstream")) {
        Some(e) => match spec_termination(s, e + 9) {
            Some(t) => Some((s.subrange(pos, e), t)),
            None => None,
        },
        None => None,
    }
}

/// The length that a stream's dictionary announces: its `Length` entry where
/// that is a non-negative integer, else zero.
pub open spec fn announced_length(d: Seq<(Seq<u8>, Value)>) -> nat {
    match dict_get(d, kw("Length")) {
        Some(Value::Integer(l)) => if l >= 0 {
            l as nat
        } else {
            0
        },
        _ => 0,
    }
}

/// The payload of a stream after the line end that follows `stream`: by the
/// announced length where that leads to `endstream`, else by the keyword.
pub open spec fn stream_payload(s: Seq<u8>, pos: int, d: Seq<(Seq<u8>, Value)>) -> Option<
    (Seq<u8>, int),
> {
    match stream_by_length(s, pos, announced_length(d)) {
        Some(r) => Some(r),
        None => stream_by_keyword(s, pos),
    }
}

/// Any object. The kinds are tried in this order: dictionary, array, literal
/// string, reference or indirect object, number, boolean, null, hexadecimal
/// string, name.
pub open spec fn spec_object(s: Seq<u8>, pos: int) -> Option<(Value, int)>
    decreases s.len() - pos, 10int,
{
    if pos < 0 || pos >= s.len() {
        None
    } else if let Some((d, e)) = spec_dictionary(s, pos) {
        Some((Value::Dictionary(d), e))
    } else if let Some((a, e)) = spec_array(s, pos) {
        Some((Value::Array(a), e))
    } else if let Some((b, e)) = spec_string(s, pos) {
        Some((Value::String(b), e))
    } else if let Some(r) = spec_indirect(s, pos) {
        Some(r)
    } else if let Some(r) = spec_number(s, pos) {
        Some(r)
    } else if let Some((b, e)) = spec_bool(s, pos) {
        Some((Value::Bool(b), e))
    } else if let Some(e) = spec_null(s, pos) {
        Some((Value::Null, e))
    } else if let Some((b, e)) = spec_hex_string(s, pos) {
        Some((Value::HexString(b), e))
    } else if let Some((n, e)) = spec_name(s, pos) {
        Some((Value::Name(n), e))
    } else {
        None
    }
}

/// The objects that stand one after another from `pos` on, added to `acc`,
/// and the position at which no further object stands.
pub open spec fn spec_elements(s: Seq<u8>, pos: int, acc: Seq<Value>) -> (Seq<Value>, int)
    decreases s.len() - pos, 20int,
{
    match spec_object(s, pos) {
        Some((v, e)) => if advances(s, pos, e) {
            spec_elements(s, e, acc.push(v))
        } else {
            (acc, pos)
        },
        None => (acc, pos),
    }
}

/// An array: `[`, objects, `]`.
pub open spec fn spec_array(s: Seq<u8>, pos: int) -> Option<(Seq<Value>, int)>
    decreases s.len() - pos, 5int,
{
    if 0 <= pos < s.len() && s[pos] == LEFT_BRACKET {
        let p = skip_noise(s, pos + 1);
        if advances(s, pos, p) {
            let (elements, q) = spec_elements(s, p, Seq::empty());
            if 0 <= q < s.len() && s[q] == RIGHT_BRACKET {
                Some((elements, skip_noise(s, q + 1)))
            } else {
                None
            }
        } else {
            None
        }
    } else {
        None
    }
}

/// The entries, a name and an object each, that stand one after another from
/// `pos` on, put into `acc` in turn, and the position at which no further
/// entry stands. A key that comes again replaces the value that was there.
pub open spec fn spec_entries(s: Seq<u8>, pos: int, acc: Seq<(Seq<u8>, Value)>) -> (
    Seq<(Seq<u8>, Value)>,
    int,
)
    decreases s.len() - pos, 20int,
{
    match spec_name(s, pos) {
        Some((key, p)) => if advances(s, pos, p) {
            match spec_object(s, p) {
                Some((v, e)) => {
                    let next = skip_noise(s, e);
                    if advances(s, pos, next) {
                        spec_entries(s, next, dict_insert(acc, key, v))
                    } else {
                        (acc, pos)
                    }
                },
                None => (acc, pos),
            }
        } else {
            (acc, pos)
        },
        None => (acc, pos),
    }
}

/// A dictionary: `<<`, entries, `>>`.
pub open spec fn spec_dictionary(s: Seq<u8>, pos: int) -> Option<(Seq<(Seq<u8>, Value)>, int)>
    decreases s.len() - pos, 5int,
{
    if matches_at(s, pos, kw("<<")) {
        let p = skip_noise(s, pos + 2);
        if advances(s, pos, p) {
            let (entries, q) = spec_entries(s, p, Seq::empty());
            if matches_at(s, q, kw(">>")) {
                Some((entries, skip_noise(s, q + 2)))
            } else {
                None
            }
        } else {
            None
        }
    } else {
        None
    }
}

/// A stream: a dictionary, `stream`, a line end that is `\r\n` or `\n`, the
/// payload, `endstream`.
pub open spec fn spec_stream(s: Seq<u8>, pos: int) -> Option<(Seq<(Seq<u8>, Value)>, Seq<u8>, int)>
    decreases s.len() - pos, 6int,
{
    match spec_dictionary(s, pos) {
        Some((d, p)) => {
            if matches_at(s, p, kw("stream")) {
                let start = after_line_end(s, p + 6);
                if start > p + 6 {
                    match stream_payload(s, start, d) {
                        Some((data, e)) => Some((d, data, e)),
                        None => None,
                    }
                } else {
                    None
                }
            } else {
                None
            }
        },
        None => None,
    }
}

/// What stands between `obj` and `endobj`: a stream where there is one, else
/// any object.
pub open spec fn spec_indirect_body(s: Seq<u8>, pos: int) -> Option<(Value, int)>
    decreases s.len() - pos, 12int,
{
    match spec_stream(s, pos) {
        Some((d, data, e)) => Some((Value::Stream(d, data), e)),
        None => spec_object(s, pos),
    }
}

/// The two numbers that a reference and an indirect object start with, each
/// followed by whitespace. Gives the numbers and the position after them.
pub open spec fn spec_object_id(s: Seq<u8>, pos: int) -> Option<(u32, u32, int)> {
    match spec_unsigned(s, pos, u32::MAX as nat) {
        Some((number, at1)) => {
            let at2 = run_end(s, at1, ByteClass::Space);
            match spec_unsigned(s, at2, u32::MAX as nat) {
                Some((generation, at3)) => {
                    let at4 = run_end(s, at3, ByteClass::Space);
                    if at2 > at1 && at4 > at3 {
                        Some((number as u32, generation as u32, at4))
                    } else {
                        None
                    }
                },
                None => None,
            }
        },
        None => None,
    }
}

/// A reference, `N G R`, or an indirect object, `N G obj`, its body,
/// `endobj`.
pub open spec fn spec_indirect(s: Seq<u8>, pos: int) -> Option<(Value, int)>
    decreases s.len() - pos, 8int,
{
    match spec_object_id(s, pos) {
        Some((number, generation, p)) => {
            let reference = if 0 <= p < s.len() && s[p] == 82 {
                spec_termination(s, p + 1)
            } else {
                None
            };
            if let Some(t) = reference {
                Some((Value::Reference(number, generation), t))
            } else if matches_at(s, p, kw("obj")) {
                let body = skip_noise(s, p + 3);
                if advances(s, pos, body) {
                    match spec_indirect_body(s, body) {
                        Some((v, e)) => {
                            if matches_at(s, e, kw("endobj")) {
                                match spec_termination(s, e + 6) {
                                    Some(t) => Some(
                                        (Value::Indirect(number, generation, Box::new(v)), t),
                                    ),
                                    None => None,
                                }
                            } else {
                                None
                            }
                        },
                        None => None,
                    }
                } else {
                    None
                }
            } else {
                None
            }
        },
        None => None,
    }
}

} // verus!
