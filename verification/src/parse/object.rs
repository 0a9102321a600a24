//! The parser of PDF objects.
use vstd::prelude::*;
use vstd::slice::slice_subrange;
use vstd::slice::slice_to_vec;
use crate::lex::{
    hex_char_to_nibble, signed32, skip_while, spec_hex_char_to_nibble, tag, unsigned32,
    lemma_run_end, ByteClass, BACKSLASH, GREATER_THAN, LEFT_BRACKET, LEFT_PAREN, LESS_THAN, LF,
    MINUS, NUMBER_SIGN, PERCENT, PERIOD, PLUS, RIGHT_BRACKET, RIGHT_PAREN, SOLIDUS,
};
use crate::parse::grammar::{
    after_line_end, announced_length, find_first, float_end, hex_decoded, invalid_name_at, kw,
    lemma_keywords, mantissa_end, name_decoded, skip_noise, spec_array, spec_bool, spec_dictionary,
    spec_elements, spec_entries, spec_hex_string, spec_indirect, spec_indirect_body, spec_name,
    spec_null, spec_number, spec_object, spec_object_id, spec_stream, spec_string,
    spec_termination, stream_by_keyword, stream_by_length, string_close,
};
use crate::parse::error::{CbParseError, CbParseErrorKind, Context};
use crate::parse::{follows, fails_at, Span};
use crate::pdf::object::{
    lemma_model, values_of, Array, Bytes, CbString, Dictionary, IndirectObject, Name, Object, Reference,
    Stream, Value,
};

verus! {

/// The position after the whitespace and the comments at `pos`.
pub fn noise_end(input: &[u8], pos: usize) -> (end: usize)
    requires
        pos <= input.len(),
    ensures
        end == skip_noise(input@, pos as int),
        pos <= end <= input.len(),
{
    let mut i: usize = pos;
    loop
        invariant
            pos <= i <= input.len(),
            skip_noise(input@, pos as int) == skip_noise(input@, i as int),
        decreases input.len() - i,
    {
        if i >= input.len() {
            return i;
        }
        let c = input[i];
        if ByteClass::Space.test(c) {
            i += 1;
        } else if c == PERCENT {
            i = skip_while(input, i + 1, ByteClass::NotLineEnd);
        } else {
            return i;
        }
    }
}

/// Tests that a token ends at `pos` and skips what follows it.
pub fn termination(input: &[u8], pos: usize) -> (r: Option<usize>)
    requires
        pos <= input.len(),
    ensures
        match r {
            Some(e) => spec_termination(input@, pos as int) == Some(e as int) && pos <= e
                <= input.len(),
            None => spec_termination(input@, pos as int) is None,
        },
{
    if pos < input.len() && !ByteClass::Space.test(input[pos]) && !crate::lex::is_delimiter(
        input[pos],
    ) {
        None
    } else {
        Some(noise_end(input, pos))
    }
}

/// Reads `true` or `false`.
pub fn parse_bool(input: &[u8], pos: usize) -> (r: Option<(bool, usize)>)
    requires
        pos <= input.len(),
    ensures
        match r {
            Some((b, e)) => spec_bool(input@, pos as int) == Some((b, e as int)) && pos < e
                <= input.len(),
            None => spec_bool(input@, pos as int) is None,
        },
{
    proof {
        lemma_keywords();
    }
    if tag(input, pos, "true") {
        match termination(input, pos + 4) {
            Some(e) => Some((true, e)),
            None => None,
        }
    } else if tag(input, pos, "false") {
        match termination(input, pos + 5) {
            Some(e) => Some((false, e)),
            None => None,
        }
    } else {
        None
    }
}

/// Reads `null`.
pub fn parse_null(input: &[u8], pos: usize) -> (r: Option<usize>)
    requires
        pos <= input.len(),
    ensures
        match r {
            Some(e) => spec_null(input@, pos as int) == Some(e as int) && pos < e <= input.len(),
            None => spec_null(input@, pos as int) is None,
        },
{
    proof {
        lemma_keywords();
    }
    if tag(input, pos, "null") {
        termination(input, pos + 4)
    } else {
        None
    }
}

/// The position after an optional sign at `pos`.
fn sign_end(input: &[u8], pos: usize) -> (r: usize)
    requires
        pos <= input.len(),
    ensures
        r == crate::lex::after_sign(input@, pos as int),
        pos <= r <= input.len(),
{
    if pos < input.len() && (input[pos] == PLUS || input[pos] == MINUS) {
        pos + 1
    } else {
        pos
    }
}

/// Finds where the mantissa of a decimal number ends.
fn parse_mantissa(input: &[u8], pos: usize) -> (r: Option<usize>)
    requires
        pos <= input.len(),
    ensures
        match r {
            Some(e) => mantissa_end(input@, pos as int) == Some(e as int) && pos < e
                <= input.len(),
            None => mantissa_end(input@, pos as int) is None,
        },
{
    let int_end = skip_while(input, pos, ByteClass::Digit);
    if int_end > pos {
        if int_end < input.len() && input[int_end] == PERIOD {
            Some(skip_while(input, int_end + 1, ByteClass::Digit))
        } else {
            Some(int_end)
        }
    } else if pos < input.len() && input[pos] == PERIOD {
        let e = skip_while(input, pos + 1, ByteClass::Digit);
        if e > pos + 1 {
            Some(e)
        } else {
            None
        }
    } else {
        None
    }
}

/// Finds where a decimal number ends.
pub fn parse_float(input: &[u8], pos: usize) -> (r: Option<usize>)
    requires
        pos <= input.len(),
    ensures
        match r {
            Some(e) => float_end(input@, pos as int) == Some(e as int) && pos < e <= input.len(),
            None => float_end(input@, pos as int) is None,
        },
{
    match parse_mantissa(input, sign_end(input, pos)) {
        Some(m) => {
            if m < input.len() && (input[m] == 101 || input[m] == 69) {
                let digits = sign_end(input, m + 1);
                let end = skip_while(input, digits, ByteClass::Digit);
                if end > digits {
                    Some(end)
                } else {
                    None
                }
            } else {
                Some(m)
            }
        },
        None => None,
    }
}

/// Reads a number: an integer where one stands, else a decimal number.
pub fn parse_number(input: &[u8], pos: usize) -> (r: Option<(Object, usize)>)
    requires
        pos <= input.len(),
    ensures
        match r {
            Some((o, e)) => spec_number(input@, pos as int) == Some((o@, e as int)) && pos < e
                <= input.len(),
            None => spec_number(input@, pos as int) is None,
        },
{
    if let Some((v, e)) = signed32(input, pos) {
        if let Some(t) = termination(input, e) {
            return Some((Object::Integer(v), t));
        }
    }
    match parse_float(input, pos) {
        Some(e) => match termination(input, e) {
            Some(t) => Some((Object::Float(slice_to_vec(slice_subrange(input, pos, e))), t)),
            None => None,
        },
        None => None,
    }
}

/// Decodes the raw name `input[from..to]`.
pub fn decode_name(input: &[u8], from: usize, to: usize) -> (r: Option<Vec<u8>>)
    requires
        from <= to <= input.len(),
    ensures
        match r {
            Some(n) => name_decoded(input@, from as int, to as int) == Some(n@),
            None => name_decoded(input@, from as int, to as int) is None,
        },
{
    let mut out: Vec<u8> = Vec::new();
    let mut i: usize = from;
    while i < to
        invariant
            from <= i <= to <= input.len(),
            name_decoded(input@, from as int, to as int) == (match name_decoded(
                input@,
                i as int,
                to as int,
            ) {
                Some(rest) => Some(out@ + rest),
                None => None,
            }),
        decreases to - i,
    {
        let c = input[i];
        if c == NUMBER_SIGN {
            if to - i <= 2 {
                return None;
            }
            match (hex_char_to_nibble(input[i + 1]), hex_char_to_nibble(input[i + 2])) {
                (Some(high), Some(low)) => {
                    let byte: u8 = high * 16 + low;
                    proof {
                        let rest = name_decoded(input@, i + 3, to as int);
                        if rest is Some {
                            assert(out@.push(byte) + rest->0 =~= out@ + (seq![byte] + rest->0));
                        }
                    }
                    out.push(byte);
                    i += 3;
                },
                _ => {
                    return None;
                },
            }
        } else {
            proof {
                let rest = name_decoded(input@, i + 1, to as int);
                if rest is Some {
                    assert(out@.push(c) + rest->0 =~= out@ + (seq![c] + rest->0));
                }
            }
            out.push(c);
            i += 1;
        }
    }
    assert(out@ + Seq::<u8>::empty() =~= out@);
    Some(out)
}

/// Reads a name. The error says whether a name stands there whose escapes
/// are malformed.
pub fn parse_name(input: &[u8], pos: usize) -> (r: Result<(Name, usize), bool>)
    requires
        pos <= input.len(),
    ensures
        match r {
            Ok((n, e)) => spec_name(input@, pos as int) == Some((n@, e as int)) && pos < e
                <= input.len(),
            Err(invalid) => spec_name(input@, pos as int) is None && invalid == invalid_name_at(
                input@,
                pos as int,
            ),
        },
{
    if pos < input.len() && input[pos] == SOLIDUS {
        let e = skip_while(input, pos + 1, ByteClass::Regular);
        match termination(input, e) {
            Some(t) => match decode_name(input, pos + 1, e) {
                Some(n) => Ok((Name(n), t)),
                None => Err(true),
            },
            None => Err(false),
        }
    } else {
        Err(false)
    }
}

/// The position of the next parenthesis that no backslash escapes, from
/// `pos` on: the end of the input where there is none, and the position of a
/// backslash that nothing follows.
pub open spec fn next_parenthesis(s: Seq<u8>, pos: int) -> int
    decreases s.len() - pos,
{
    if pos < 0 || pos >= s.len() {
        pos
    } else if s[pos] == BACKSLASH {
        if pos + 1 < s.len() {
            next_parenthesis(s, pos + 2)
        } else {
            pos
        }
    } else if s[pos] == LEFT_PAREN || s[pos] == RIGHT_PAREN {
        pos
    } else {
        next_parenthesis(s, pos + 1)
    }
}

/// Between a position and the next parenthesis the closing parenthesis of a
/// string does not stand.
pub proof fn lemma_string_close_skips(s: Seq<u8>, pos: int, depth: nat)
    requires
        0 <= pos <= s.len(),
    ensures
        pos <= next_parenthesis(s, pos) <= s.len(),
        string_close(s, pos, depth) == string_close(s, next_parenthesis(s, pos), depth),
        next_parenthesis(s, pos) < s.len() && s[next_parenthesis(s, pos)] != LEFT_PAREN
            && s[next_parenthesis(s, pos)] != RIGHT_PAREN ==> string_close(s, pos, depth) is None,
    decreases s.len() - pos,
{
    if pos < s.len() {
        if s[pos] == BACKSLASH {
            if pos + 1 < s.len() {
                lemma_string_close_skips(s, pos + 2, depth);
            }
        } else if s[pos] == LEFT_PAREN || s[pos] == RIGHT_PAREN {
        } else {
            lemma_string_close_skips(s, pos + 1, depth);
        }
    }
}

/// Finds the next parenthesis that no backslash escapes.
pub fn until_parenthesis(input: &[u8], pos: usize) -> (r: usize)
    requires
        pos <= input.len(),
    ensures
        r == next_parenthesis(input@, pos as int),
        pos <= r <= input.len(),
{
    let mut i: usize = pos;
    loop
        invariant
            pos <= i <= input.len(),
            next_parenthesis(input@, pos as int) == next_parenthesis(input@, i as int),
        decreases input.len() - i,
    {
        if i >= input.len() {
            return i;
        }
        let c = input[i];
        if c == BACKSLASH {
            if input.len() - i > 1 {
                i += 2;
            } else {
                return i;
            }
        } else if c == LEFT_PAREN || c == RIGHT_PAREN {
            return i;
        } else {
            i += 1;
        }
    }
}

/// Finds the parenthesis that closes the literal string whose content
/// starts at `pos`.
pub fn find_string_close(input: &[u8], pos: usize) -> (r: Option<usize>)
    requires
        pos <= input.len(),
    ensures
        match r {
            Some(c) => string_close(input@, pos as int, 0) == Some(c as int) && pos <= c
                < input.len(),
            None => string_close(input@, pos as int, 0) is None,
        },
{
    let mut depth: usize = 0;
    let mut i: usize = pos;
    loop
        invariant
            pos <= i <= input.len(),
            depth <= i - pos,
            string_close(input@, pos as int, 0) == string_close(input@, i as int, depth as nat),
        decreases input.len() - i,
    {
        proof {
            lemma_string_close_skips(input@, i as int, depth as nat);
        }
        i = until_parenthesis(input, i);
        if i >= input.len() {
            return None;
        }
        let c = input[i];
        if c == LEFT_PAREN {
            depth += 1;
            i += 1;
        } else if c == RIGHT_PAREN {
            if depth == 0 {
                return Some(i);
            }
            depth -= 1;
            i += 1;
        } else {
            return None;
        }
    }
}

/// Reads a literal string.
pub fn parse_string(input: &[u8], pos: usize) -> (r: Option<(CbString, usize)>)
    requires
        pos <= input.len(),
    ensures
        match r {
            Some((b, e)) => spec_string(input@, pos as int) == Some((b@, e as int)) && pos < e
                <= input.len(),
            None => spec_string(input@, pos as int) is None,
        },
{
    if pos < input.len() && input[pos] == LEFT_PAREN {
        match find_string_close(input, pos + 1) {
            Some(close) => Some(
                (
                    CbString(slice_to_vec(slice_subrange(input, pos + 1, close))),
                    noise_end(input, close + 1),
                ),
            ),
            None => None,
        }
    } else {
        None
    }
}

/// Whether all of `digits` are hexadecimal digits.
pub open spec fn all_hex(digits: Seq<u8>) -> bool {
    forall|i: int| 0 <= i < digits.len() ==> spec_hex_char_to_nibble(#[trigger] digits[i]) is Some
}

/// Decodes hexadecimal digits, two to a byte. A last single digit is the
/// high half of a byte. `None` where a byte is no hexadecimal digit.
pub fn hex_decode(input: &[u8]) -> (r: Option<Vec<u8>>)
    ensures
        match r {
            Some(bytes) => all_hex(input@) && bytes@ == hex_decoded(input@),
            None => !all_hex(input@),
        },
{
    proof {
        reveal(hex_decoded);
    }
    let mut out: Vec<u8> = Vec::new();
    let mut i: usize = 0;
    while input.len() - i >= 2
        invariant
            i <= input.len(),
            i % 2 == 0,
            out@.len() == i / 2,
            forall|k: int| 0 <= k < i ==> spec_hex_char_to_nibble(#[trigger] input@[k]) is Some,
            forall|k: int| 0 <= k < out@.len() ==> out@[k] == #[trigger] hex_decoded(input@)[k],
        decreases input.len() - i,
    {
        proof {
            reveal(hex_decoded);
        }
        match (hex_char_to_nibble(input[i]), hex_char_to_nibble(input[i + 1])) {
            (Some(high), Some(low)) => {
                out.push(high * 16 + low);
            },
            _ => {
                return None;
            },
        }
        i += 2;
    }
    if i < input.len() {
        match hex_char_to_nibble(input[i]) {
            Some(high) => {
                out.push(high * 16);
            },
            None => {
                return None;
            },
        }
    }
    assert(out@ =~= hex_decoded(input@));
    Some(out)
}

/// Reads a hexadecimal string.
pub fn parse_hex_string(input: &[u8], pos: usize) -> (r: Option<(Bytes, usize)>)
    requires
        pos <= input.len(),
    ensures
        match r {
            Some((b, e)) => spec_hex_string(input@, pos as int) == Some((b@, e as int)) && pos < e
                <= input.len(),
            None => spec_hex_string(input@, pos as int) is None,
        },
{
    if pos < input.len() && input[pos] == LESS_THAN {
        let e = skip_while(input, pos + 1, ByteClass::HexDigit);
        if e > pos + 1 && e < input.len() && input[e] == GREATER_THAN {
            proof {
                lemma_run_end(input@, pos + 1, ByteClass::HexDigit);
                assert(all_hex(input@.subrange(pos + 1, e as int)));
            }
            match hex_decode(slice_subrange(input, pos + 1, e)) {
                Some(bytes) => Some((Bytes(bytes), noise_end(input, e + 1))),
                None => None,
            }
        } else {
            None
        }
    } else {
        None
    }
}

/// Finds the first place from `pos` on at which `keyword` stands.
pub fn find_keyword(input: &[u8], pos: usize, keyword: &str) -> (r: Option<usize>)
    requires
        pos <= input.len(),
    ensures
        match r {
            Some(e) => find_first(input@, pos as int, kw(keyword)) == Some(e as int) && pos <= e
                && e + kw(keyword).len() <= input.len(),
            None => find_first(input@, pos as int, kw(keyword)) is None,
        },
{
    let mut i: usize = pos;
    loop
        invariant
            pos <= i <= input.len(),
            find_first(input@, pos as int, kw(keyword)) == find_first(
                input@,
                i as int,
                kw(keyword),
            ),
        decreases input.len() - i,
    {
        if i >= input.len() {
            return None;
        }
        if tag(input, i, keyword) {
            return Some(i);
        }
        i += 1;
    }
}

/// The position after an optional line end at `pos`.
fn line_end(input: &[u8], pos: usize) -> (r: usize)
    requires
        pos <= input.len(),
    ensures
        r == after_line_end(input@, pos as int),
        pos <= r <= input.len(),
{
    proof {
        lemma_keywords();
    }
    if tag(input, pos, "\r\n") {
        pos + 2
    } else if pos < input.len() && input[pos] == LF {
        pos + 1
    } else {
        pos
    }
}

/// Reads a stream's payload of `length` bytes and the `endstream` after it.
pub fn payload_by_length(input: &[u8], pos: usize, length: usize) -> (r: Option<(Vec<u8>, usize)>)
    requires
        pos <= input.len(),
    ensures
        match r {
            Some((data, e)) => stream_by_length(input@, pos as int, length as nat) == Some(
                (data@, e as int),
            ) && pos < e <= input.len(),
            None => stream_by_length(input@, pos as int, length as nat) is None,
        },
{
    proof {
        lemma_keywords();
    }
    if length > input.len() - pos {
        return None;
    }
    let e = line_end(input, pos + length);
    if tag(input, e, "endstream") {
        match termination(input, e + 9) {
            Some(t) => Some((slice_to_vec(slice_subrange(input, pos, pos + length)), t)),
            None => None,
        }
    } else {
        None
    }
}

/// Reads a stream's payload up to the first `endstream`.
pub fn payload_by_keyword(input: &[u8], pos: usize) -> (r: Option<(Vec<u8>, usize)>)
    requires
        pos <= input.len(),
    ensures
        match r {
            Some((data, e)) => stream_by_keyword(input@, pos as int) == Some((data@, e as int))
                && pos < e <= input.len(),
            None => stream_by_keyword(input@, pos as int) is None,
        },
{
    proof {
        lemma_keywords();
    }
    match find_keyword(input, pos, "endstream") {
        Some(e) => match termination(input, e + 9) {
            Some(t) => Some((slice_to_vec(slice_subrange(input, pos, e)), t)),
            None => None,
        },
        None => None,
    }
}

/// The length that the dictionary of a stream announces.
pub fn stream_length(dictionary: &Dictionary) -> (r: usize)
    ensures
        r == announced_length(dictionary@),
{
    match dictionary.get("Length".as_bytes()) {
        Some(Object::Integer(l)) => {
            if *l >= 0 {
                *l as usize
            } else {
                0
            }
        },
        _ => 0,
    }
}

/// Reads a stream: a dictionary, `stream`, a line end, the payload and
/// `endstream`.
pub fn parse_stream(input: &[u8], pos: usize) -> (r: Option<(Stream, usize)>)
    requires
        pos <= input.len(),
    ensures
        match r {
            Some((st, e)) => spec_stream(input@, pos as int) == Some(
                (st.dictionary@, st.data@, e as int),
            ) && pos < e <= input.len(),
            None => spec_stream(input@, pos as int) is None,
        },
    decreases input.len() - pos, 6int,
{
    proof {
        lemma_keywords();
    }
    match parse_dictionary(input, pos) {
        Some((dictionary, p)) => {
            if !tag(input, p, "stream") {
                return None;
            }
            let start = line_end(input, p + 6);
            if start == p + 6 {
                return None;
            }
            let length = stream_length(&dictionary);
            let payload = match payload_by_length(input, start, length) {
                Some(found) => Some(found),
                None => payload_by_keyword(input, start),
            };
            match payload {
                Some((data, e)) => Some((Stream { dictionary, data: Bytes(data) }, e)),
                None => None,
            }
        },
        None => None,
    }
}

/// Reads a dictionary.
pub fn parse_dictionary(input: &[u8], pos: usize) -> (r: Option<(Dictionary, usize)>)
    requires
        pos <= input.len(),
    ensures
        match r {
            Some((d, e)) => spec_dictionary(input@, pos as int) == Some((d@, e as int)) && pos < e
                <= input.len(),
            None => spec_dictionary(input@, pos as int) is None,
        },
    decreases input.len() - pos, 5int,
{
    proof {
        lemma_keywords();
    }
    if !tag(input, pos, "<<") {
        return None;
    }
    let start = noise_end(input, pos + 2);
    let mut p: usize = start;
    let mut dictionary = Dictionary::new();
    loop
        invariant
            pos < start <= p <= input.len(),
            spec_entries(input@, start as int, Seq::empty()) == spec_entries(
                input@,
                p as int,
                dictionary@,
            ),
        ensures
            pos < p <= input.len(),
            spec_entries(input@, start as int, Seq::empty()) == (dictionary@, p as int),
        decreases input.len() - p,
    {
        let (key, after_key) = match parse_name(input, p) {
            Ok(found) => found,
            Err(_) => {
                break ;
            },
        };
        let (value, e) = match parse_object(input, after_key) {
            Ok(found) => found,
            Err(_) => {
                break ;
            },
        };
        dictionary.insert(key, value);
        p = noise_end(input, e);
    }
    if tag(input, p, ">>") {
        Some((dictionary, noise_end(input, p + 2)))
    } else {
        None
    }
}

/// Reads an array.
pub fn parse_array(input: &[u8], pos: usize) -> (r: Option<(Array, usize)>)
    requires
        pos <= input.len(),
    ensures
        match r {
            Some((a, e)) => spec_array(input@, pos as int) == Some((a@, e as int)) && pos < e
                <= input.len(),
            None => spec_array(input@, pos as int) is None,
        },
    decreases input.len() - pos, 5int,
{
    if pos >= input.len() || input[pos] != LEFT_BRACKET {
        return None;
    }
    let start = noise_end(input, pos + 1);
    let mut p: usize = start;
    let mut items: Vec<Object> = Vec::new();
    assert(values_of(items@) =~= Seq::<Value>::empty());
    loop
        invariant
            pos < start <= p <= input.len(),
            spec_elements(input@, start as int, Seq::empty()) == spec_elements(
                input@,
                p as int,
                values_of(items@),
            ),
        ensures
            pos < p <= input.len(),
            spec_elements(input@, start as int, Seq::empty()) == (values_of(items@), p as int),
        decreases input.len() - p,
    {
        let (value, e) = match parse_object(input, p) {
            Ok(found) => found,
            Err(_) => {
                break ;
            },
        };
        assert(values_of(items@.push(value)) =~= values_of(items@).push(value@));
        items.push(value);
        p = e;
    }
    if p < input.len() && input[p] == RIGHT_BRACKET {
        Some((Array(items), noise_end(input, p + 1)))
    } else {
        None
    }
}

/// Reads the two numbers that a reference and an indirect object start
/// with.
pub fn parse_object_id(input: &[u8], pos: usize) -> (r: Option<(u32, u32, usize)>)
    requires
        pos <= input.len(),
    ensures
        match r {
            Some((number, generation, e)) => spec_object_id(input@, pos as int) == Some(
                (number, generation, e as int),
            ) && pos < e <= input.len(),
            None => spec_object_id(input@, pos as int) is None,
        },
{
    let (number, at1) = match unsigned32(input, pos) {
        Some(found) => found,
        None => {
            return None;
        },
    };
    let at2 = skip_while(input, at1, ByteClass::Space);
    let (generation, at3) = match unsigned32(input, at2) {
        Some(found) => found,
        None => {
            return None;
        },
    };
    let at4 = skip_while(input, at3, ByteClass::Space);
    if at2 > at1 && at4 > at3 {
        Some((number, generation, at4))
    } else {
        None
    }
}

/// Reads what stands between `obj` and `endobj`.
pub fn parse_indirect_body(input: &[u8], pos: usize) -> (r: Option<(Object, usize)>)
    requires
        pos <= input.len(),
    ensures
        match r {
            Some((o, e)) => spec_indirect_body(input@, pos as int) == Some((o@, e as int)) && pos
                < e <= input.len(),
            None => spec_indirect_body(input@, pos as int) is None,
        },
    decreases input.len() - pos, 12int,
{
    match parse_stream(input, pos) {
        Some((stream, e)) => {
            let o = Object::Stream(stream);
            proof {
                lemma_model(o);
            }
            Some((o, e))
        },
        None => match parse_object(input, pos) {
            Ok(found) => Some(found),
            Err(_) => None,
        },
    }
}

/// Reads a reference or an indirect object.
pub fn parse_indirect(input: &[u8], pos: usize) -> (r: Option<(Object, usize)>)
    requires
        pos <= input.len(),
    ensures
        match r {
            Some((o, e)) => spec_indirect(input@, pos as int) == Some((o@, e as int)) && pos < e
                <= input.len(),
            None => spec_indirect(input@, pos as int) is None,
        },
    decreases input.len() - pos, 8int,
{
    proof {
        lemma_keywords();
    }
    let (index, generation, p) = match parse_object_id(input, pos) {
        Some(found) => found,
        None => {
            return None;
        },
    };
    if p < input.len() && input[p] == 82 {
        if let Some(t) = termination(input, p + 1) {
            return Some((Object::Reference(Reference { index, generation }), t));
        }
    }
    if !tag(input, p, "obj") {
        return None;
    }
    let body = noise_end(input, p + 3);
    match parse_indirect_body(input, body) {
        Some((inner, e)) => {
            if !tag(input, e, "endobj") {
                return None;
            }
            match termination(input, e + 6) {
                Some(t) => {
                    let o = Object::Indirect(
                        IndirectObject { index, generation, object: Box::new(inner) },
                    );
                    proof {
                        lemma_model(o);
                    }
                    Some((o, t))
                },
                None => None,
            }
        },
        None => None,
    }
}

/// Reads any object. The error says whether a name stands there whose
/// escapes are malformed.
pub fn parse_object(input: &[u8], pos: usize) -> (r: Result<(Object, usize), bool>)
    requires
        pos <= input.len(),
    ensures
        match r {
            Ok((o, e)) => spec_object(input@, pos as int) == Some((o@, e as int)) && pos < e
                <= input.len(),
            Err(invalid) => spec_object(input@, pos as int) is None && invalid == invalid_name_at(
                input@,
                pos as int,
            ),
        },
    decreases input.len() - pos, 10int,
{
    if pos >= input.len() {
        return Err(false);
    }
    if let Some((d, e)) = parse_dictionary(input, pos) {
        let o = Object::Dictionary(d);
        proof {
            lemma_model(o);
        }
        return Ok((o, e));
    }
    if let Some((a, e)) = parse_array(input, pos) {
        let o = Object::Array(a);
        proof {
            lemma_model(o);
        }
        return Ok((o, e));
    }
    if let Some((b, e)) = parse_string(input, pos) {
        return Ok((Object::String(b), e));
    }
    if let Some(found) = parse_indirect(input, pos) {
        return Ok(found);
    }
    if let Some(found) = parse_number(input, pos) {
        return Ok(found);
    }
    if let Some((b, e)) = parse_bool(input, pos) {
        return Ok((Object::Bool(b), e));
    }
    if let Some(e) = parse_null(input, pos) {
        return Ok((Object::Null, e));
    }
    if let Some((b, e)) = parse_hex_string(input, pos) {
        return Ok((Object::HexString(b), e));
    }
    match parse_name(input, pos) {
        Ok((n, e)) => Ok((Object::Name(n), e)),
        Err(invalid) => Err(invalid),
    }
}

/// The kind of the error that reading an object at `pos` gives.
pub open spec fn object_fault(s: Seq<u8>, pos: int) -> CbParseErrorKind {
    if invalid_name_at(s, pos) {
        CbParseErrorKind::InvalidName
    } else {
        CbParseErrorKind::Generic(Context::Object)
    }
}

/// The kind of the error that reading a name at `pos` gives.
pub open spec fn name_fault(s: Seq<u8>, pos: int) -> CbParseErrorKind {
    if invalid_name_at(s, pos) {
        CbParseErrorKind::InvalidName
    } else {
        CbParseErrorKind::Generic(Context::Name)
    }
}

/// Requires that a token ends at the start of `input`: that the input is
/// empty there, or starts with whitespace or a delimiter. Skips the
/// whitespace and the comments that follow.
pub fn require_termination(input: Span) -> (r: Result<(Span, ()), CbParseError>)
    ensures
        match r {
            Ok((rest, _)) => spec_termination(input@, 0) is Some && follows(
                input,
                rest,
                spec_termination(input@, 0)->0,
            ),
            Err(e) => spec_termination(input@, 0) is None && fails_at(
                e,
                input,
                CbParseErrorKind::Generic(Context::Termination),
            ),
        },
{
    match termination(input.fragment(), 0) {
        Some(e) => Ok((input.advance(e), ())),
        None => Err(
            CbParseError::new(
                input.location_offset(),
                CbParseErrorKind::Generic(Context::Termination),
            ),
        ),
    }
}

/// Moves to the next parenthesis that no backslash escapes.
pub fn consume_until_parenthesis(input: Span) -> (rest: Span)
    ensures
        follows(input, rest, next_parenthesis(input@, 0)),
{
    input.advance(until_parenthesis(input.fragment(), 0))
}

/// Reads `true` or `false`.
pub fn bool_object(input: Span) -> (r: Result<(Span, Object), CbParseError>)
    ensures
        match r {
            Ok((rest, o)) => spec_bool(input@, 0) is Some && o@ == Value::Bool(
                spec_bool(input@, 0).unwrap().0,
            ) && follows(input, rest, spec_bool(input@, 0).unwrap().1),
            Err(e) => spec_bool(input@, 0) is None && fails_at(
                e,
                input,
                CbParseErrorKind::Generic(Context::Object),
            ),
        },
{
    match parse_bool(input.fragment(), 0) {
        Some((b, e)) => Ok((input.advance(e), Object::Bool(b))),
        None => Err(
            CbParseError::new(input.location_offset(), CbParseErrorKind::Generic(Context::Object)),
        ),
    }
}

/// Reads a number.
pub fn number_object(input: Span) -> (r: Result<(Span, Object), CbParseError>)
    ensures
        match r {
            Ok((rest, o)) => spec_number(input@, 0) is Some && o@ == spec_number(input@, 0).unwrap().0
                && follows(input, rest, spec_number(input@, 0).unwrap().1),
            Err(e) => spec_number(input@, 0) is None && fails_at(
                e,
                input,
                CbParseErrorKind::Generic(Context::Object),
            ),
        },
{
    match parse_number(input.fragment(), 0) {
        Some((o, e)) => Ok((input.advance(e), o)),
        None => Err(
            CbParseError::new(input.location_offset(), CbParseErrorKind::Generic(Context::Object)),
        ),
    }
}

/// Reads `null`.
pub fn null_object(input: Span) -> (r: Result<(Span, Object), CbParseError>)
    ensures
        match r {
            Ok((rest, o)) => spec_null(input@, 0) is Some && o@ == Value::Null && follows(
                input,
                rest,
                spec_null(input@, 0)->0,
            ),
            Err(e) => spec_null(input@, 0) is None && fails_at(
                e,
                input,
                CbParseErrorKind::Generic(Context::Object),
            ),
        },
{
    match parse_null(input.fragment(), 0) {
        Some(e) => Ok((input.advance(e), Object::Null)),
        None => Err(
            CbParseError::new(input.location_offset(), CbParseErrorKind::Generic(Context::Object)),
        ),
    }
}

/// Reads a literal string.
pub fn string_object(input: Span) -> (r: Result<(Span, Object), CbParseError>)
    ensures
        match r {
            Ok((rest, o)) => spec_string(input@, 0) is Some && o@ == Value::String(
                spec_string(input@, 0).unwrap().0,
            ) && follows(input, rest, spec_string(input@, 0).unwrap().1),
            Err(e) => spec_string(input@, 0) is None && fails_at(
                e,
                input,
                CbParseErrorKind::Generic(Context::Object),
            ),
        },
{
    match parse_string(input.fragment(), 0) {
        Some((b, e)) => Ok((input.advance(e), Object::String(b))),
        None => Err(
            CbParseError::new(input.location_offset(), CbParseErrorKind::Generic(Context::Object)),
        ),
    }
}

/// Reads a hexadecimal string.
pub fn hex_string_object(input: Span) -> (r: Result<(Span, Object), CbParseError>)
    ensures
        match r {
            Ok((rest, o)) => spec_hex_string(input@, 0) is Some && o@ == Value::HexString(
                spec_hex_string(input@, 0).unwrap().0,
            ) && follows(input, rest, spec_hex_string(input@, 0).unwrap().1),
            Err(e) => spec_hex_string(input@, 0) is None && fails_at(
                e,
                input,
                CbParseErrorKind::Generic(Context::Object),
            ),
        },
{
    match parse_hex_string(input.fragment(), 0) {
        Some((b, e)) => Ok((input.advance(e), Object::HexString(b))),
        None => Err(
            CbParseError::new(input.location_offset(), CbParseErrorKind::Generic(Context::Object)),
        ),
    }
}

/// Reads a name and decodes its `#HH` escapes.
pub fn name_object(input: Span) -> (r: Result<(Span, Name), CbParseError>)
    ensures
        match r {
            Ok((rest, n)) => spec_name(input@, 0) is Some && n@ == spec_name(input@, 0).unwrap().0
                && follows(input, rest, spec_name(input@, 0).unwrap().1),
            Err(e) => spec_name(input@, 0) is None && fails_at(e, input, name_fault(input@, 0)),
        },
{
    match parse_name(input.fragment(), 0) {
        Ok((n, e)) => Ok((input.advance(e), n)),
        Err(invalid) => {
            let kind = if invalid {
                CbParseErrorKind::InvalidName
            } else {
                CbParseErrorKind::Generic(Context::Name)
            };
            Err(CbParseError::new(input.location_offset(), kind))
        },
    }
}

/// Reads a dictionary.
pub fn dictionary_object(input: Span) -> (r: Result<(Span, Dictionary), CbParseError>)
    ensures
        match r {
            Ok((rest, d)) => spec_dictionary(input@, 0) is Some && d@ == spec_dictionary(
                input@,
                0,
            ).unwrap().0 && follows(input, rest, spec_dictionary(input@, 0).unwrap().1),
            Err(e) => spec_dictionary(input@, 0) is None && fails_at(
                e,
                input,
                CbParseErrorKind::Generic(Context::Dictionary),
            ),
        },
{
    match parse_dictionary(input.fragment(), 0) {
        Some((d, e)) => Ok((input.advance(e), d)),
        None => Err(
            CbParseError::new(
                input.location_offset(),
                CbParseErrorKind::Generic(Context::Dictionary),
            ),
        ),
    }
}

/// Reads an array.
pub fn array_object(input: Span) -> (r: Result<(Span, Array), CbParseError>)
    ensures
        match r {
            Ok((rest, a)) => spec_array(input@, 0) is Some && a@ == spec_array(input@, 0).unwrap().0
                && follows(input, rest, spec_array(input@, 0).unwrap().1),
            Err(e) => spec_array(input@, 0) is None && fails_at(
                e,
                input,
                CbParseErrorKind::Generic(Context::Array),
            ),
        },
{
    match parse_array(input.fragment(), 0) {
        Some((a, e)) => Ok((input.advance(e), a)),
        None => Err(
            CbParseError::new(input.location_offset(), CbParseErrorKind::Generic(Context::Array)),
        ),
    }
}

/// Reads a stream: its dictionary and its payload, which is taken by the
/// length that the dictionary announces or, where that does not lead to
/// `endstream`, up to the first `endstream`.
pub fn stream_object(input: Span) -> (r: Result<(Span, Stream), CbParseError>)
    ensures
        match r {
            Ok((rest, st)) => spec_stream(input@, 0) is Some && st.dictionary@ == spec_stream(
                input@,
                0,
            ).unwrap().0 && st.data@ == spec_stream(input@, 0).unwrap().1 && follows(
                input,
                rest,
                spec_stream(input@, 0).unwrap().2,
            ),
            Err(e) => spec_stream(input@, 0) is None && fails_at(
                e,
                input,
                CbParseErrorKind::Generic(Context::Stream),
            ),
        },
{
    match parse_stream(input.fragment(), 0) {
        Some((st, e)) => Ok((input.advance(e), st)),
        None => Err(
            CbParseError::new(input.location_offset(), CbParseErrorKind::Generic(Context::Stream)),
        ),
    }
}

/// Reads a reference, `N G R`, or an indirect object, `N G obj ... endobj`.
pub fn indirect_object(input: Span) -> (r: Result<(Span, Object), CbParseError>)
    ensures
        match r {
            Ok((rest, o)) => spec_indirect(input@, 0) is Some && o@ == spec_indirect(
                input@,
                0,
            ).unwrap().0 && follows(input, rest, spec_indirect(input@, 0).unwrap().1),
            Err(e) => spec_indirect(input@, 0) is None && fails_at(
                e,
                input,
                CbParseErrorKind::Generic(Context::IndirectObject),
            ),
        },
{
    match parse_indirect(input.fragment(), 0) {
        Some((o, e)) => Ok((input.advance(e), o)),
        None => Err(
            CbParseError::new(
                input.location_offset(),
                CbParseErrorKind::Generic(Context::IndirectObject),
            ),
        ),
    }
}

/// Reads any object.
pub fn object(input: Span) -> (r: Result<(Span, Object), CbParseError>)
    ensures
        match r {
            Ok((rest, o)) => spec_object(input@, 0) is Some && o@ == spec_object(input@, 0).unwrap().0
                && follows(input, rest, spec_object(input@, 0).unwrap().1),
            Err(e) => spec_object(input@, 0) is None && fails_at(e, input, object_fault(input@, 0)),
        },
{
    match parse_object(input.fragment(), 0) {
        Ok((o, e)) => Ok((input.advance(e), o)),
        Err(invalid) => {
            let kind = if invalid {
                CbParseErrorKind::InvalidName
            } else {
                CbParseErrorKind::Generic(Context::Object)
            };
            Err(CbParseError::new(input.location_offset(), kind))
        },
    }
}

} // verus!
