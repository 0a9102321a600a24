//! What the encoder writes for an object, the grammar reads as that object.
use vstd::prelude::*;
use vstd::string::*;
use crate::lex::{
    after_sign, decimal, spec_signed32,
    lemma_run_end, matches_at, run_end, spec_is_delimiter, ByteClass, BACKSLASH, GREATER_THAN,
    LEFT_BRACKET, LEFT_PAREN, LESS_THAN, LF, MINUS, PERCENT, PERIOD, PLUS, RIGHT_BRACKET,
    RIGHT_PAREN, SOLIDUS,
};
use crate::parse::grammar::{
    float_end, mantissa_end,
    hex_decoded, kw, skip_noise, spec_array, spec_bool, spec_dictionary, spec_hex_string,
    spec_indirect, spec_name, spec_null, spec_number, spec_object, spec_object_id, spec_string,
    spec_termination, string_close,
};
use crate::pdf::object::{dict_get, distinct_keys, Value};
use crate::simple_encode::laws::{
    ends_at, lemma_digits, lemma_hex_digit, lemma_integer_reads_back, lemma_matches_part,
    lemma_name_reads_back, lemma_run_over, lemma_unsigned_reads_back,
};
use crate::parse::grammar::{
    advances, after_line_end, announced_length, spec_elements, spec_entries, spec_indirect_body,
    spec_stream, stream_by_length,
};
use crate::pdf::object::{dict_find, dict_insert, lemma_dict_find};
use crate::simple_encode::object::stream_dictionary_text;
use crate::simple_encode::object::{
    entries_text, hex_string_text, items_text, reference_text, separator, value_text, SPACE,
};
use crate::simple_encode::text::{
    hex_digit, hex_encoding, integer_text, name_text, string_body, string_text, unsigned_text,
};

verus! {

/// The bytes of the keywords that the encoder writes.
pub proof fn lemma_keyword_bytes()
    ensures
        kw("true") =~= seq![116u8, 114u8, 117u8, 101u8],
        kw("false") =~= seq![102u8, 97u8, 108u8, 115u8, 101u8],
        kw("null") =~= seq![110u8, 117u8, 108u8, 108u8],
        kw("<<") =~= seq![60u8, 60u8],
        kw(">>") =~= seq![62u8, 62u8],
        kw("obj") =~= seq![111u8, 98u8, 106u8],
        kw(" obj\n") =~= seq![32u8, 111u8, 98u8, 106u8, 10u8],
        kw("endobj") =~= seq![101u8, 110u8, 100u8, 111u8, 98u8, 106u8],
        kw("endobj\n") =~= seq![101u8, 110u8, 100u8, 111u8, 98u8, 106u8, 10u8],
        kw("stream") =~= seq![115u8, 116u8, 114u8, 101u8, 97u8, 109u8],
        kw(" stream\n") =~= seq![32u8, 115u8, 116u8, 114u8, 101u8, 97u8, 109u8, 10u8],
        kw("endstream") =~= seq![
            101u8,
            110u8,
            100u8,
            115u8,
            116u8,
            114u8,
            101u8,
            97u8,
            109u8,
        ],
        kw("\nendstream") =~= seq![
            10u8,
            101u8,
            110u8,
            100u8,
            115u8,
            116u8,
            114u8,
            101u8,
            97u8,
            109u8,
        ],
        kw("\r\n") =~= seq![13u8, 10u8],
        kw("Length") =~= seq![76u8, 101u8, 110u8, 103u8, 116u8, 104u8],
{
    broadcast use is_ascii_spec_bytes;

    reveal_strlit("true");
    reveal_strlit("false");
    reveal_strlit("null");
    reveal_strlit("<<");
    reveal_strlit(">>");
    reveal_strlit("obj");
    reveal_strlit(" obj\n");
    reveal_strlit("endobj");
    reveal_strlit("endobj\n");
    reveal_strlit("stream");
    reveal_strlit(" stream\n");
    reveal_strlit("endstream");
    reveal_strlit("\nendstream");
    reveal_strlit("\r\n");
    reveal_strlit("Length");
    assert(is_ascii("true"));
    assert(is_ascii("false"));
    assert(is_ascii("null"));
    assert(is_ascii("<<"));
    assert(is_ascii(">>"));
    assert(is_ascii("obj"));
    assert(is_ascii(" obj\n"));
    assert(is_ascii("endobj"));
    assert(is_ascii("endobj\n"));
    assert(is_ascii("stream"));
    assert(is_ascii(" stream\n"));
    assert(is_ascii("endstream"));
    assert(is_ascii("\nendstream"));
    assert(is_ascii("\r\n"));
    assert(is_ascii("Length"));
}

/// The kinds of objects that the byte at `pos` rules out.
pub proof fn lemma_first_byte(s: Seq<u8>, pos: int)
    requires
        0 <= pos < s.len(),
    ensures
        s[pos] != LESS_THAN ==> spec_dictionary(s, pos) is None && spec_hex_string(s, pos) is None,
        s[pos] != LEFT_BRACKET ==> spec_array(s, pos) is None,
        s[pos] != LEFT_PAREN ==> spec_string(s, pos) is None,
        !ByteClass::Digit.holds(s[pos]) ==> spec_indirect(s, pos) is None,
        !ByteClass::Digit.holds(s[pos]) && s[pos] != PLUS && s[pos] != MINUS && s[pos] != PERIOD
            ==> spec_number(s, pos) is None,
        s[pos] != 116 && s[pos] != 102 ==> spec_bool(s, pos) is None,
        s[pos] != 110 ==> spec_null(s, pos) is None,
        s[pos] != SOLIDUS ==> spec_name(s, pos) is None,
{
    lemma_keyword_bytes();
    if matches_at(s, pos, kw("<<")) {
        assert(s.subrange(pos, pos + 2)[0] == s[pos]);
    }
    if matches_at(s, pos, kw("true")) {
        assert(s.subrange(pos, pos + 4)[0] == s[pos]);
    }
    if matches_at(s, pos, kw("false")) {
        assert(s.subrange(pos, pos + 5)[0] == s[pos]);
    }
    if matches_at(s, pos, kw("null")) {
        assert(s.subrange(pos, pos + 4)[0] == s[pos]);
    }
}

/// `true` and `false` are read back.
pub proof fn lemma_bool_reads_back(s: Seq<u8>, pos: int, b: bool)
    requires
        matches_at(s, pos, value_text(Value::Bool(b))),
        ends_at(s, pos + value_text(Value::Bool(b)).len()),
    ensures
        spec_object(s, pos) == Some(
            (Value::Bool(b), skip_noise(s, pos + value_text(Value::Bool(b)).len())),
        ),
{
    lemma_keyword_bytes();
    let text = value_text(Value::Bool(b));
    assert(s.subrange(pos, pos + text.len())[0] == s[pos]);
    lemma_first_byte(s, pos);
    if !b {
        if matches_at(s, pos, kw("true")) {
            assert(s.subrange(pos, pos + 4)[0] == s[pos]);
        }
    }
}

/// `null` is read back.
pub proof fn lemma_null_reads_back(s: Seq<u8>, pos: int)
    requires
        matches_at(s, pos, value_text(Value::Null)),
        ends_at(s, pos + value_text(Value::Null).len()),
    ensures
        spec_object(s, pos) == Some((Value::Null, skip_noise(s, pos + value_text(Value::Null).len()))),
{
    lemma_keyword_bytes();
    let text = value_text(Value::Null);
    assert(s.subrange(pos, pos + text.len())[0] == s[pos]);
    lemma_first_byte(s, pos);
}

/// A name is read back as an object.
pub proof fn lemma_name_object_reads_back(s: Seq<u8>, pos: int, n: Seq<u8>)
    requires
        matches_at(s, pos, value_text(Value::Name(n))),
        ends_at(s, pos + value_text(Value::Name(n)).len()),
    ensures
        spec_object(s, pos) == Some(
            (Value::Name(n), skip_noise(s, pos + value_text(Value::Name(n)).len())),
        ),
{
    let text = name_text(n);
    assert(s.subrange(pos, pos + text.len())[0] == s[pos]);
    lemma_first_byte(s, pos);
    lemma_name_reads_back(s, pos, n);
}

/// What stands at `end` looks like the rest of a reference or of the head
/// of an indirect object: whitespace, digits, whitespace, and the letter
/// `R` or `o`.
pub open spec fn reference_tail(s: Seq<u8>, end: int) -> bool {
    let at2 = run_end(s, end, ByteClass::Space);
    let at3 = run_end(s, at2, ByteClass::Digit);
    let at4 = run_end(s, at3, ByteClass::Space);
    at2 > end && at3 > at2 && at4 > at3 && at4 < s.len() && (s[at4] == 82 || s[at4] == 111)
}

/// What stands at `end` is whitespace and then the letter `R` or `o`.
pub open spec fn letter_tail(s: Seq<u8>, end: int) -> bool {
    let p = run_end(s, end, ByteClass::Space);
    p > end && p < s.len() && (s[p] == 82 || s[p] == 111)
}

/// What may follow an object at `end`: the end of the input, whitespace or
/// a delimiter, and nothing that would make numbers before it the start of
/// a reference or of an indirect object.
pub open spec fn follows_object(s: Seq<u8>, end: int) -> bool {
    ends_at(s, end) && !reference_tail(s, end) && !letter_tail(s, end)
}

/// Digits that no reference tail follows start no reference and no
/// indirect object.
pub proof fn lemma_no_indirect(s: Seq<u8>, pos: int, end: int)
    requires
        0 <= pos < end <= s.len(),
        forall|i: int| pos <= i < end ==> ByteClass::Digit.holds(#[trigger] s[i]),
        follows_object(s, end),
    ensures
        spec_indirect(s, pos) is None,
{
    lemma_keyword_bytes();
    lemma_run_over(s, pos, end - pos, ByteClass::Digit);
    let at2 = run_end(s, end, ByteClass::Space);
    lemma_run_end(s, end, ByteClass::Space);
    let at3 = run_end(s, at2, ByteClass::Digit);
    lemma_run_end(s, at2, ByteClass::Digit);
    let at4 = run_end(s, at3, ByteClass::Space);
    lemma_run_end(s, at3, ByteClass::Space);
    if matches_at(s, at4, kw("obj")) {
        assert(s.subrange(at4, at4 + 3)[0] == s[at4]);
    }
}

/// The bytes that are written in hexadecimal digits are read back from
/// them.
pub proof fn lemma_hex_decoded(b: Seq<u8>)
    ensures
        hex_decoded(hex_encoding(b)) == b,
        hex_encoding(b).len() == 2 * b.len(),
        forall|i: int| 0 <= i < hex_encoding(b).len() ==> ByteClass::HexDigit.holds(
            #[trigger] hex_encoding(b)[i],
        ),
{
    reveal(hex_encoding);
    reveal(hex_decoded);
    let digits = hex_encoding(b);
    assert forall|i: int| 0 <= i < digits.len() implies ByteClass::HexDigit.holds(
        #[trigger] digits[i],
    ) by {
        lemma_hex_digit(b[i / 2] / 16);
        lemma_hex_digit(b[i / 2] % 16);
    }
    assert forall|i: int| 0 <= i < b.len() implies hex_decoded(digits)[i] == b[i] by {
        lemma_hex_digit(b[i] / 16);
        lemma_hex_digit(b[i] % 16);
        assert(digits[2 * i] == hex_digit(b[i] / 16));
        assert(digits[2 * i + 1] == hex_digit(b[i] % 16));
        assert((b[i] / 16) * 16 + b[i] % 16 == b[i]);
    }
    assert(hex_decoded(digits) =~= b);
}

/// A hexadecimal string of at least one byte is read as what was written.
pub proof fn lemma_hex_string_is_read(s: Seq<u8>, pos: int, b: Seq<u8>)
    requires
        b.len() > 0,
        matches_at(s, pos, hex_string_text(b)),
    ensures
        spec_hex_string(s, pos) == Some((b, skip_noise(s, pos + hex_string_text(b).len()))),
        0 <= pos,
        pos + 1 < s.len(),
        s[pos] == LESS_THAN,
        ByteClass::HexDigit.holds(s[pos + 1]),
{
    let text = hex_string_text(b);
    let digits = hex_encoding(b);
    let n = digits.len() as int;
    assert(text.subrange(1, 1 + n) =~= digits);
    lemma_matches_part(s, pos, text, 1, digits);
    lemma_hex_decoded(b);
    assert(s[pos + 0] == text[0]);
    assert(s[pos + (1 + n)] == text[1 + n]);
    assert(s[pos + 1] == text[1]);
    assert(text[1] == digits[0]);
    assert forall|i: int| pos + 1 <= i < pos + 1 + n implies ByteClass::HexDigit.holds(
        #[trigger] s[i],
    ) by {
        assert(s[pos + (i - pos)] == text[i - pos]);
        assert(text[i - pos] == digits[i - pos - 1]);
    }
    lemma_run_over(s, pos + 1, n, ByteClass::HexDigit);
    assert(s.subrange(pos + 1, pos + 1 + n) == digits);
}

/// A hexadecimal string of at least one byte is read back.
pub proof fn lemma_hex_string_reads_back(s: Seq<u8>, pos: int, b: Seq<u8>)
    requires
        b.len() > 0,
        matches_at(s, pos, value_text(Value::HexString(b))),
    ensures
        spec_object(s, pos) == Some(
            (Value::HexString(b), skip_noise(s, pos + value_text(Value::HexString(b)).len())),
        ),
{
    lemma_hex_string_is_read(s, pos, b);
    lemma_first_byte(s, pos);
    assert(spec_dictionary(s, pos) is None) by {
        lemma_keyword_bytes();
        if matches_at(s, pos, kw("<<")) {
            assert(s.subrange(pos, pos + 2)[1] == s[pos + 1]);
        }
    }
}

/// An integer is read back as an object.
pub proof fn lemma_integer_object_reads_back(s: Seq<u8>, pos: int, i: i32)
    requires
        matches_at(s, pos, value_text(Value::Integer(i))),
        follows_object(s, pos + value_text(Value::Integer(i)).len()),
    ensures
        spec_object(s, pos) == Some(
            (Value::Integer(i), skip_noise(s, pos + value_text(Value::Integer(i)).len())),
        ),
{
    let text = integer_text(i as int);
    let end = pos + text.len();
    assert(text.subrange(0, text.len() as int) =~= text);
    lemma_matches_part(s, pos, text, 0, text);
    if i >= 0 {
        lemma_digits(i as nat);
    } else {
        lemma_digits((-i) as nat);
    }
    assert(s[pos] == text[0]);
    lemma_first_byte(s, pos);
    lemma_integer_reads_back(s, pos, i);
    if i >= 0 {
        assert forall|k: int| pos <= k < end implies ByteClass::Digit.holds(#[trigger] s[k]) by {
            assert(s[pos + (k - pos)] == text[k - pos]);
        }
        lemma_no_indirect(s, pos, end);
    }
}

/// A reference is read back.
pub proof fn lemma_reference_reads_back(s: Seq<u8>, pos: int, index: u32, generation: u32)
    requires
        matches_at(s, pos, value_text(Value::Reference(index, generation))),
        ends_at(s, pos + value_text(Value::Reference(index, generation)).len()),
    ensures
        spec_object(s, pos) == Some(
            (
                Value::Reference(index, generation),
                skip_noise(s, pos + value_text(Value::Reference(index, generation)).len()),
            ),
        ),
{
    let text = reference_text(index, generation);
    let first = unsigned_text(index as nat);
    let second = unsigned_text(generation as nat);
    lemma_digits(index as nat);
    lemma_digits(generation as nat);
    let n1 = first.len() as int;
    let n2 = second.len() as int;
    assert(text.subrange(0, n1) =~= first);
    lemma_matches_part(s, pos, text, 0, first);
    assert(text.subrange(n1 + 1, n1 + 1 + n2) =~= second);
    lemma_matches_part(s, pos, text, n1 + 1, second);
    let at1 = pos + n1;
    let at2 = at1 + 1;
    let at3 = at2 + n2;
    let at4 = at3 + 1;
    assert(s[pos] == text[0]);
    assert(text[0] == first[0]);
    assert(s[pos + n1] == text[n1]);
    assert(s[pos + (n1 + 1)] == text[n1 + 1]);
    assert(text[n1 + 1] == second[0]);
    assert(s[pos + (n1 + 1 + n2)] == text[n1 + 1 + n2]);
    assert(s[pos + (n1 + 2 + n2)] == text[n1 + 2 + n2]);
    lemma_first_byte(s, pos);
    lemma_unsigned_reads_back(s, pos, index as nat, u32::MAX as nat);
    lemma_run_over(s, at1, 1, ByteClass::Space);
    lemma_unsigned_reads_back(s, at2, generation as nat, u32::MAX as nat);
    lemma_run_over(s, at3, 1, ByteClass::Space);
    assert(spec_object_id(s, pos) == Some((index, generation, at4)));
}

/// The content `x` of a literal string can stand between parentheses as
/// it is: the first parenthesis after it that closes a string is the one
/// right behind it. What is read as the content of a string is of this
/// kind.
pub open spec fn balanced(x: Seq<u8>) -> bool {
    string_close(x.push(RIGHT_PAREN), 0, 0) == Some(x.len() as int)
}

/// With fewer parentheses open, a string is closed earlier.
pub proof fn lemma_close_lower(s: Seq<u8>, p: int, a: nat, k: nat)
    requires
        k >= 1,
        string_close(s, p, a + k) is Some,
    ensures
        string_close(s, p, a) is Some,
        string_close(s, p, a)->0 < string_close(s, p, a + k)->0,
        p <= string_close(s, p, a)->0,
    decreases s.len() - p,
{
    if 0 <= p < s.len() {
        if s[p] == BACKSLASH {
            lemma_close_lower(s, p + 2, a, k);
        } else if s[p] == LEFT_PAREN {
            lemma_close_lower(s, p + 1, a + 1, k);
        } else if s[p] == RIGHT_PAREN {
            if a == 0 {
                lemma_close_from(s, p + 1, (k - 1) as nat);
            } else {
                lemma_close_lower(s, p + 1, (a - 1) as nat, k);
            }
        } else {
            lemma_close_lower(s, p + 1, a, k);
        }
    }
}

/// The parenthesis that closes a string does not stand before the place
/// from which it is searched for.
pub proof fn lemma_close_from(s: Seq<u8>, p: int, depth: nat)
    ensures
        string_close(s, p, depth) matches Some(q) ==> p <= q < s.len() && s[q] == RIGHT_PAREN,
    decreases s.len() - p,
{
    if 0 <= p < s.len() {
        if s[p] == BACKSLASH {
            if p + 1 < s.len() {
                lemma_close_from(s, p + 2, depth);
            }
        } else if s[p] == LEFT_PAREN {
            lemma_close_from(s, p + 1, depth + 1);
        } else if s[p] == RIGHT_PAREN {
            if depth > 0 {
                lemma_close_from(s, p + 1, (depth - 1) as nat);
            }
        } else {
            lemma_close_from(s, p + 1, depth);
        }
    }
}

/// A closing parenthesis that is found before the last byte is found
/// without that byte too.
pub proof fn lemma_close_prefix(x: Seq<u8>, c: u8, p: int, depth: nat)
    requires
        0 <= p,
        string_close(x.push(c), p, depth) is Some,
        string_close(x.push(c), p, depth)->0 < x.len(),
    ensures
        string_close(x, p, depth) == string_close(x.push(c), p, depth),
    decreases x.len() - p,
{
    let s = x.push(c);
    lemma_close_from(s, p, depth);
    if p < x.len() {
        assert(s[p] == x[p]);
        if s[p] == BACKSLASH {
            lemma_close_from(s, p + 2, depth);
            lemma_close_prefix(x, c, p + 2, depth);
        } else if s[p] == LEFT_PAREN {
            lemma_close_prefix(x, c, p + 1, depth + 1);
        } else if s[p] == RIGHT_PAREN {
            if depth > 0 {
                lemma_close_prefix(x, c, p + 1, (depth - 1) as nat);
            }
        } else {
            lemma_close_prefix(x, c, p + 1, depth);
        }
    }
}

/// Where the parenthesis behind the content is the first that closes the
/// string, the content is written as it is.
pub proof fn lemma_balanced_body(x: Seq<u8>, pos: int, depth: nat)
    requires
        0 <= pos <= x.len(),
        string_close(x.push(RIGHT_PAREN), pos, depth) == Some(x.len() as int),
    ensures
        string_body(x, pos, depth) == x.subrange(pos, x.len() as int),
    decreases x.len() - pos,
{
    let s = x.push(RIGHT_PAREN);
    let len = x.len() as int;
    if pos == len {
        assert(x.subrange(pos, len) =~= Seq::<u8>::empty());
    } else {
        assert(s[pos] == x[pos]);
        if x[pos] == BACKSLASH {
            lemma_close_from(s, pos + 2, depth);
            assert(s[pos + 1] == x[pos + 1]);
            lemma_balanced_body(x, pos + 2, depth);
            assert(seq![BACKSLASH, x[pos + 1]] + x.subrange(pos + 2, len) =~= x.subrange(
                pos,
                len,
            ));
        } else if x[pos] == LEFT_PAREN {
            lemma_close_lower(s, pos + 1, 0, depth + 1);
            lemma_close_prefix(x, RIGHT_PAREN, pos + 1, 0);
            lemma_balanced_body(x, pos + 1, depth + 1);
            assert(seq![LEFT_PAREN] + x.subrange(pos + 1, len) =~= x.subrange(pos, len));
        } else if x[pos] == RIGHT_PAREN {
            lemma_balanced_body(x, pos + 1, (depth - 1) as nat);
            assert(seq![RIGHT_PAREN] + x.subrange(pos + 1, len) =~= x.subrange(pos, len));
        } else {
            lemma_balanced_body(x, pos + 1, depth);
            assert(seq![x[pos]] + x.subrange(pos + 1, len) =~= x.subrange(pos, len));
        }
    }
}

/// A closing parenthesis that is found in a text is found where the text
/// stands in another.
pub proof fn lemma_close_embedded(s: Seq<u8>, base: int, t: Seq<u8>, p: int, depth: nat)
    requires
        0 <= p,
        matches_at(s, base, t),
        string_close(t, p, depth) is Some,
    ensures
        string_close(s, base + p, depth) == Some(base + string_close(t, p, depth)->0),
    decreases t.len() - p,
{
    assert(t.subrange(0, t.len() as int) =~= t);
    lemma_matches_part(s, base, t, 0, t);
    if p < t.len() {
        assert(s[base + p] == t[p]);
        if t[p] == BACKSLASH {
            lemma_close_embedded(s, base, t, p + 2, depth);
        } else if t[p] == LEFT_PAREN {
            lemma_close_embedded(s, base, t, p + 1, depth + 1);
        } else if t[p] == RIGHT_PAREN {
            if depth > 0 {
                lemma_close_embedded(s, base, t, p + 1, (depth - 1) as nat);
            }
        } else {
            lemma_close_embedded(s, base, t, p + 1, depth);
        }
    }
}

/// A literal string whose content can stand between parentheses as it is,
/// is written so, and is read back.
pub proof fn lemma_string_reads_back(s: Seq<u8>, pos: int, x: Seq<u8>)
    requires
        balanced(x),
        matches_at(s, pos, value_text(Value::String(x))),
    ensures
        string_text(x) == seq![LEFT_PAREN] + x + seq![RIGHT_PAREN],
        spec_object(s, pos) == Some(
            (Value::String(x), skip_noise(s, pos + value_text(Value::String(x)).len())),
        ),
{
    let len = x.len() as int;
    lemma_balanced_body(x, 0, 0);
    assert(x.subrange(0, len) =~= x);
    let text = string_text(x);
    let closed = x.push(RIGHT_PAREN);
    assert(text.subrange(1, 1 + closed.len() as int) =~= closed);
    lemma_matches_part(s, pos, text, 1, closed);
    lemma_close_embedded(s, pos + 1, closed, 0, 0);
    assert(s[pos] == text[0]);
    lemma_first_byte(s, pos);
    lemma_keyword_bytes();
    assert(s.subrange(pos + 1, pos + 1 + len) =~= x) by {
        assert forall|k: int| 0 <= k < len implies s.subrange(pos + 1, pos + 1 + len)[k]
            == x[k] by {
            assert(s[pos + (1 + k)] == text[1 + k]);
        }
    }
}

/// The text `t` is one that the grammar reads as a decimal number, and
/// not as an integer of 32 bits: an optional sign, digits with or without a
/// period among or before them, and an optional exponent; and where it is
/// made of a sign and digits only, the number that it writes is no integer
/// of 32 bits.
pub open spec fn decimal_text(t: Seq<u8>) -> bool {
    float_end(t, 0) == Some(t.len() as int) && (run_end(t, after_sign(t, 0), ByteClass::Digit)
        < t.len() || spec_signed32(t, 0) is None)
}

/// The run of bytes of a class in a text ends at the same place where the
/// text stands in another, if no byte of the class follows it there.
pub proof fn lemma_run_embedded(s: Seq<u8>, pos: int, t: Seq<u8>, k: int, class: ByteClass)
    requires
        0 <= pos,
        0 <= k <= t.len(),
        matches_at(s, pos, t),
        pos + t.len() < s.len() ==> !class.holds(s[pos + t.len()]),
    ensures
        run_end(s, pos + k, class) == pos + run_end(t, k, class),
    decreases t.len() - k,
{
    if k < t.len() {
        lemma_byte(s, pos, t, k);
        if class.holds(t[k]) {
            lemma_run_embedded(s, pos, t, k + 1, class);
        }
    }
}

/// The digits of a text write the same number where the text stands in
/// another.
pub proof fn lemma_decimal_embedded(s: Seq<u8>, pos: int, t: Seq<u8>, from: int, to: int)
    requires
        0 <= from <= to <= t.len(),
        matches_at(s, pos, t),
    ensures
        decimal(s, pos + from, pos + to) == decimal(t, from, to),
    decreases to - from,
{
    if from < to {
        lemma_decimal_embedded(s, pos, t, from, to - 1);
        lemma_byte(s, pos, t, to - 1);
    }
}

/// What a byte that may follow a token is not: a digit, a sign, a period
/// or the mark of an exponent.
pub proof fn lemma_end_byte(s: Seq<u8>, end: int)
    requires
        ends_at(s, end),
    ensures
        end < s.len() ==> !ByteClass::Digit.holds(s[end]) && s[end] != PLUS && s[end] != MINUS
            && s[end] != PERIOD && s[end] != 101 && s[end] != 69,
{
}

/// The shape of the text of a decimal number: it is not empty and starts
/// with a digit, a sign or a period; and where it starts with digits that
/// are not all of it, a period or the mark of an exponent follows them.
pub proof fn lemma_decimal_shape(t: Seq<u8>)
    requires
        decimal_text(t),
    ensures
        t.len() >= 1,
        ByteClass::Digit.holds(t[0]) || t[0] == PLUS || t[0] == MINUS || t[0] == PERIOD,
        run_end(t, after_sign(t, 0), ByteClass::Digit) < t.len() ==> !ByteClass::Space.holds(
            t[run_end(t, after_sign(t, 0), ByteClass::Digit)],
        ) && !spec_is_delimiter(t[run_end(t, after_sign(t, 0), ByteClass::Digit)]),
{
    let at0 = after_sign(t, 0);
    lemma_run_end(t, at0, ByteClass::Digit);
    let int_end = run_end(t, at0, ByteClass::Digit);
    if int_end < t.len() {
        if int_end > at0 {
            if t[int_end] != PERIOD {
                let m = int_end;
                assert(mantissa_end(t, at0) == Some(m));
            }
        } else {
            assert(t[at0] == PERIOD);
        }
    }
}

/// A decimal number is read back.
pub proof fn lemma_decimal_reads_back(s: Seq<u8>, pos: int, t: Seq<u8>)
    requires
        decimal_text(t),
        matches_at(s, pos, t),
        follows_object(s, pos + t.len()),
    ensures
        spec_object(s, pos) == Some((Value::Float(t), skip_noise(s, pos + t.len()))),
{
    let len = t.len() as int;
    let end = pos + len;
    lemma_decimal_shape(t);
    lemma_end_byte(s, end);
    lemma_byte(s, pos, t, 0);
    lemma_first_byte(s, pos);
    let at0 = after_sign(t, 0);
    assert(after_sign(s, pos) == pos + at0);
    lemma_run_embedded(s, pos, t, at0, ByteClass::Digit);
    lemma_run_end(t, at0, ByteClass::Digit);
    let int_end = run_end(t, at0, ByteClass::Digit);
    assert(float_end(s, pos) == Some(end)) by {
        lemma_float_embedded(s, pos, t);
    }
    assert(s.subrange(pos, end) == t);
    if int_end < len {
        lemma_byte(s, pos, t, int_end);
        if at0 == 0 && ByteClass::Digit.holds(t[0]) {
            lemma_run_over(s, pos + int_end, 0, ByteClass::Space);
            assert(spec_object_id(s, pos) is None);
        }
    } else {
        lemma_decimal_embedded(s, pos, t, at0, len);
        if at0 == 0 {
            assert forall|k: int| pos <= k < end implies ByteClass::Digit.holds(#[trigger] s[k]) by {
                lemma_byte(s, pos, t, k - pos);
            }
            lemma_no_indirect(s, pos, end);
        }
    }
}

/// A decimal number ends at the same place where its text stands in
/// another, if the end of the input, whitespace or a delimiter follows it
/// there.
pub proof fn lemma_float_embedded(s: Seq<u8>, pos: int, t: Seq<u8>)
    requires
        float_end(t, 0) == Some(t.len() as int),
        matches_at(s, pos, t),
        ends_at(s, pos + t.len()),
    ensures
        float_end(s, pos) == Some(pos + t.len()),
{
    let len = t.len() as int;
    lemma_end_byte(s, pos + len);
    let at0 = after_sign(t, 0);
    if 0 < len {
        lemma_byte(s, pos, t, 0);
    }
    assert(after_sign(s, pos) == pos + at0);
    lemma_run_embedded(s, pos, t, at0, ByteClass::Digit);
    lemma_run_end(t, at0, ByteClass::Digit);
    let int_end = run_end(t, at0, ByteClass::Digit);
    if int_end < len {
        lemma_byte(s, pos, t, int_end);
        lemma_run_embedded(s, pos, t, int_end + 1, ByteClass::Digit);
        lemma_run_end(t, int_end + 1, ByteClass::Digit);
    }
    if at0 < len {
        lemma_byte(s, pos, t, at0);
        lemma_run_embedded(s, pos, t, at0 + 1, ByteClass::Digit);
        lemma_run_end(t, at0 + 1, ByteClass::Digit);
    }
    assert(mantissa_end(s, pos + at0) == match mantissa_end(t, at0) {
        Some(m) => Some(pos + m),
        None => None,
    });
    let m = mantissa_end(t, at0)->0;
    if m < len {
        lemma_byte(s, pos, t, m);
        if t[m] == 101 || t[m] == 69 {
            let digits = after_sign(t, m + 1);
            if m + 1 < len {
                lemma_byte(s, pos, t, m + 1);
            }
            assert(after_sign(s, pos + m + 1) == pos + digits);
            lemma_run_embedded(s, pos, t, digits, ByteClass::Digit);
        }
    }
}

/// The stream with the dictionary `d` and the payload `data` is written
/// so that it is read back: the entries of the dictionary are, its keys are
/// distinct, and it holds the length of the payload under `Length`.
pub open spec fn writable_stream(d: Seq<(Seq<u8>, Value)>, data: Seq<u8>) -> bool
    decreases d, 0nat,
{
    distinct_keys(d) && (forall|i: int| 0 <= i < d.len() ==> writable(#[trigger] d[i].1))
        && data.len() <= i32::MAX && dict_get(d, kw("Length")) == Some(
        Value::Integer(data.len() as i32),
    )
}

/// The value `v` is written so that it is read back as `v`. That holds of
/// booleans, integers, names, references and null; of a literal string
/// whose content can stand between parentheses as it is; of a hexadecimal
/// string of at least one byte; of an array of such values; of a dictionary
/// of such values with distinct keys; and of an indirect object that holds
/// such a value or a stream with such a dictionary; and of a decimal
/// number whose text is one that the grammar reads as a decimal number and
/// not as an integer. It does not hold of a stream outside an indirect
/// object.
pub open spec fn writable(v: Value) -> bool
    decreases v, 1nat,
{
    match v {
        Value::String(x) => balanced(x),
        Value::HexString(b) => b.len() > 0,
        Value::Float(t) => decimal_text(t),
        Value::Integer(_) => true,
        Value::Bool(_) => true,
        Value::Name(_) => true,
        Value::Array(a) => forall|i: int| 0 <= i < a.len() ==> writable(#[trigger] a[i]),
        Value::Dictionary(d) => distinct_keys(d) && forall|i: int|
            0 <= i < d.len() ==> writable(#[trigger] d[i].1),
        Value::Stream(_, _) => false,
        Value::Null => true,
        Value::Indirect(_, _, inner) => match *inner {
            Value::Stream(d, data) => writable_stream(d, data),
            other => writable(other),
        },
        Value::Reference(_, _) => true,
    }
}

/// A byte with which the text of a value can start: neither whitespace nor
/// the start of a comment, and neither of the letters that end the head of
/// a reference or of an indirect object.
pub open spec fn starts_value(c: u8) -> bool {
    !ByteClass::Space.holds(c) && c != PERCENT && c != 82 && c != 111 && c != RIGHT_BRACKET && c
        != GREATER_THAN
}

/// The text `t` starts with digits, a space and a digit.
pub open spec fn numbered_start(t: Seq<u8>) -> bool {
    let n = run_end(t, 0, ByteClass::Digit);
    1 <= n && n + 1 < t.len() && t[n] == SPACE && ByteClass::Digit.holds(t[n + 1])
}

/// The text of a value that is written so that it is read back is not
/// empty and starts with a byte that can start a value. Where it starts
/// with a digit, it is made of digits only, or it starts with digits, a
/// space and a digit, or no whitespace follows its first digits.
pub proof fn lemma_value_start(v: Value)
    requires
        writable(v),
    ensures
        value_text(v).len() >= 1,
        starts_value(value_text(v)[0]),
        ByteClass::Digit.holds(value_text(v)[0]) ==> run_end(value_text(v), 0, ByteClass::Digit)
            == value_text(v).len() || numbered_start(value_text(v)) || !ByteClass::Space.holds(
            value_text(v)[run_end(value_text(v), 0, ByteClass::Digit)],
        ),
{
    lemma_keyword_bytes();
    let text = value_text(v);
    match v {
        Value::Float(t) => {
            lemma_decimal_shape(t);
        },
        Value::Integer(i) => {
            if i >= 0 {
                lemma_digits(i as nat);
                lemma_run_over(text, 0, text.len() as int, ByteClass::Digit);
            } else {
                lemma_digits((-i) as nat);
            }
        },
        Value::HexString(b) => {
            assert(text[0] == LESS_THAN);
        },
        Value::String(x) => {
            assert(text[0] == LEFT_PAREN);
        },
        Value::Name(n) => {
            assert(text[0] == SOLIDUS);
        },
        Value::Array(a) => {
            assert(text[0] == LEFT_BRACKET);
        },
        Value::Dictionary(d) => {
            assert(text[0] == LESS_THAN);
        },
        Value::Indirect(index, generation, inner) => {
            let first = unsigned_text(index as nat);
            let second = unsigned_text(generation as nat);
            lemma_digits(index as nat);
            lemma_digits(generation as nat);
            let n = first.len() as int;
            assert(text[0] == first[0]);
            assert forall|k: int| 0 <= k < n implies ByteClass::Digit.holds(#[trigger] text[k]) by {
                assert(text[k] == first[k]);
            }
            assert(text[n] == SPACE);
            assert(text[n + 1] == second[0]);
            lemma_run_over(text, 0, n, ByteClass::Digit);
        },
        Value::Reference(index, generation) => {
            let first = unsigned_text(index as nat);
            let second = unsigned_text(generation as nat);
            lemma_digits(index as nat);
            lemma_digits(generation as nat);
            let n = first.len() as int;
            assert(text[0] == first[0]);
            assert forall|k: int| 0 <= k < n implies ByteClass::Digit.holds(#[trigger] text[k]) by {
                assert(text[k] == first[k]);
            }
            assert(text[n] == SPACE);
            assert(text[n + 1] == second[0]);
            lemma_run_over(text, 0, n, ByteClass::Digit);
        },
        _ => {},
    }
}

/// A space and the text of a value are something that may follow an
/// object, where what follows the value may follow an object.
pub proof fn lemma_follows_before(s: Seq<u8>, e: int, w: Value)
    requires
        0 <= e < s.len(),
        writable(w),
        s[e] == SPACE,
        matches_at(s, e + 1, value_text(w)),
        follows_object(s, e + 1 + value_text(w).len()),
    ensures
        follows_object(s, e),
        skip_noise(s, e) == e + 1,
{
    let text = value_text(w);
    let len = text.len() as int;
    let f = e + 1 + len;
    lemma_value_start(w);
    assert(text.subrange(0, len) =~= text);
    lemma_matches_part(s, e + 1, text, 0, text);
    assert(s[e + 1 + 0] == text[0]);
    lemma_run_over(s, e, 1, ByteClass::Space);
    assert(skip_noise(s, e + 1) == e + 1);
    if ByteClass::Digit.holds(text[0]) {
        lemma_run_end(text, 0, ByteClass::Digit);
        let n = run_end(text, 0, ByteClass::Digit);
        assert forall|i: int| e + 1 <= i < e + 1 + n implies ByteClass::Digit.holds(
            #[trigger] s[i],
        ) by {
            assert(s[e + 1 + (i - e - 1)] == text[i - e - 1]);
        }
        if n == len {
            lemma_run_over(s, e + 1, n, ByteClass::Digit);
        } else {
            assert(s[e + 1 + n] == text[n]);
            lemma_run_over(s, e + 1, n, ByteClass::Digit);
            if numbered_start(text) {
                assert(s[e + 1 + (n + 1)] == text[n + 1]);
                lemma_run_over(s, e + 1 + n, 1, ByteClass::Space);
            } else {
                lemma_run_over(s, e + 1 + n, 0, ByteClass::Space);
            }
        }
    } else {
        lemma_run_over(s, e + 1, 0, ByteClass::Digit);
    }
}

/// A byte that is no whitespace and starts no comment is where noise ends,
/// and so is the end of the input.
pub proof fn lemma_no_noise(s: Seq<u8>, pos: int)
    requires
        pos >= s.len() || (0 <= pos && !ByteClass::Space.holds(s[pos]) && s[pos] != PERCENT),
    ensures
        skip_noise(s, pos) == pos,
{
}

/// What follows an object: a delimiter that is no start of a comment.
pub proof fn lemma_follows_delimiter(s: Seq<u8>, e: int)
    requires
        0 <= e < s.len(),
        spec_is_delimiter(s[e]),
    ensures
        follows_object(s, e),
{
    lemma_run_over(s, e, 0, ByteClass::Space);
}

/// The text of an array from its element `k` on, and the bracket that
/// closes it.
pub open spec fn items_tail(a: Seq<Value>, k: int) -> Seq<u8> {
    value_text(a[k]) + items_text(a, k + 1) + seq![RIGHT_BRACKET]
}

/// Where the elements of an array are written from the element `k` on,
/// they are read back, and what follows the element `k` may follow an
/// object.
pub proof fn lemma_items_read_back(s: Seq<u8>, vpos: int, a: Seq<Value>, k: int, acc: Seq<Value>)
    requires
        0 <= k < a.len(),
        forall|i: int| 0 <= i < a.len() ==> writable(#[trigger] a[i]),
        matches_at(s, vpos, items_tail(a, k)),
    ensures
        spec_elements(s, vpos, acc) == (
            acc + a.subrange(k, a.len() as int),
            vpos + items_tail(a, k).len() - 1,
        ),
        follows_object(s, vpos + value_text(a[k]).len()),
    decreases a, a.len() - k, 0nat,
{
    let whole = items_tail(a, k);
    let t = value_text(a[k]);
    let n = t.len() as int;
    let e = vpos + n;
    let len = a.len() as int;
    assert(whole.subrange(0, n) =~= t);
    lemma_matches_part(s, vpos, whole, 0, t);
    lemma_value_start(a[k]);
    assert(s[vpos + 0] == whole[0]);
    assert(whole[0] == t[0]);
    if k + 1 == len {
        assert(items_text(a, k + 1) =~= Seq::<u8>::empty());
        assert(s[vpos + n] == whole[n]);
        lemma_follows_delimiter(s, e);
        lemma_value_reads_back(s, vpos, a[k]);
        lemma_no_noise(s, e);
        lemma_first_byte(s, e);
        assert(spec_object(s, e) is None);
        assert(spec_elements(s, e, acc.push(a[k])) == (acc.push(a[k]), e));
        assert(acc.push(a[k]) =~= acc + a.subrange(k, len));
    } else {
        let rest = items_tail(a, k + 1);
        assert(items_text(a, k + 1) == separator(k + 1) + value_text(a[k + 1]) + items_text(
            a,
            k + 2,
        ));
        assert(whole.subrange(n + 1, n + 1 + rest.len() as int) =~= rest);
        lemma_matches_part(s, vpos, whole, n + 1, rest);
        assert(s[vpos + n] == whole[n]);
        lemma_items_read_back(s, e + 1, a, k + 1, acc.push(a[k]));
        let next = value_text(a[k + 1]);
        assert(rest.subrange(0, next.len() as int) =~= next);
        lemma_matches_part(s, e + 1, rest, 0, next);
        lemma_follows_before(s, e, a[k + 1]);
        lemma_value_reads_back(s, vpos, a[k]);
        assert(acc.push(a[k]) + a.subrange(k + 1, len) =~= acc + a.subrange(k, len));
    }
}

/// An array of values that are written so that they are read back is read
/// back.
pub proof fn lemma_array_reads_back(s: Seq<u8>, pos: int, a: Seq<Value>)
    requires
        forall|i: int| 0 <= i < a.len() ==> writable(#[trigger] a[i]),
        matches_at(s, pos, value_text(Value::Array(a))),
    ensures
        spec_array(s, pos) == Some((a, skip_noise(s, pos + value_text(Value::Array(a)).len()))),
    decreases a, a.len() + 1, 0nat,
{
    let text = value_text(Value::Array(a));
    assert(text.subrange(0, text.len() as int) =~= text);
    lemma_matches_part(s, pos, text, 0, text);
    assert(s[pos + 0] == text[0]);
    if a.len() == 0 {
        assert(items_text(a, 0) =~= Seq::<u8>::empty());
        assert(s[pos + 1] == text[1]);
        lemma_no_noise(s, pos + 1);
        lemma_first_byte(s, pos + 1);
        assert(spec_elements(s, pos + 1, Seq::empty()) == (Seq::<Value>::empty(), pos + 1));
        assert(a =~= Seq::<Value>::empty());
    } else {
        let tail = items_tail(a, 0);
        assert(items_text(a, 0) == separator(0) + value_text(a[0]) + items_text(a, 1));
        assert(text.subrange(1, 1 + tail.len() as int) =~= tail);
        lemma_matches_part(s, pos, text, 1, tail);
        lemma_value_start(a[0]);
        assert(s[pos + 1] == text[1]);
        assert(text[1] == value_text(a[0])[0]);
        lemma_no_noise(s, pos + 1);
        lemma_items_read_back(s, pos + 1, a, 0, Seq::empty());
        assert(Seq::<Value>::empty() + a.subrange(0, a.len() as int) =~= a);
        let close = pos + 1 + tail.len() - 1;
        assert(s[pos + (tail.len() as int)] == text[tail.len() as int]);
    }
}

/// A value that is written so that it is read back is read back, where
/// what follows it may follow an object.
pub proof fn lemma_value_reads_back(s: Seq<u8>, pos: int, v: Value)
    requires
        writable(v),
        matches_at(s, pos, value_text(v)),
        follows_object(s, pos + value_text(v).len()),
    ensures
        spec_object(s, pos) == Some((v, skip_noise(s, pos + value_text(v).len()))),
    decreases v, 0nat, 1nat,
{
    match v {
        Value::String(x) => {
            lemma_string_reads_back(s, pos, x);
        },
        Value::HexString(b) => {
            lemma_hex_string_reads_back(s, pos, b);
        },
        Value::Integer(i) => {
            lemma_integer_object_reads_back(s, pos, i);
        },
        Value::Bool(b) => {
            lemma_bool_reads_back(s, pos, b);
        },
        Value::Name(n) => {
            lemma_name_object_reads_back(s, pos, n);
        },
        Value::Null => {
            lemma_null_reads_back(s, pos);
        },
        Value::Reference(index, generation) => {
            lemma_reference_reads_back(s, pos, index, generation);
        },
        Value::Float(t) => {
            lemma_decimal_reads_back(s, pos, t);
        },
        Value::Array(a) => {
            lemma_array_reads_back(s, pos, a);
            let text = value_text(v);
            assert(s.subrange(pos, pos + text.len())[0] == s[pos]);
            lemma_first_byte(s, pos);
        },
        Value::Dictionary(d) => {
            lemma_dictionary_reads_back(s, pos, d);
        },
        Value::Indirect(index, generation, inner) => {
            assert(writable_body(*inner));
            lemma_indirect_reads_back(s, pos, index, generation, *inner);
            lemma_first_byte(s, pos);
        },
        _ => {},
    }
}

/// A key of a dictionary with distinct keys is not among the keys before
/// it: putting its entry behind the entries before it adds the entry.
pub proof fn lemma_fresh_key(d: Seq<(Seq<u8>, Value)>, k: int)
    requires
        distinct_keys(d),
        0 <= k < d.len(),
    ensures
        dict_insert(d.subrange(0, k), d[k].0, d[k].1) == d.subrange(0, k + 1),
{
    let acc = d.subrange(0, k);
    lemma_dict_find(acc, d[k].0, 0);
    let found = dict_find(acc, d[k].0, 0);
    if found < acc.len() {
        assert(acc[found] == d[found]);
        assert(d[found].0 != d[k].0);
    }
    assert(acc.push((d[k].0, d[k].1)) =~= d.subrange(0, k + 1));
}

/// The text of a dictionary from its entry `k` on, and the brackets that
/// close it.
pub open spec fn entries_tail(d: Seq<(Seq<u8>, Value)>, k: int) -> Seq<u8> {
    name_text(d[k].0) + seq![SPACE] + value_text(d[k].1) + entries_text(d, k + 1, None) + kw(">>")
}

/// Where the entries of a dictionary are written from the entry `k` on,
/// they are read back.
pub proof fn lemma_entries_read_back(s: Seq<u8>, kpos: int, d: Seq<(Seq<u8>, Value)>, k: int)
    requires
        0 <= k < d.len(),
        distinct_keys(d),
        forall|i: int| 0 <= i < d.len() ==> writable(#[trigger] d[i].1),
        matches_at(s, kpos, entries_tail(d, k)),
    ensures
        spec_entries(s, kpos, d.subrange(0, k)) == (d, kpos + entries_tail(d, k).len() - 2),
    decreases d, d.len() - k, 0nat,
{
    lemma_keyword_bytes();
    let whole = entries_tail(d, k);
    let key = name_text(d[k].0);
    let nk = key.len() as int;
    let t = value_text(d[k].1);
    let nt = t.len() as int;
    let vpos = kpos + nk + 1;
    let e = vpos + nt;
    let len = d.len() as int;
    assert(whole.subrange(0, nk) =~= key);
    lemma_matches_part(s, kpos, whole, 0, key);
    assert(whole.subrange(nk + 1, nk + 1 + nt) =~= t);
    lemma_matches_part(s, kpos, whole, nk + 1, t);
    lemma_value_start(d[k].1);
    assert(s[kpos + nk] == whole[nk]);
    assert(s[kpos + (nk + 1)] == whole[nk + 1]);
    assert(whole[nk + 1] == t[0]);
    lemma_name_reads_back(s, kpos, d[k].0);
    lemma_run_over(s, kpos + nk, 1, ByteClass::Space);
    lemma_no_noise(s, vpos);
    assert(skip_noise(s, kpos + nk) == vpos);
    assert(s[kpos + (nk + 1 + nt)] == whole[nk + 1 + nt]);
    lemma_fresh_key(d, k);
    if k + 1 == len {
        assert(entries_text(d, k + 1, None) =~= Seq::<u8>::empty());
        assert(s[e] == GREATER_THAN);
        lemma_follows_delimiter(s, e);
        lemma_value_reads_back(s, vpos, d[k].1);
        lemma_no_noise(s, e);
        lemma_first_byte(s, e);
        assert(d.subrange(0, k + 1) =~= d);
        assert(spec_entries(s, e, d) == (d, e));
    } else {
        let rest = entries_tail(d, k + 1);
        assert(entries_text(d, k + 1, None) == separator(k + 1) + name_text(d[k + 1].0) + seq![
            SPACE,
        ] + value_text(d[k + 1].1) + entries_text(d, k + 2, None));
        assert(whole.subrange(nk + 1 + nt + 1, nk + 1 + nt + 1 + rest.len() as int) =~= rest);
        lemma_matches_part(s, kpos, whole, nk + 1 + nt + 1, rest);
        assert(s[e] == SPACE);
        assert(s[kpos + (nk + 1 + nt + 1)] == whole[nk + 1 + nt + 1]);
        assert(whole[nk + 1 + nt + 1] == rest[0]);
        assert(rest[0] == SOLIDUS);
        lemma_run_over(s, e, 1, ByteClass::Space);
        lemma_run_over(s, e + 1, 0, ByteClass::Digit);
        assert(follows_object(s, e));
        lemma_value_reads_back(s, vpos, d[k].1);
        lemma_no_noise(s, e + 1);
        assert(skip_noise(s, e) == e + 1);
        lemma_entries_read_back(s, e + 1, d, k + 1);
    }
}

/// A dictionary with distinct keys whose values are written so that they
/// are read back is read back, as a dictionary and as an object.
pub proof fn lemma_dictionary_reads_back(s: Seq<u8>, pos: int, d: Seq<(Seq<u8>, Value)>)
    requires
        distinct_keys(d),
        forall|i: int| 0 <= i < d.len() ==> writable(#[trigger] d[i].1),
        matches_at(s, pos, value_text(Value::Dictionary(d))),
    ensures
        spec_dictionary(s, pos) == Some(
            (d, skip_noise(s, pos + value_text(Value::Dictionary(d)).len())),
        ),
        spec_object(s, pos) == Some(
            (Value::Dictionary(d), skip_noise(s, pos + value_text(Value::Dictionary(d)).len())),
        ),
    decreases d, d.len() + 1, 0nat,
{
    lemma_keyword_bytes();
    let text = value_text(Value::Dictionary(d));
    assert(text.subrange(0, text.len() as int) =~= text);
    lemma_matches_part(s, pos, text, 0, text);
    assert(text.subrange(0, 2) =~= kw("<<"));
    lemma_matches_part(s, pos, text, 0, kw("<<"));
    assert(s[pos + 0] == text[0]);
    assert(s[pos + 2] == text[2]);
    if d.len() == 0 {
        assert(entries_text(d, 0, None) =~= Seq::<u8>::empty());
        assert(text.subrange(2, 4) =~= kw(">>"));
        lemma_matches_part(s, pos, text, 2, kw(">>"));
        lemma_no_noise(s, pos + 2);
        lemma_first_byte(s, pos + 2);
        assert(spec_entries(s, pos + 2, Seq::empty()) == (
            Seq::<(Seq<u8>, Value)>::empty(),
            pos + 2,
        ));
        assert(d =~= Seq::<(Seq<u8>, Value)>::empty());
    } else {
        let tail = entries_tail(d, 0);
        let nt = tail.len() as int;
        assert(entries_text(d, 0, None) == separator(0) + name_text(d[0].0) + seq![SPACE]
            + value_text(d[0].1) + entries_text(d, 1, None));
        assert(text.subrange(2, 2 + nt) =~= tail);
        lemma_matches_part(s, pos, text, 2, tail);
        assert(text[2] == tail[0]);
        assert(tail[0] == SOLIDUS);
        lemma_no_noise(s, pos + 2);
        assert(d.subrange(0, 0) =~= Seq::<(Seq<u8>, Value)>::empty());
        lemma_entries_read_back(s, pos + 2, d, 0);
        assert(tail.subrange(nt - 2, nt) =~= kw(">>"));
        lemma_matches_part(s, pos + 2, tail, nt - 2, kw(">>"));
    }
}

/// Where two texts stand one after the other, each of them stands at its
/// place.
pub proof fn lemma_split(s: Seq<u8>, pos: int, a: Seq<u8>, b: Seq<u8>)
    requires
        matches_at(s, pos, a + b),
    ensures
        matches_at(s, pos, a),
        matches_at(s, pos + a.len(), b),
{
    let whole = a + b;
    assert(whole.subrange(0, a.len() as int) =~= a);
    lemma_matches_part(s, pos, whole, 0, a);
    assert(whole.subrange(a.len() as int, (a.len() + b.len()) as int) =~= b);
    lemma_matches_part(s, pos, whole, a.len() as int, b);
}

/// Where a text stands, each of its bytes stands at its place.
pub proof fn lemma_byte(s: Seq<u8>, pos: int, t: Seq<u8>, k: int)
    requires
        matches_at(s, pos, t),
        0 <= k < t.len(),
    ensures
        0 <= pos + k < s.len(),
        s[pos + k] == t[k],
{
    assert(s.subrange(pos, pos + t.len())[k] == t[k]);
}

/// A line feed that is followed by a byte that is neither whitespace nor
/// the start of a comment is the noise that stands there.
pub proof fn lemma_one_line_feed(s: Seq<u8>, e: int)
    requires
        0 <= e,
        e + 1 < s.len(),
        s[e] == LF || s[e] == SPACE,
        !ByteClass::Space.holds(s[e + 1]),
        s[e + 1] != PERCENT,
    ensures
        skip_noise(s, e) == e + 1,
        run_end(s, e, ByteClass::Space) == e + 1,
{
    lemma_run_over(s, e, 1, ByteClass::Space);
    lemma_no_noise(s, e + 1);
}

/// In a dictionary with distinct keys that holds the number `n` under
/// `Length`, writing `n` in the place of the value under `Length` changes
/// nothing.
pub proof fn lemma_entries_with_length(d: Seq<(Seq<u8>, Value)>, from: int, n: nat)
    requires
        0 <= from,
        distinct_keys(d),
        n <= i32::MAX,
        dict_get(d, kw("Length")) == Some(Value::Integer(n as i32)),
    ensures
        entries_text(d, from, Some(unsigned_text(n))) == entries_text(d, from, None),
    decreases d.len() - from,
{
    if from < d.len() {
        lemma_entries_with_length(d, from + 1, n);
        if d[from].0 == kw("Length") {
            lemma_dict_find(d, kw("Length"), 0);
            let found = dict_find(d, kw("Length"), 0);
            if found != from {
                assert(d[found].0 == d[from].0);
            }
            assert(d[from].1 == Value::Integer(n as i32));
            assert(value_text(d[from].1) == integer_text((n as i32) as int));
            assert(value_text(d[from].1) == unsigned_text(n));
        }
    }
}

/// The dictionary of a stream that holds the length of the payload is
/// written as any dictionary is.
pub proof fn lemma_stream_dictionary(d: Seq<(Seq<u8>, Value)>, data: Seq<u8>)
    requires
        writable_stream(d, data),
    ensures
        stream_dictionary_text(d, unsigned_text(data.len())) == value_text(Value::Dictionary(d)),
        announced_length(d) == data.len(),
{
    lemma_entries_with_length(d, 0, data.len());
    assert(kw("<<") + entries_text(d, 0, None) + Seq::<u8>::empty() + kw(">>") =~= kw("<<")
        + entries_text(d, 0, None) + kw(">>"));
}

/// The text of an indirect object's body and of what follows it up to the
/// keyword that ends the object.
pub open spec fn body_tail(inner: Value) -> Seq<u8> {
    value_text(inner) + seq![LF] + kw("endobj")
}

/// The payload of a stream as it is written, between its keywords and
/// with the line feed that follows it in an indirect object.
pub open spec fn payload_text(data: Seq<u8>) -> Seq<u8> {
    kw("stream") + seq![LF] + data + kw("\nendstream") + seq![LF]
}

/// The payload of a stream that stands between its keywords is read by its
/// length.
pub proof fn lemma_payload_is_read(s: Seq<u8>, p: int, data: Seq<u8>)
    requires
        matches_at(s, p, payload_text(data)),
        p + 18 + data.len() < s.len(),
        !ByteClass::Space.holds(s[p + 18 + data.len()]),
        s[p + 18 + data.len()] != PERCENT,
    ensures
        matches_at(s, p, kw("stream")),
        after_line_end(s, p + 6) == p + 7,
        stream_by_length(s, p + 7, data.len()) == Some((data, p + 18 + data.len())),
{
    lemma_keyword_bytes();
    let n = data.len() as int;
    let a = kw("stream") + seq![LF] + data + kw("\nendstream");
    lemma_split(s, p, a, seq![LF]);
    let b = kw("stream") + seq![LF] + data;
    lemma_split(s, p, b, kw("\nendstream"));
    let c = kw("stream") + seq![LF];
    lemma_split(s, p, c, data);
    lemma_split(s, p, kw("stream"), seq![LF]);
    lemma_byte(s, p + 6, seq![LF], 0);
    if matches_at(s, p + 6, kw("\r\n")) {
        lemma_byte(s, p + 6, kw("\r\n"), 0);
    }
    let start = p + 7;
    lemma_byte(s, start + n, kw("\nendstream"), 0);
    if matches_at(s, start + n, kw("\r\n")) {
        lemma_byte(s, start + n, kw("\r\n"), 0);
    }
    assert(after_line_end(s, start + n) == start + n + 1);
    assert(kw("\nendstream") =~= seq![LF] + kw("endstream"));
    lemma_split(s, start + n, seq![LF], kw("endstream"));
    let e0 = start + n + 10;
    lemma_byte(s, e0, seq![LF], 0);
    lemma_one_line_feed(s, e0);
}

/// A stream in an indirect object is written as its dictionary, a space,
/// its payload between its keywords, and `endobj`.
pub proof fn lemma_stream_text(d: Seq<(Seq<u8>, Value)>, data: Seq<u8>)
    requires
        writable_stream(d, data),
    ensures
        body_tail(Value::Stream(d, data)) == ((value_text(Value::Dictionary(d)) + seq![SPACE])
            + payload_text(data)) + kw("endobj"),
        payload_text(data).len() == data.len() + 18,
        value_text(Value::Stream(d, data)).len() == value_text(Value::Dictionary(d)).len()
            + data.len() + 18,
{
    lemma_keyword_bytes();
    lemma_stream_dictionary(d, data);
    let dt = value_text(Value::Dictionary(d));
    assert(kw(" stream\n") =~= seq![SPACE] + kw("stream") + seq![LF]);
    assert(dt + (seq![SPACE] + kw("stream") + seq![LF]) + data + kw("\nendstream") + seq![LF]
        + kw("endobj") =~= ((dt + seq![SPACE]) + payload_text(data)) + kw("endobj"));
}

/// A stream whose dictionary and payload are read is read.
pub proof fn lemma_stream_is_read(
    s: Seq<u8>,
    body: int,
    d: Seq<(Seq<u8>, Value)>,
    data: Seq<u8>,
    p: int,
    e: int,
)
    requires
        spec_dictionary(s, body) == Some((d, p)),
        matches_at(s, p, kw("stream")),
        after_line_end(s, p + 6) == p + 7,
        stream_by_length(s, p + 7, announced_length(d)) == Some((data, e)),
    ensures
        spec_stream(s, body) == Some((d, data, e)),
{
}

/// The stream of an indirect object is read back, where it holds the
/// length of its payload and its dictionary is written so that it is read
/// back.
pub proof fn lemma_stream_reads_back(
    s: Seq<u8>,
    body: int,
    d: Seq<(Seq<u8>, Value)>,
    data: Seq<u8>,
)
    requires
        writable_stream(d, data),
        matches_at(s, body, body_tail(Value::Stream(d, data))),
    ensures
        spec_stream(s, body) == Some(
            (d, data, body + value_text(Value::Stream(d, data)).len() + 1),
        ),
    decreases d, d.len() + 2, 0nat,
{
    lemma_keyword_bytes();
    let dt = value_text(Value::Dictionary(d));
    let nd = dt.len() as int;
    let rest = payload_text(data);
    lemma_stream_text(d, data);
    lemma_stream_dictionary(d, data);
    lemma_split(s, body, (dt + seq![SPACE]) + rest, kw("endobj"));
    lemma_split(s, body, dt + seq![SPACE], rest);
    lemma_split(s, body, dt, seq![SPACE]);
    let p = body + nd + 1;
    lemma_byte(s, p + 18 + data.len(), kw("endobj"), 0);
    lemma_payload_is_read(s, p, data);
    lemma_byte(s, p, kw("stream"), 0);
    lemma_byte(s, body + nd, seq![SPACE], 0);
    lemma_one_line_feed(s, body + nd);
    assert(distinct_keys(d));
    assert(forall|i: int| 0 <= i < d.len() ==> writable(#[trigger] d[i].1));
    lemma_dictionary_reads_back(s, body, d);
    lemma_stream_is_read(s, body, d, data, p, p + 18 + data.len());
}

/// What an indirect object holds is written so that it is read back.
pub open spec fn writable_body(inner: Value) -> bool {
    match inner {
        Value::Stream(d, data) => writable_stream(d, data),
        other => writable(other),
    }
}

/// What stands between `obj` and `endobj` is read back.
pub proof fn lemma_body_reads_back(s: Seq<u8>, body: int, inner: Value)
    requires
        writable_body(inner),
        matches_at(s, body, body_tail(inner)),
    ensures
        spec_indirect_body(s, body) == Some((inner, body + value_text(inner).len() + 1)),
    decreases inner, 0nat, 2nat,
{
    lemma_keyword_bytes();
    let t = value_text(inner);
    let n = t.len() as int;
    let e0 = body + n;
    match inner {
        Value::Stream(d, data) => {
            lemma_stream_reads_back(s, body, d, data);
        },
        _ => {
            lemma_split(s, body, t + seq![LF], kw("endobj"));
            lemma_split(s, body, t, seq![LF]);
            lemma_byte(s, e0, seq![LF], 0);
            lemma_byte(s, e0 + 1, kw("endobj"), 0);
            lemma_one_line_feed(s, e0);
            lemma_run_over(s, e0 + 1, 0, ByteClass::Digit);
            assert(follows_object(s, e0));
            assert(writable(inner));
            lemma_value_reads_back(s, body, inner);
            lemma_value_start(inner);
            lemma_byte(s, body, t, 0);
            assert(spec_stream(s, body) is None) by {
                match inner {
                    Value::Dictionary(d) => {
                        lemma_dictionary_reads_back(s, body, d);
                        if matches_at(s, e0 + 1, kw("stream")) {
                            lemma_byte(s, e0 + 1, kw("stream"), 0);
                        }
                    },
                    Value::HexString(b) => {
                        lemma_hex_string_is_read(s, body, b);
                        if matches_at(s, body, kw("<<")) {
                            lemma_byte(s, body, kw("<<"), 1);
                        }
                    },
                    _ => {
                        lemma_first_byte(s, body);
                    },
                }
            }
        },
    }
}

/// The head of an indirect object is read: its two numbers and `obj`.
pub proof fn lemma_head_is_read(s: Seq<u8>, pos: int, index: u32, generation: u32)
    requires
        matches_at(
            s,
            pos,
            unsigned_text(index as nat) + seq![SPACE] + unsigned_text(generation as nat) + seq![
                SPACE,
            ] + kw("obj") + seq![LF],
        ),
    ensures
        spec_object_id(s, pos) == Some(
            (
                index,
                generation,
                pos + unsigned_text(index as nat).len() + unsigned_text(generation as nat).len()
                    + 2,
            ),
        ),
        matches_at(
            s,
            pos + unsigned_text(index as nat).len() + unsigned_text(generation as nat).len() + 2,
            kw("obj"),
        ),
        s[pos + unsigned_text(index as nat).len() + unsigned_text(generation as nat).len() + 2]
            == 111,
        s[pos + unsigned_text(index as nat).len() + unsigned_text(generation as nat).len() + 5]
            == LF,
        0 <= pos < s.len(),
        ByteClass::Digit.holds(s[pos]),
{
    lemma_keyword_bytes();
    let first = unsigned_text(index as nat);
    let second = unsigned_text(generation as nat);
    let n1 = first.len() as int;
    let n2 = second.len() as int;
    lemma_digits(index as nat);
    lemma_digits(generation as nat);
    let a = first + seq![SPACE] + second + seq![SPACE] + kw("obj");
    lemma_split(s, pos, a, seq![LF]);
    let b = first + seq![SPACE] + second + seq![SPACE];
    lemma_split(s, pos, b, kw("obj"));
    let c = first + seq![SPACE] + second;
    lemma_split(s, pos, c, seq![SPACE]);
    lemma_split(s, pos, first + seq![SPACE], second);
    lemma_split(s, pos, first, seq![SPACE]);
    let at1 = pos + n1;
    let at2 = at1 + 1;
    let at3 = at2 + n2;
    let at4 = at3 + 1;
    lemma_byte(s, pos, first, 0);
    lemma_byte(s, at1, seq![SPACE], 0);
    lemma_byte(s, at2, second, 0);
    lemma_byte(s, at3, seq![SPACE], 0);
    lemma_byte(s, at4, kw("obj"), 0);
    lemma_byte(s, at4 + 3, seq![LF], 0);
    lemma_unsigned_reads_back(s, pos, index as nat, u32::MAX as nat);
    lemma_run_over(s, at1, 1, ByteClass::Space);
    lemma_unsigned_reads_back(s, at2, generation as nat, u32::MAX as nat);
    lemma_run_over(s, at3, 1, ByteClass::Space);
}

/// The head of an indirect object as it is written: its two numbers and
/// `obj`, on a line.
pub open spec fn head_text(index: u32, generation: u32) -> Seq<u8> {
    unsigned_text(index as nat) + seq![SPACE] + unsigned_text(generation as nat) + seq![SPACE]
        + kw("obj") + seq![LF]
}

/// An indirect object is written as its head, its body, `endobj` and a
/// line feed.
pub proof fn lemma_indirect_text(index: u32, generation: u32, inner: Value)
    ensures
        value_text(Value::Indirect(index, generation, Box::new(inner))) == (head_text(
            index,
            generation,
        ) + body_tail(inner)) + seq![LF],
        head_text(index, generation).len() == unsigned_text(index as nat).len() + unsigned_text(
            generation as nat,
        ).len() + 6,
        body_tail(inner).len() == value_text(inner).len() + 7,
{
    lemma_keyword_bytes();
    assert(kw(" obj\n") =~= seq![SPACE] + kw("obj") + seq![LF]);
    assert(kw("endobj\n") =~= kw("endobj") + seq![LF]);
    let first = unsigned_text(index as nat);
    let second = unsigned_text(generation as nat);
    let t = value_text(inner);
    assert(first + seq![SPACE] + second + (seq![SPACE] + kw("obj") + seq![LF]) + t + seq![LF] + (
    kw("endobj") + seq![LF]) =~= (head_text(index, generation) + body_tail(inner)) + seq![LF]);
}

/// The text of what an indirect object holds starts with a byte that can
/// start a value.
pub proof fn lemma_body_start(inner: Value)
    requires
        writable_body(inner),
    ensures
        value_text(inner).len() >= 1,
        starts_value(value_text(inner)[0]),
{
    lemma_keyword_bytes();
    match inner {
        Value::Stream(d, data) => {
            lemma_stream_dictionary(d, data);
            assert(value_text(inner)[0] == LESS_THAN);
        },
        _ => {
            lemma_value_start(inner);
        },
    }
}

/// An indirect object whose head and body are read is read.
pub proof fn lemma_indirect_is_read(
    s: Seq<u8>,
    pos: int,
    index: u32,
    generation: u32,
    inner: Value,
    at4: int,
    e: int,
)
    requires
        pos < at4,
        spec_object_id(s, pos) == Some((index, generation, at4)),
        at4 + 4 < s.len(),
        s[at4] == 111,
        matches_at(s, at4, kw("obj")),
        skip_noise(s, at4 + 3) == at4 + 4,
        spec_indirect_body(s, at4 + 4) == Some((inner, e)),
        matches_at(s, e, kw("endobj")),
        e + 6 < s.len(),
        s[e + 6] == LF,
    ensures
        spec_indirect(s, pos) == Some(
            (Value::Indirect(index, generation, Box::new(inner)), skip_noise(s, e + 7)),
        ),
{
    lemma_keyword_bytes();
    assert(skip_noise(s, e + 6) == skip_noise(s, e + 7));
    assert(spec_termination(s, e + 6) == Some(skip_noise(s, e + 7)));
    assert(advances(s, pos, at4 + 4));
}

/// An indirect object is read back, where what it holds is written so
/// that it is read back.
pub proof fn lemma_indirect_reads_back(
    s: Seq<u8>,
    pos: int,
    index: u32,
    generation: u32,
    inner: Value,
)
    requires
        writable_body(inner),
        matches_at(s, pos, value_text(Value::Indirect(index, generation, Box::new(inner)))),
    ensures
        spec_indirect(s, pos) == Some(
            (
                Value::Indirect(index, generation, Box::new(inner)),
                skip_noise(
                    s,
                    pos + value_text(Value::Indirect(index, generation, Box::new(inner))).len(),
                ),
            ),
        ),
        0 <= pos < s.len(),
        ByteClass::Digit.holds(s[pos]),
    decreases inner, 1nat, 0nat,
{
    let head = head_text(index, generation);
    let tail = body_tail(inner);
    let t = value_text(inner);
    let n = t.len() as int;
    lemma_indirect_text(index, generation, inner);
    lemma_split(s, pos, head + tail, seq![LF]);
    lemma_split(s, pos, head, tail);
    lemma_head_is_read(s, pos, index, generation);
    let at4 = pos + head.len() - 4;
    let body = at4 + 4;
    lemma_body_start(inner);
    lemma_split(s, body, t + seq![LF], kw("endobj"));
    lemma_split(s, body, t, seq![LF]);
    lemma_byte(s, body, t, 0);
    lemma_one_line_feed(s, at4 + 3);
    lemma_body_reads_back(s, body, inner);
    let e = body + n + 1;
    lemma_byte(s, e + 6, seq![LF], 0);
    lemma_indirect_is_read(s, pos, index, generation, inner, at4, e);
}

/// The text of a value that is written so that it is read back, is read as
/// the value.
pub proof fn lemma_written_value_is_read(v: Value)
    requires
        writable(v),
    ensures
        spec_object(value_text(v), 0) == Some((v, value_text(v).len() as int)),
{
    let text = value_text(v);
    assert(text.subrange(0, text.len() as int) =~= text);
    lemma_run_over(text, text.len() as int, 0, ByteClass::Space);
    lemma_value_reads_back(text, 0, v);
    lemma_no_noise(text, text.len() as int);
}

} // verus!
