//! What is written is read back: laws that relate the encoder to the
//! grammar.
use vstd::prelude::*;
use crate::lex::{
    decimal, matches_at, run_end, spec_hex_char_to_nibble, spec_is_delimiter, spec_is_regular,
    spec_signed32, spec_unsigned, ByteClass, BACKSLASH, LEFT_PAREN, MINUS, NUMBER_SIGN,
    RIGHT_PAREN,
};
use crate::parse::grammar::{name_decoded, skip_noise, spec_name, spec_string, string_close};
use crate::pdf::object::digits_of;
use crate::simple_encode::text::{
    hex_digit, hex_encoding, integer_text, name_body, name_byte_text, name_text, plain_in_name,
    string_body, string_text, unsigned_text,
};

verus! {

/// A run of bytes of a class that is followed by the end of the input or by
/// a byte outside the class ends there.
pub proof fn lemma_run_over(s: Seq<u8>, pos: int, len: int, class: ByteClass)
    requires
        0 <= pos,
        0 <= len,
        pos + len <= s.len(),
        forall|i: int| pos <= i < pos + len ==> class.holds(#[trigger] s[i]),
        pos + len < s.len() ==> !class.holds(s[pos + len]),
    ensures
        run_end(s, pos, class) == pos + len,
    decreases len,
{
    if len > 0 {
        lemma_run_over(s, pos + 1, len - 1, class);
    }
}

/// The digits of a number are digits, and there is at least one.
pub proof fn lemma_digits(n: nat)
    ensures
        digits_of(n).len() >= 1,
        forall|i: int| 0 <= i < digits_of(n).len() ==> ByteClass::Digit.holds(
            #[trigger] digits_of(n)[i],
        ),
    decreases n,
{
    if n >= 10 {
        lemma_digits(n / 10);
    }
}

/// The digits that write a number are read as that number.
pub proof fn lemma_decimal_of_digits(s: Seq<u8>, pos: int, n: nat)
    requires
        matches_at(s, pos, digits_of(n)),
    ensures
        decimal(s, pos, pos + digits_of(n).len()) == n,
    decreases n,
{
    let text = digits_of(n);
    let len = text.len() as int;
    lemma_digits(n);
    assert(s[pos + len - 1] == s.subrange(pos, pos + len)[len - 1]);
    if n < 10 {
        assert(decimal(s, pos, pos) == 0);
    } else {
        let front = digits_of(n / 10);
        assert(s.subrange(pos, pos + front.len()) =~= front) by {
            assert forall|i: int| 0 <= i < front.len() implies s.subrange(
                pos,
                pos + front.len(),
            )[i] == front[i] by {
                assert(s.subrange(pos, pos + len)[i] == text[i]);
            }
        }
        lemma_decimal_of_digits(s, pos, n / 10);
    }
}

/// An unsigned number that is written in digits and followed by something
/// else than a digit is read back.
pub proof fn lemma_unsigned_reads_back(s: Seq<u8>, pos: int, n: nat, max: nat)
    requires
        matches_at(s, pos, unsigned_text(n)),
        pos + unsigned_text(n).len() < s.len() ==> !ByteClass::Digit.holds(
            s[pos + unsigned_text(n).len()],
        ),
        n <= max,
    ensures
        spec_unsigned(s, pos, max) == Some((n, pos + unsigned_text(n).len())),
{
    let text = digits_of(n);
    lemma_digits(n);
    assert forall|i: int| pos <= i < pos + text.len() implies ByteClass::Digit.holds(
        #[trigger] s[i],
    ) by {
        assert(s[i] == s.subrange(pos, pos + text.len())[i - pos]);
    }
    lemma_run_over(s, pos, text.len() as int, ByteClass::Digit);
    lemma_decimal_of_digits(s, pos, n);
}

/// An integer that is written and followed by something else than a digit
/// is read back.
pub proof fn lemma_integer_reads_back(s: Seq<u8>, pos: int, i: i32)
    requires
        matches_at(s, pos, integer_text(i as int)),
        pos + integer_text(i as int).len() < s.len() ==> !ByteClass::Digit.holds(
            s[pos + integer_text(i as int).len()],
        ),
    ensures
        spec_signed32(s, pos) == Some((i, pos + integer_text(i as int).len())),
{
    let text = integer_text(i as int);
    if i < 0 {
        let magnitude = (-i) as nat;
        let digits = digits_of(magnitude);
        assert(text[0] == MINUS);
        assert(s[pos] == s.subrange(pos, pos + text.len())[0]);
        assert(s.subrange(pos + 1, pos + 1 + digits.len()) =~= digits) by {
            assert forall|k: int| 0 <= k < digits.len() implies s.subrange(
                pos + 1,
                pos + 1 + digits.len(),
            )[k] == digits[k] by {
                assert(s.subrange(pos, pos + text.len())[k + 1] == text[k + 1]);
            }
        }
        lemma_unsigned_reads_back(s, pos + 1, magnitude, 0x8000_0000);
    } else {
        lemma_digits(i as nat);
        assert(s[pos] == s.subrange(pos, pos + text.len())[0]);
        assert(text[0] == digits_of(i as nat)[0]);
        assert(ByteClass::Digit.holds(s[pos]));
        lemma_unsigned_reads_back(s, pos, i as nat, 0x7fff_ffff);
    }
}

/// A hexadecimal digit that is written is read as the value that it was
/// written for, and it is a regular byte.
pub proof fn lemma_hex_digit(n: u8)
    requires
        n < 16,
    ensures
        spec_hex_char_to_nibble(hex_digit(n)) == Some(n),
        spec_is_regular(hex_digit(n)),
        hex_digit(n) != NUMBER_SIGN,
{
}

/// How one byte of a name is written: in one regular byte, or in a number
/// sign and two hexadecimal digits.
pub proof fn lemma_name_byte(c: u8)
    ensures
        plain_in_name(c) ==> name_byte_text(c) =~= seq![c],
        !plain_in_name(c) ==> name_byte_text(c) =~= seq![
            NUMBER_SIGN,
            hex_digit(c / 16),
            hex_digit(c % 16),
        ],
        forall|i: int| 0 <= i < name_byte_text(c).len() ==> spec_is_regular(
            #[trigger] name_byte_text(c)[i],
        ),
{
    lemma_hex_digit(c / 16);
    lemma_hex_digit(c % 16);
    if !plain_in_name(c) {
        reveal(hex_encoding);
        assert(hex_encoding(seq![c]) =~= seq![hex_digit(c / 16), hex_digit(c % 16)]);
    }
}

/// A name is written in regular bytes only.
pub proof fn lemma_name_body_regular(n: Seq<u8>, from: int)
    requires
        0 <= from,
    ensures
        forall|i: int| 0 <= i < name_body(n, from).len() ==> spec_is_regular(
            #[trigger] name_body(n, from)[i],
        ),
    decreases n.len() - from,
{
    if from < n.len() {
        lemma_name_byte(n[from]);
        lemma_name_body_regular(n, from + 1);
        let first = name_byte_text(n[from]);
        let rest = name_body(n, from + 1);
        assert forall|i: int| 0 <= i < name_body(n, from).len() implies spec_is_regular(
            #[trigger] name_body(n, from)[i],
        ) by {
            if i < first.len() {
                assert(name_body(n, from)[i] == first[i]);
            } else {
                assert(name_body(n, from)[i] == rest[i - first.len()]);
            }
        }
    }
}

/// The bytes that a name is written in are decoded to the name.
pub proof fn lemma_name_decoded(s: Seq<u8>, at: int, n: Seq<u8>, from: int)
    requires
        0 <= from <= n.len(),
        matches_at(s, at, name_body(n, from)),
    ensures
        name_decoded(s, at, at + name_body(n, from).len()) == Some(
            n.subrange(from, n.len() as int),
        ),
    decreases n.len() - from,
{
    let body = name_body(n, from);
    let end = at + body.len();
    if from == n.len() {
        assert(n.subrange(from, n.len() as int) =~= Seq::<u8>::empty());
    } else {
        let c = n[from];
        let first = name_byte_text(c);
        let rest = name_body(n, from + 1);
        lemma_name_byte(c);
        lemma_hex_digit(c / 16);
        lemma_hex_digit(c % 16);
        assert(body == first + rest);
        assert forall|k: int| 0 <= k < body.len() implies s[at + k] == #[trigger] body[k] by {
            assert(s.subrange(at, at + body.len())[k] == body[k]);
        }
        assert(s.subrange(at + first.len(), at + first.len() + rest.len()) =~= rest) by {
            assert forall|k: int| 0 <= k < rest.len() implies s.subrange(
                at + first.len(),
                at + first.len() + rest.len(),
            )[k] == rest[k] by {
                assert(s[at + (first.len() + k)] == body[first.len() + k]);
            }
        }
        lemma_name_decoded(s, at + first.len(), n, from + 1);
        assert(s[at] == body[0]);
        if plain_in_name(c) {
            assert(seq![c] + n.subrange(from + 1, n.len() as int) =~= n.subrange(
                from,
                n.len() as int,
            ));
        } else {
            assert(s[at + 1] == body[1]);
            assert(s[at + 2] == body[2]);
            assert((c / 16) * 16 + c % 16 == c);
            assert(seq![c] + n.subrange(from + 1, n.len() as int) =~= n.subrange(
                from,
                n.len() as int,
            ));
        }
    }
}

/// What may follow a token at `pos`: the end of the input, whitespace or a
/// delimiter.
pub open spec fn ends_at(s: Seq<u8>, pos: int) -> bool {
    pos == s.len() || (0 <= pos < s.len() && (ByteClass::Space.holds(s[pos]) || spec_is_delimiter(
        s[pos],
    )))
}

/// A name that is written is read back, whatever bytes it is made of.
pub proof fn lemma_name_reads_back(s: Seq<u8>, pos: int, n: Seq<u8>)
    requires
        matches_at(s, pos, name_text(n)),
        ends_at(s, pos + name_text(n).len()),
    ensures
        spec_name(s, pos) == Some((n, skip_noise(s, pos + name_text(n).len()))),
{
    let text = name_text(n);
    let body = name_body(n, 0);
    let end = pos + text.len();
    assert forall|k: int| 0 <= k < text.len() implies s[pos + k] == #[trigger] text[k] by {
        assert(s.subrange(pos, pos + text.len())[k] == text[k]);
    }
    assert(s[pos] == text[0]);
    lemma_name_body_regular(n, 0);
    assert forall|i: int| pos + 1 <= i < pos + 1 + body.len() implies ByteClass::Regular.holds(
        #[trigger] s[i],
    ) by {
        assert(s[pos + (i - pos)] == text[i - pos]);
        assert(text[i - pos] == body[i - pos - 1]);
    }
    lemma_run_over(s, pos + 1, body.len() as int, ByteClass::Regular);
    assert(s.subrange(pos + 1, pos + 1 + body.len()) =~= body) by {
        assert forall|k: int| 0 <= k < body.len() implies s.subrange(
            pos + 1,
            pos + 1 + body.len(),
        )[k] == body[k] by {
            assert(s[pos + (k + 1)] == text[k + 1]);
        }
    }
    lemma_name_decoded(s, pos + 1, n, 0);
    assert(n.subrange(0, n.len() as int) =~= n);
}

/// Where a text stands, each part of it stands at its place.
pub proof fn lemma_matches_part(s: Seq<u8>, pos: int, whole: Seq<u8>, offset: int, part: Seq<u8>)
    requires
        matches_at(s, pos, whole),
        0 <= offset,
        offset + part.len() <= whole.len(),
        whole.subrange(offset, offset + part.len()) == part,
    ensures
        matches_at(s, pos + offset, part),
        forall|k: int| 0 <= k < whole.len() ==> s[pos + k] == #[trigger] whole[k],
{
    assert forall|k: int| 0 <= k < whole.len() implies s[pos + k] == #[trigger] whole[k] by {
        assert(s.subrange(pos, pos + whole.len())[k] == whole[k]);
    }
    assert(s.subrange(pos + offset, pos + offset + part.len()) =~= part) by {
        assert forall|k: int| 0 <= k < part.len() implies s.subrange(
            pos + offset,
            pos + offset + part.len(),
        )[k] == part[k] by {
            assert(s[pos + (offset + k)] == whole[offset + k]);
            assert(whole.subrange(offset, offset + part.len())[k] == whole[offset + k]);
        }
    }
}

/// A byte of a literal string that is neither a parenthesis nor a
/// backslash.
pub open spec fn plain_in_string(c: u8) -> bool {
    c != BACKSLASH && c != LEFT_PAREN && c != RIGHT_PAREN
}

/// None of the bytes of `x` is a parenthesis or a backslash.
pub open spec fn all_plain(x: Seq<u8>) -> bool {
    forall|i: int| 0 <= i < x.len() ==> plain_in_string(#[trigger] x[i])
}

/// `x` inside `n` pairs of parentheses.
pub open spec fn nested(n: nat, x: Seq<u8>) -> Seq<u8>
    decreases n,
{
    if n == 0 {
        x
    } else {
        seq![LEFT_PAREN] + nested((n - 1) as nat, x) + seq![RIGHT_PAREN]
    }
}

/// Bytes that are no parentheses and no backslashes do not close a string
/// and are written as they are.
pub proof fn lemma_over_plain(s: Seq<u8>, pos: int, len: int, depth: nat)
    requires
        0 <= pos,
        0 <= len,
        pos + len <= s.len(),
        forall|i: int| pos <= i < pos + len ==> plain_in_string(#[trigger] s[i]),
    ensures
        string_close(s, pos, depth) == string_close(s, pos + len, depth),
        string_body(s, pos, depth) == s.subrange(pos, pos + len) + string_body(
            s,
            pos + len,
            depth,
        ),
    decreases len,
{
    if len > 0 {
        lemma_over_plain(s, pos + 1, len - 1, depth);
        assert(seq![s[pos]] + (s.subrange(pos + 1, pos + len) + string_body(s, pos + len, depth))
            =~= s.subrange(pos, pos + len) + string_body(s, pos + len, depth));
    } else {
        assert(s.subrange(pos, pos) + string_body(s, pos, depth) =~= string_body(s, pos, depth));
    }
}

/// Pairs of parentheses around plain bytes neither close the string around
/// them nor change how deep it is nested, and they are written as they are.
pub proof fn lemma_over_nested(s: Seq<u8>, pos: int, n: nat, x: Seq<u8>, depth: nat)
    requires
        all_plain(x),
        matches_at(s, pos, nested(n, x)),
    ensures
        string_close(s, pos, depth) == string_close(s, pos + nested(n, x).len(), depth),
        string_body(s, pos, depth) == nested(n, x) + string_body(
            s,
            pos + nested(n, x).len(),
            depth,
        ),
    decreases n,
{
    let whole = nested(n, x);
    assert(whole.subrange(0, whole.len() as int) =~= whole);
    lemma_matches_part(s, pos, whole, 0, whole);
    if n == 0 {
        assert forall|i: int| pos <= i < pos + x.len() implies plain_in_string(#[trigger] s[i]) by {
            assert(s[pos + (i - pos)] == whole[i - pos]);
        }
        lemma_over_plain(s, pos, x.len() as int, depth);
    } else {
        let inner = nested((n - 1) as nat, x);
        assert(whole.subrange(1, 1 + inner.len() as int) =~= inner);
        lemma_matches_part(s, pos, whole, 1, inner);
        lemma_over_nested(s, pos + 1, (n - 1) as nat, x, depth + 1);
        lemma_over_nested(s, pos + 1, (n - 1) as nat, x, 0);
        let close = pos + 1 + inner.len();
        assert(s[pos] == whole[0]);
        assert(s[pos + (1 + inner.len())] == whole[1 + inner.len() as int]);
        assert(s[close] == RIGHT_PAREN);
        assert(string_close(s, close, 0) == Some(close));
        assert(string_close(s, pos + 1, 0) is Some);
        assert(seq![LEFT_PAREN] + (inner + (seq![RIGHT_PAREN] + string_body(
            s,
            close + 1,
            depth,
        ))) =~= whole + string_body(s, close + 1, depth));
    }
}

/// A literal string of plain bytes inside any number of matched pairs of
/// parentheses is read as it stands.
pub proof fn lemma_matched_string_is_read(s: Seq<u8>, pos: int, n: nat, x: Seq<u8>)
    requires
        all_plain(x),
        matches_at(s, pos, seq![LEFT_PAREN] + nested(n, x) + seq![RIGHT_PAREN]),
    ensures
        spec_string(s, pos) == Some(
            (nested(n, x), skip_noise(s, pos + nested(n, x).len() + 2)),
        ),
{
    let content = nested(n, x);
    let whole = seq![LEFT_PAREN] + content + seq![RIGHT_PAREN];
    assert(whole.subrange(1, 1 + content.len() as int) =~= content);
    lemma_matches_part(s, pos, whole, 1, content);
    lemma_over_nested(s, pos + 1, n, x, 0);
    assert(s[pos] == whole[0]);
    assert(s[pos + (1 + content.len())] == whole[1 + content.len() as int]);
    assert(s.subrange(pos + 1, pos + 1 + content.len()) == content);
}

/// A literal string of plain bytes inside any number of matched pairs of
/// parentheses is written without any escape, and what is written is read
/// back as the string.
pub proof fn lemma_matched_string(n: nat, x: Seq<u8>)
    requires
        all_plain(x),
    ensures
        string_text(nested(n, x)) == seq![LEFT_PAREN] + nested(n, x) + seq![RIGHT_PAREN],
        spec_string(string_text(nested(n, x)), 0) == Some(
            (nested(n, x), (nested(n, x).len() + 2) as int),
        ),
{
    let content = nested(n, x);
    assert(content.subrange(0, content.len() as int) =~= content);
    lemma_over_nested(content, 0, n, x, 0);
    assert(content + Seq::<u8>::empty() =~= content);
    let text = string_text(content);
    assert(text.subrange(0, text.len() as int) =~= text);
    lemma_matched_string_is_read(text, 0, n, x);
}

/// How many of the bytes `s[from..]` are closing parentheses.
pub open spec fn closing_count(s: Seq<u8>, from: int) -> nat
    decreases s.len() - from,
{
    if from < 0 || from >= s.len() {
        0
    } else if s[from] == RIGHT_PAREN {
        1 + closing_count(s, from + 1)
    } else {
        closing_count(s, from + 1)
    }
}

/// In a string without opening parentheses and backslashes every closing
/// parenthesis gets an escape and nothing else is added.
pub proof fn lemma_unmatched_closing_body(s: Seq<u8>, from: int)
    requires
        0 <= from <= s.len(),
        forall|i: int| 0 <= i < s.len() ==> #[trigger] s[i] != LEFT_PAREN && s[i] != BACKSLASH,
    ensures
        string_body(s, from, 0).len() == s.len() - from + closing_count(s, from),
    decreases s.len() - from,
{
    if from < s.len() {
        lemma_unmatched_closing_body(s, from + 1);
    }
}

/// A literal string with `K` closing parentheses that have no partner, and
/// without opening parentheses and backslashes, is written with exactly `K`
/// escapes: in its own bytes, the parentheses around it, and `K` more.
pub proof fn lemma_unmatched_closing(s: Seq<u8>)
    requires
        forall|i: int| 0 <= i < s.len() ==> #[trigger] s[i] != LEFT_PAREN && s[i] != BACKSLASH,
    ensures
        string_text(s).len() == s.len() + 2 + closing_count(s, 0),
{
    lemma_unmatched_closing_body(s, 0);
}

} // verus!
