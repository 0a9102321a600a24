//! Byte classes and the lexical primitives every parser is built from.
//!
//! All positions are indices into the sequence that is being read. Spec
//! functions take them as `int`; a position outside the sequence simply
//! matches nothing.
use vstd::prelude::*;
use vstd::string::*;

verus! {

/// `(`
pub const LEFT_PAREN: u8 = 40;
/// `)`
pub const RIGHT_PAREN: u8 = 41;
/// `<`
pub const LESS_THAN: u8 = 60;
/// `>`
pub const GREATER_THAN: u8 = 62;
/// `[`
pub const LEFT_BRACKET: u8 = 91;
/// `]`
pub const RIGHT_BRACKET: u8 = 93;
/// `{`
pub const LEFT_BRACE: u8 = 123;
/// `}`
pub const RIGHT_BRACE: u8 = 125;
/// `/`
pub const SOLIDUS: u8 = 47;
/// `%`
pub const PERCENT: u8 = 37;
/// `#`
pub const NUMBER_SIGN: u8 = 35;
/// `\`
pub const BACKSLASH: u8 = 92;
/// `+`
pub const PLUS: u8 = 43;
/// `-`
pub const MINUS: u8 = 45;
/// `.`
pub const PERIOD: u8 = 46;
/// Line feed.
pub const LF: u8 = 10;
/// Carriage return.
pub const CR: u8 = 13;

pub open spec fn spec_is_delimiter(chr: u8) -> bool {
    chr == LEFT_PAREN || chr == RIGHT_PAREN || chr == LESS_THAN || chr == GREATER_THAN || chr
        == LEFT_BRACKET || chr == RIGHT_BRACKET || chr == LEFT_BRACE || chr == RIGHT_BRACE || chr
        == SOLIDUS || chr == PERCENT
}

/// One of the ten bytes that end a token and start a structure.
#[verifier::when_used_as_spec(spec_is_delimiter)]
pub fn is_delimiter(chr: u8) -> (r: bool)
    ensures
        r == spec_is_delimiter(chr),
{
    chr == LEFT_PAREN || chr == RIGHT_PAREN || chr == LESS_THAN || chr == GREATER_THAN || chr
        == LEFT_BRACKET || chr == RIGHT_BRACKET || chr == LEFT_BRACE || chr == RIGHT_BRACE || chr
        == SOLIDUS || chr == PERCENT
}

/// Space, tab, line feed, form feed or carriage return.
pub open spec fn is_ascii_whitespace(chr: u8) -> bool {
    chr == 32 || chr == 9 || chr == LF || chr == 12 || chr == CR
}

pub open spec fn spec_is_regular(chr: u8) -> bool {
    !spec_is_delimiter(chr) && !is_ascii_whitespace(chr)
}

/// A byte that may stand inside a name or a keyword.
#[verifier::when_used_as_spec(spec_is_regular)]
pub fn is_regular(chr: u8) -> (r: bool)
    ensures
        r == spec_is_regular(chr),
{
    !is_delimiter(chr) && !(chr == 32 || chr == 9 || chr == LF || chr == 12 || chr == CR)
}

pub open spec fn spec_hex_char_to_nibble(c: u8) -> Option<u8> {
    if 97 <= c <= 102 {
        Some((c - 87) as u8)
    } else if 65 <= c <= 70 {
        Some((c - 55) as u8)
    } else if 48 <= c <= 57 {
        Some((c - 48) as u8)
    } else {
        None
    }
}

/// The value of one hexadecimal digit, in either case.
#[verifier::when_used_as_spec(spec_hex_char_to_nibble)]
pub fn hex_char_to_nibble(c: u8) -> (r: Option<u8>)
    ensures
        r == spec_hex_char_to_nibble(c),
        r matches Some(n) ==> n < 16,
{
    if 97 <= c && c <= 102 {
        Some(c - 87)
    } else if 65 <= c && c <= 70 {
        Some(c - 55)
    } else if 48 <= c && c <= 57 {
        Some(c - 48)
    } else {
        None
    }
}

/// The sets of bytes that the parsers scan runs of.
#[derive(Clone, Copy, Debug, PartialEq, Eq)]
pub enum ByteClass {
    /// Space, tab, carriage return and line feed: what separates tokens.
    Space,
    /// `0` to `9`.
    Digit,
    /// `0` to `9`, `a` to `f`, `A` to `F`.
    HexDigit,
    /// Anything but a delimiter or ASCII whitespace.
    Regular,
    /// Anything but a carriage return or a line feed.
    NotLineEnd,
}

impl ByteClass {
    pub open spec fn holds(self, c: u8) -> bool {
        match self {
            ByteClass::Space => c == 32 || c == 9 || c == CR || c == LF,
            ByteClass::Digit => 48 <= c <= 57,
            ByteClass::HexDigit => spec_hex_char_to_nibble(c) is Some,
            ByteClass::Regular => spec_is_regular(c),
            ByteClass::NotLineEnd => c != CR && c != LF,
        }
    }

    /// Whether `c` belongs to the class.
    pub fn test(self, c: u8) -> (r: bool)
        ensures
            r == self.holds(c),
    {
        match self {
            ByteClass::Space => c == 32 || c == 9 || c == CR || c == LF,
            ByteClass::Digit => 48 <= c && c <= 57,
            ByteClass::HexDigit => hex_char_to_nibble(c).is_some(),
            ByteClass::Regular => is_regular(c),
            ByteClass::NotLineEnd => c != CR && c != LF,
        }
    }
}

/// Where the run of bytes of `class` that starts at `pos` ends: the first
/// position from `pos` on that holds no byte of the class.
pub open spec fn run_end(s: Seq<u8>, pos: int, class: ByteClass) -> int
    decreases s.len() - pos,
{
    if 0 <= pos < s.len() && class.holds(s[pos]) {
        run_end(s, pos + 1, class)
    } else {
        pos
    }
}

/// `run_end` stays inside the sequence, covers only bytes of the class and
/// stops at the first byte outside it.
pub proof fn lemma_run_end(s: Seq<u8>, pos: int, class: ByteClass)
    requires
        0 <= pos <= s.len(),
    ensures
        pos <= run_end(s, pos, class) <= s.len(),
        forall|i: int| pos <= i < run_end(s, pos, class) ==> class.holds(#[trigger] s[i]),
        run_end(s, pos, class) < s.len() ==> !class.holds(s[run_end(s, pos, class)]),
    decreases s.len() - pos,
{
    if pos < s.len() && class.holds(s[pos]) {
        lemma_run_end(s, pos + 1, class);
    }
}

/// Skips the bytes of `class` from `pos` on and returns where they end.
pub fn skip_while(input: &[u8], pos: usize, class: ByteClass) -> (end: usize)
    requires
        pos <= input.len(),
    ensures
        end == run_end(input@, pos as int, class),
        pos <= end <= input.len(),
{
    let mut i: usize = pos;
    while i < input.len() && class.test(input[i])
        invariant
            pos <= i <= input.len(),
            run_end(input@, pos as int, class) == run_end(input@, i as int, class),
        decreases input.len() - i,
    {
        i += 1;
    }
    i
}

/// The keyword `kw` stands at `pos`.
pub open spec fn matches_at(s: Seq<u8>, pos: int, kw: Seq<u8>) -> bool {
    0 <= pos && pos + kw.len() <= s.len() && s.subrange(pos, pos + kw.len()) == kw
}

/// The lower-case form of an ASCII letter; any other byte unchanged.
pub open spec fn ascii_lower(c: u8) -> u8 {
    if 65 <= c <= 90 {
        (c + 32) as u8
    } else {
        c
    }
}

/// The keyword `kw` stands at `pos`, in whatever case its letters are written.
pub open spec fn matches_at_no_case(s: Seq<u8>, pos: int, kw: Seq<u8>) -> bool {
    0 <= pos && pos + kw.len() <= s.len() && forall|j: int|
        0 <= j < kw.len() ==> ascii_lower(#[trigger] s[pos + j]) == ascii_lower(kw[j])
}

fn to_ascii_lower(c: u8) -> (r: u8)
    ensures
        r == ascii_lower(c),
{
    if 65 <= c && c <= 90 {
        c + 32
    } else {
        c
    }
}

/// Tests whether the keyword `kw` stands at `pos`.
pub fn tag(input: &[u8], pos: usize, kw: &str) -> (r: bool)
    ensures
        r == matches_at(input@, pos as int, kw.spec_bytes()),
{
    same_at(input, pos, kw.as_bytes())
}

/// Tests whether the bytes `kw` stand at `pos`.
pub fn same_at(input: &[u8], pos: usize, kw: &[u8]) -> (r: bool)
    ensures
        r == matches_at(input@, pos as int, kw@),
{
    if pos > input.len() || kw.len() > input.len() - pos {
        return false;
    }
    let mut i: usize = 0;
    while i < kw.len()
        invariant
            pos + kw.len() <= input.len(),
            i <= kw.len(),
            forall|j: int| 0 <= j < i ==> input@[pos + j] == kw@[j],
        decreases kw.len() - i,
    {
        if input[pos + i] != kw[i] {
            assert(input@.subrange(pos as int, pos + kw@.len())[i as int] == input@[pos + i]);
            return false;
        }
        i += 1;
    }
    assert(input@.subrange(pos as int, pos + kw@.len()) =~= kw@);
    true
}

/// Tests whether `kw` stands at `pos`, ignoring the case of ASCII letters.
pub fn tag_no_case(input: &[u8], pos: usize, kw: &[u8]) -> (r: bool)
    ensures
        r == matches_at_no_case(input@, pos as int, kw@),
{
    if pos > input.len() || kw.len() > input.len() - pos {
        return false;
    }
    let mut i: usize = 0;
    while i < kw.len()
        invariant
            pos + kw.len() <= input.len(),
            i <= kw.len(),
            forall|j: int| 0 <= j < i ==> ascii_lower(#[trigger] input@[pos + j]) == ascii_lower(kw@[j]),
        decreases kw.len() - i,
    {
        if to_ascii_lower(input[pos + i]) != to_ascii_lower(kw[i]) {
            return false;
        }
        i += 1;
    }
    true
}

/// The number that the decimal digits in `s[from..to]` write.
pub open spec fn decimal(s: Seq<u8>, from: int, to: int) -> nat
    decreases to - from,
{
    if from >= to {
        0
    } else {
        decimal(s, from, to - 1) * 10 + (s[to - 1] - 48) as nat
    }
}

/// A longer run of digits never writes a smaller number.
pub proof fn lemma_decimal_monotonic(s: Seq<u8>, from: int, mid: int, to: int)
    requires
        0 <= from <= mid <= to <= s.len(),
        forall|i: int| from <= i < to ==> ByteClass::Digit.holds(#[trigger] s[i]),
    ensures
        decimal(s, from, mid) <= decimal(s, from, to),
    decreases to - mid,
{
    if mid < to {
        lemma_decimal_monotonic(s, from, mid, to - 1);
    }
}

/// An unsigned decimal number at `pos`: one or more digits, as many as there
/// are, whose value is at most `max`. Gives the value and the position after
/// the last digit.
pub open spec fn spec_unsigned(s: Seq<u8>, pos: int, max: nat) -> Option<(nat, int)> {
    let end = run_end(s, pos, ByteClass::Digit);
    if 0 <= pos < end && decimal(s, pos, end) <= max {
        Some((decimal(s, pos, end), end))
    } else {
        None
    }
}

/// Reads an unsigned decimal number that fits in 64 bits.
pub fn unsigned64(input: &[u8], pos: usize) -> (r: Option<(u64, usize)>)
    ensures
        match r {
            Some((v, end)) => spec_unsigned(input@, pos as int, u64::MAX as nat) == Some(
                (v as nat, end as int),
            ) && pos < end <= input.len(),
            None => spec_unsigned(input@, pos as int, u64::MAX as nat) is None,
        },
{
    if pos >= input.len() {
        return None;
    }
    let end = skip_while(input, pos, ByteClass::Digit);
    if end == pos {
        return None;
    }
    proof {
        lemma_run_end(input@, pos as int, ByteClass::Digit);
    }
    let mut value: u64 = 0;
    let mut i: usize = pos;
    while i < end
        invariant
            pos <= i <= end <= input.len(),
            value == decimal(input@, pos as int, i as int),
            end == run_end(input@, pos as int, ByteClass::Digit),
            forall|k: int| pos <= k < end ==> ByteClass::Digit.holds(#[trigger] input@[k]),
        decreases end - i,
    {
        let digit: u64 = (input[i] - 48) as u64;
        proof {
            lemma_decimal_monotonic(input@, pos as int, i + 1, end as int);
            assert(decimal(input@, pos as int, i + 1) == value * 10 + digit);
        }
        if value > (u64::MAX - digit) / 10 {
            assert(value * 10 + digit > u64::MAX);
            return None;
        }
        value = value * 10 + digit;
        i += 1;
    }
    Some((value, end))
}

/// Reads an unsigned decimal number that fits in 32 bits.
pub fn unsigned32(input: &[u8], pos: usize) -> (r: Option<(u32, usize)>)
    ensures
        match r {
            Some((v, end)) => spec_unsigned(input@, pos as int, u32::MAX as nat) == Some(
                (v as nat, end as int),
            ) && pos < end <= input.len(),
            None => spec_unsigned(input@, pos as int, u32::MAX as nat) is None,
        },
{
    match unsigned64(input, pos) {
        Some((v, end)) => {
            if v <= 0xffff_ffff {
                Some((v as u32, end))
            } else {
                None
            }
        },
        None => None,
    }
}

/// Reads an unsigned decimal number that fits in 8 bits.
pub fn unsigned8(input: &[u8], pos: usize) -> (r: Option<(u8, usize)>)
    ensures
        match r {
            Some((v, end)) => spec_unsigned(input@, pos as int, u8::MAX as nat) == Some(
                (v as nat, end as int),
            ) && pos < end <= input.len(),
            None => spec_unsigned(input@, pos as int, u8::MAX as nat) is None,
        },
{
    match unsigned64(input, pos) {
        Some((v, end)) => {
            if v <= 0xff {
                Some((v as u8, end))
            } else {
                None
            }
        },
        None => None,
    }
}

/// The position after an optional `+` or `-` at `pos`.
pub open spec fn after_sign(s: Seq<u8>, pos: int) -> int {
    if 0 <= pos < s.len() && (s[pos] == PLUS || s[pos] == MINUS) {
        pos + 1
    } else {
        pos
    }
}

/// A signed decimal number at `pos` that fits in 32 bits: an optional sign,
/// then digits.
pub open spec fn spec_signed32(s: Seq<u8>, pos: int) -> Option<(i32, int)> {
    let start = after_sign(s, pos);
    let end = run_end(s, start, ByteClass::Digit);
    let magnitude = decimal(s, start, end);
    if 0 <= pos && start < end {
        if start > pos && s[pos] == MINUS {
            if magnitude <= 0x8000_0000 {
                Some(((-magnitude) as i32, end))
            } else {
                None
            }
        } else if magnitude <= 0x7fff_ffff {
            Some((magnitude as i32, end))
        } else {
            None
        }
    } else {
        None
    }
}

/// Reads a signed decimal number that fits in 32 bits.
pub fn signed32(input: &[u8], pos: usize) -> (r: Option<(i32, usize)>)
    ensures
        r matches Some((v, end)) ==> spec_signed32(input@, pos as int) == Some((v, end as int))
            && pos < end <= input.len(),
        r is None ==> spec_signed32(input@, pos as int) is None,
{
    if pos >= input.len() {
        return None;
    }
    let negative = input[pos] == MINUS;
    let start: usize = if input[pos] == PLUS || input[pos] == MINUS {
        pos + 1
    } else {
        pos
    };
    match unsigned64(input, start) {
        Some((v, end)) => {
            if negative {
                if v <= 0x8000_0000 {
                    let value: i64 = -(v as i64);
                    Some((value as i32, end))
                } else {
                    None
                }
            } else if v <= 0x7fff_ffff {
                Some((v as i32, end))
            } else {
                None
            }
        },
        None => None,
    }
}

} // verus!
