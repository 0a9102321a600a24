//! Parsers: from bytes to the document model.
pub mod assemble;
pub mod error;
pub mod grammar;
pub mod object;
pub mod object_stream;
pub mod stored;
pub mod trailer;
pub mod xref;

use vstd::prelude::*;
use vstd::slice::slice_subrange;
use vstd::string::*;
use crate::lex::{
    matches_at, matches_at_no_case, run_end, skip_while, spec_unsigned, tag, tag_no_case,
    unsigned8, ByteClass, LF, PERCENT, PERIOD,
};
use crate::parse::error::{CbParseError, CbParseErrorKind, Context};
use crate::parse::grammar::{after_line_end, kw, lemma_keywords};

verus! {

/// A cursor into an input buffer: the bytes that are left to read, and where
/// they lie in the buffer.
#[derive(Clone, Copy, Debug, PartialEq, Eq)]
pub struct Span<'a> {
    buffer: &'a [u8],
    start: usize,
    end: usize,
}

impl<'a> View for Span<'a> {
    type V = Seq<u8>;

    /// The bytes that are left to read.
    closed spec fn view(&self) -> Seq<u8> {
        self.buffer@.subrange(self.start as int, self.end as int)
    }
}

impl<'a> Span<'a> {
    #[verifier::type_invariant]
    spec fn well_formed(self) -> bool {
        self.start <= self.end <= self.buffer@.len()
    }

    /// The position in the buffer of the first byte that is left.
    pub closed spec fn offset(self) -> nat {
        self.start as nat
    }

    /// A cursor at the start of `buffer`.
    pub fn new(buffer: &'a [u8]) -> (r: Self)
        ensures
            r@ == buffer@,
            r.offset() == 0,
    {
        let r = Span { buffer, start: 0, end: buffer.len() };
        assert(r@ =~= buffer@);
        r
    }

    /// The bytes that are left to read.
    pub fn fragment(&self) -> (r: &'a [u8])
        ensures
            r@ == self@,
    {
        proof {
            use_type_invariant(self);
        }
        slice_subrange(self.buffer, self.start, self.end)
    }

    /// The position in the buffer of the first byte that is left.
    pub fn location_offset(&self) -> (r: usize)
        ensures
            r == self.offset(),
            r + self@.len() <= usize::MAX,
    {
        proof {
            use_type_invariant(self);
        }
        self.start
    }

    /// The number of bytes left.
    pub fn len(&self) -> (r: usize)
        ensures
            r == self@.len(),
    {
        proof {
            use_type_invariant(self);
        }
        self.end - self.start
    }

    /// Whether no bytes are left.
    pub fn is_empty(&self) -> (r: bool)
        ensures
            r == (self@.len() == 0),
    {
        proof {
            use_type_invariant(self);
        }
        self.end == self.start
    }

    /// The cursor moved forward by `n` bytes.
    pub fn advance(&self, n: usize) -> (r: Self)
        requires
            n <= self@.len(),
        ensures
            r@ == self@.skip(n as int),
            r.offset() == self.offset() + n,
            follows(*self, r, n as int),
    {
        proof {
            use_type_invariant(self);
        }
        let r = Span { buffer: self.buffer, start: self.start + n, end: self.end };
        assert(r@ =~= self@.skip(n as int));
        r
    }

    /// The cursor cut off after `n` bytes.
    pub fn truncate(&self, n: usize) -> (r: Self)
        requires
            n <= self@.len(),
        ensures
            r@ == self@.take(n as int),
            r.offset() == self.offset(),
    {
        proof {
            use_type_invariant(self);
        }
        let r = Span { buffer: self.buffer, start: self.start, end: self.start + n };
        assert(r@ =~= self@.take(n as int));
        r
    }
}

/// `rest` is `input` after its first `n` bytes were read.
pub open spec fn follows(input: Span, rest: Span, n: int) -> bool {
    0 <= n <= input@.len() && rest@ == input@.skip(n) && rest.offset() == input.offset() + n
}

/// `e` is the error of kind `kind` at the start of `input`.
pub open spec fn fails_at(e: CbParseError, input: Span, kind: CbParseErrorKind) -> bool {
    e.position == input.offset() && e.kind == kind && e.revision is None
}

/// `pattern` stands at `pos`, in exactly its letters or, with `fold`, in
/// whatever case they are written.
pub open spec fn found_at(s: Seq<u8>, pos: int, pattern: Seq<u8>, fold: bool) -> bool {
    if fold {
        matches_at_no_case(s, pos, pattern)
    } else {
        matches_at(s, pos, pattern)
    }
}

/// The last position from `pos` down to `lowest` at which `pattern` stands.
pub open spec fn search_back(s: Seq<u8>, pattern: Seq<u8>, fold: bool, pos: int, lowest: int) -> Option<
    int,
>
    decreases pos - lowest + 1,
{
    if pos < lowest || pos < 0 {
        None
    } else if found_at(s, pos, pattern, fold) {
        Some(pos)
    } else {
        search_back(s, pattern, fold, pos - 1, lowest)
    }
}

/// The last position in `s` at which `pattern` stands, among the positions
/// of the last `limit` bytes of `s`.
pub open spec fn last_match(s: Seq<u8>, pattern: Seq<u8>, fold: bool, limit: nat) -> Option<int> {
    search_back(
        s,
        pattern,
        fold,
        s.len() - 1,
        if limit < s.len() {
            s.len() - limit
        } else {
            0
        },
    )
}

/// What `search_back` finds is a match inside the window, and the last one.
pub proof fn lemma_search_back(s: Seq<u8>, pattern: Seq<u8>, fold: bool, pos: int, lowest: int)
    requires
        0 <= lowest,
    ensures
        match search_back(s, pattern, fold, pos, lowest) {
            Some(p) => lowest <= p <= pos && found_at(s, p, pattern, fold) && forall|q: int|
                p < q <= pos ==> !found_at(s, q, pattern, fold),
            None => forall|q: int| lowest <= q <= pos ==> !found_at(s, q, pattern, fold),
        },
    decreases pos - lowest + 1,
{
    if pos >= lowest && !found_at(s, pos, pattern, fold) {
        lemma_search_back(s, pattern, fold, pos - 1, lowest);
    }
}

/// Finds the last place at which `pattern` stands among the last `limit`
/// positions of `input`.
pub fn find_last(input: &[u8], limit: usize, pattern: &[u8], fold: bool) -> (r: Option<usize>)
    ensures
        match r {
            Some(p) => last_match(input@, pattern@, fold, limit as nat) == Some(p as int) && p
                + pattern@.len() <= input.len(),
            None => last_match(input@, pattern@, fold, limit as nat) is None,
        },
{
    let lowest: usize = if limit < input.len() {
        input.len() - limit
    } else {
        0
    };
    let mut pos: usize = input.len();
    while pos > lowest
        invariant
            lowest <= pos <= input.len(),
            last_match(input@, pattern@, fold, limit as nat) == search_back(
                input@,
                pattern@,
                fold,
                pos - 1,
                lowest as int,
            ),
        decreases pos,
    {
        pos -= 1;
        let found = if fold {
            tag_no_case(input, pos, pattern)
        } else {
            crate::lex::same_at(input, pos, pattern)
        };
        if found {
            return Some(pos);
        }
    }
    None
}

/// Searches `input` from its end backward for `pattern`, over at most the
/// last `limit` positions. Gives the bytes before the match, the bytes after
/// it, and the match. With `fold` the case of ASCII letters is ignored.
pub fn backward_search<'a>(limit: usize, pattern: &[u8], fold: bool, input: Span<'a>) -> (r: Result<
    (Span<'a>, (Span<'a>, Span<'a>)),
    CbParseError,
>)
    ensures
        match r {
            Ok((before, (after, matched))) => {
                let p = last_match(input@, pattern@, fold, limit as nat);
                &&& p is Some
                &&& before@ == input@.take(p.unwrap())
                &&& before.offset() == input.offset()
                &&& matched.offset() == input.offset() + p.unwrap()
                &&& matched@ == input@.subrange(p.unwrap(), p.unwrap() + pattern@.len())
                &&& follows(input, after, p.unwrap() + pattern@.len())
            },
            Err(e) => last_match(input@, pattern@, fold, limit as nat) is None && fails_at(
                e,
                input,
                CbParseErrorKind::BackwardSearchNotFound,
            ),
        },
{
    match find_last(input.fragment(), limit, pattern, fold) {
        Some(p) => {
            let rest = input.advance(p);
            let matched = rest.truncate(pattern.len());
            assert(matched@ =~= input@.subrange(p as int, p + pattern@.len()));
            let after = rest.advance(pattern.len());
            assert(after@ =~= input@.skip(p + pattern@.len()));
            Ok((input.truncate(p), (after, matched)))
        },
        None => Err(
            CbParseError::new(input.location_offset(), CbParseErrorKind::BackwardSearchNotFound),
        ),
    }
}

/// The version line: `%PDF-`, in any case, a major and a minor version
/// number with a period between them, and optional whitespace.
pub open spec fn spec_version(s: Seq<u8>, pos: int) -> Option<((u8, u8), int)> {
    if matches_at_no_case(s, pos, kw("%PDF-")) {
        match spec_unsigned(s, pos + 5, u8::MAX as nat) {
            Some((major, at1)) => {
                if 0 <= at1 < s.len() && s[at1] == PERIOD {
                    match spec_unsigned(s, at1 + 1, u8::MAX as nat) {
                        Some((minor, at2)) => Some(
                            ((major as u8, minor as u8), run_end(s, at2, ByteClass::Space)),
                        ),
                        None => None,
                    }
                } else {
                    None
                }
            },
            None => None,
        }
    } else {
        None
    }
}

/// Reads the version line at `pos`.
pub fn parse_version(input: &[u8], pos: usize) -> (r: Option<((u8, u8), usize)>)
    requires
        pos <= input.len(),
    ensures
        match r {
            Some((v, e)) => spec_version(input@, pos as int) == Some((v, e as int)) && pos < e
                <= input.len(),
            None => spec_version(input@, pos as int) is None,
        },
{
    proof {
        lemma_keywords();
    }
    if !tag_no_case(input, pos, "%PDF-".as_bytes()) {
        return None;
    }
    let (major, at1) = match unsigned8(input, pos + 5) {
        Some(found) => found,
        None => {
            return None;
        },
    };
    if at1 >= input.len() || input[at1] != PERIOD {
        return None;
    }
    match unsigned8(input, at1 + 1) {
        Some((minor, at2)) => Some(((major, minor), skip_while(input, at2, ByteClass::Space))),
        None => None,
    }
}

/// Reads the version of the file format that the file announces.
pub fn version(input: Span) -> (r: Result<(Span, (u8, u8)), CbParseError>)
    ensures
        match r {
            Ok((rest, v)) => spec_version(input@, 0) is Some && v == spec_version(
                input@,
                0,
            ).unwrap().0 && follows(input, rest, spec_version(input@, 0).unwrap().1),
            Err(e) => spec_version(input@, 0) is None && fails_at(
                e,
                input,
                CbParseErrorKind::Generic(Context::Header),
            ),
        },
{
    match parse_version(input.fragment(), 0) {
        Some((v, e)) => Ok((input.advance(e), v)),
        None => Err(
            CbParseError::new(input.location_offset(), CbParseErrorKind::Generic(Context::Header)),
        ),
    }
}

/// A comment on a line of its own: optional whitespace, `%`, the body up to
/// the end of the line, a line end that is `\n` or `\r\n`, and optional
/// whitespace. Gives where the body starts, where it ends, and the position
/// after the comment.
pub open spec fn spec_comment(s: Seq<u8>, pos: int) -> Option<(int, int, int)> {
    let p = run_end(s, pos, ByteClass::Space);
    if 0 <= pos && p < s.len() && s[p] == PERCENT {
        let body_end = run_end(s, p + 1, ByteClass::NotLineEnd);
        let line_end = after_line_end(s, body_end);
        if line_end > body_end {
            Some((p + 1, body_end, run_end(s, line_end, ByteClass::Space)))
        } else {
            None
        }
    } else {
        None
    }
}

/// Reads a comment at `pos`.
pub fn parse_comment(input: &[u8], pos: usize) -> (r: Option<(usize, usize, usize)>)
    requires
        pos <= input.len(),
    ensures
        match r {
            Some((from, to, e)) => spec_comment(input@, pos as int) == Some(
                (from as int, to as int, e as int),
            ) && pos < from <= to < e <= input.len(),
            None => spec_comment(input@, pos as int) is None,
        },
{
    proof {
        lemma_keywords();
    }
    let p = skip_while(input, pos, ByteClass::Space);
    if p >= input.len() || input[p] != PERCENT {
        return None;
    }
    let body_end = skip_while(input, p + 1, ByteClass::NotLineEnd);
    let line_end: usize = if tag(input, body_end, "\r\n") {
        body_end + 2
    } else if body_end < input.len() && input[body_end] == LF {
        body_end + 1
    } else {
        return None;
    };
    Some((p + 1, body_end, skip_while(input, line_end, ByteClass::Space)))
}

/// Reads a comment and gives its body.
pub fn comment<'a>(input: Span<'a>) -> (r: Result<(Span<'a>, Span<'a>), CbParseError>)
    ensures
        match r {
            Ok((rest, body)) => {
                let c = spec_comment(input@, 0);
                &&& c is Some
                &&& body@ == input@.subrange(c.unwrap().0, c.unwrap().1)
                &&& body.offset() == input.offset() + c.unwrap().0
                &&& follows(input, rest, c.unwrap().2)
            },
            Err(e) => spec_comment(input@, 0) is None && fails_at(
                e,
                input,
                CbParseErrorKind::Generic(Context::Header),
            ),
        },
{
    match parse_comment(input.fragment(), 0) {
        Some((from, to, e)) => {
            let body = input.advance(from).truncate(to - from);
            assert(body@ =~= input@.subrange(from as int, to as int));
            Ok((input.advance(e), body))
        },
        None => Err(
            CbParseError::new(input.location_offset(), CbParseErrorKind::Generic(Context::Header)),
        ),
    }
}

/// Whether `body` is the body of a comment that announces binary content:
/// more than three bytes, each of them 128 or more.
pub open spec fn announces_binary(body: Seq<u8>) -> bool {
    body.len() > 3 && forall|i: int| 0 <= i < body.len() ==> #[trigger] body[i] >= 128
}

/// Whether a comment that announces binary content stands at `pos`, and the
/// position after it; `pos` itself where none stands there.
pub open spec fn spec_binary_indicator(s: Seq<u8>, pos: int) -> (bool, int) {
    match spec_comment(s, pos) {
        Some((from, to, e)) => if announces_binary(s.subrange(from, to)) {
            (true, e)
        } else {
            (false, pos)
        },
        None => (false, pos),
    }
}

/// Tests whether all of `bytes` are 128 or more, and more than three.
fn is_binary_marker(bytes: &[u8]) -> (r: bool)
    ensures
        r == announces_binary(bytes@),
{
    if bytes.len() <= 3 {
        return false;
    }
    let mut i: usize = 0;
    while i < bytes.len()
        invariant
            i <= bytes.len(),
            bytes.len() > 3,
            forall|k: int| 0 <= k < i ==> #[trigger] bytes@[k] >= 128,
        decreases bytes.len() - i,
    {
        if bytes[i] < 128 {
            return false;
        }
        i += 1;
    }
    true
}

/// Reads the comment by which a file announces binary content. Where none
/// stands at the start of `input`, nothing is consumed.
pub fn binary_indicator(input: Span) -> (r: Result<(Span, bool), CbParseError>)
    ensures
        r is Ok,
        r.unwrap().1 == spec_binary_indicator(input@, 0).0,
        follows(input, r.unwrap().0, spec_binary_indicator(input@, 0).1),
{
    let bytes = input.fragment();
    match parse_comment(bytes, 0) {
        Some((from, to, e)) => {
            if is_binary_marker(slice_subrange(bytes, from, to)) {
                Ok((input.advance(e), true))
            } else {
                Ok((input.advance(0), false))
            }
        },
        None => Ok((input.advance(0), false)),
    }
}

/// The header of a file: optional whitespace, the version line, and the
/// comment that announces binary content, where there is one. Gives the
/// version, whether binary content is announced, and the position after the
/// header.
pub open spec fn spec_header(s: Seq<u8>) -> Option<((u8, u8), bool, int)> {
    match spec_version(s, run_end(s, 0, ByteClass::Space)) {
        Some((v, p)) => Some((v, spec_binary_indicator(s, p).0, spec_binary_indicator(s, p).1)),
        None => None,
    }
}

/// Reads the version and the binary indicator comment.
pub fn header(input: Span) -> (r: Result<(Span, ((u8, u8), bool)), CbParseError>)
    ensures
        match r {
            Ok((rest, (v, binary))) => {
                let h = spec_header(input@);
                &&& h is Some
                &&& v == h.unwrap().0
                &&& binary == h.unwrap().1
                &&& follows(input, rest, h.unwrap().2)
            },
            Err(e) => spec_header(input@) is None && fails_at(
                e,
                input,
                CbParseErrorKind::Generic(Context::Header),
            ),
        },
{
    let bytes = input.fragment();
    let start = skip_while(bytes, 0, ByteClass::Space);
    match parse_version(bytes, start) {
        Some((v, p)) => {
            match parse_comment(bytes, p) {
                Some((from, to, e)) => {
                    if is_binary_marker(slice_subrange(bytes, from, to)) {
                        Ok((input.advance(e), (v, true)))
                    } else {
                        Ok((input.advance(p), (v, false)))
                    }
                },
                None => Ok((input.advance(p), (v, false))),
            }
        },
        None => Err(
            CbParseError::new(input.location_offset(), CbParseErrorKind::Generic(Context::Header)),
        ),
    }
}

} // verus!
