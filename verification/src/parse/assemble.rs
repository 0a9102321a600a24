//! Putting a document together: from the anchors at the end of the file
//! through the chain of revisions to the objects of each of them.
use fnv::FnvHashMap;
use vstd::prelude::*;
use vstd::slice::slice_subrange;
use crate::parse::error::{CbParseError, CbParseErrorKind, Context, ParseFault};
use crate::parse::grammar::spec_indirect;
use crate::parse::object::parse_indirect;
use crate::parse::object_stream::{numbered, object_stream, spec_object_stream};
use crate::parse::trailer::{spec_trailer_after, spec_trailer_tail, trailer_after, trailer_tail};
use crate::parse::xref::{
    dictionary_of, eof_marker_tail, parse_xref, spec_eof_marker, spec_startxref, spec_xref,
    startxref_tail,
};
use crate::parse::{header, spec_header, Span};
use crate::pdf::object::{lemma_model, Dictionary, IndirectObject, Object, Value};
use crate::pdf::trailer::{spec_trailer, Trailer, TrailerValue};
use crate::pdf::xref::{compressed_of, used_of, UsedCompressedObject, UsedObject};
use crate::pdf::{
    lookup, objects_insert, objects_new, sections_of, values_by_number, PdfSection, PdfValue,
    RawPdf, SectionValue,
};

verus! {

/// The objects that stand at the byte offsets of the entries `used[from..]`,
/// put into `acc` under the numbers of the entries. An offset outside the
/// input and an offset at which no indirect object stands are errors, given
/// with their position.
pub open spec fn spec_used_objects(
    s: Seq<u8>,
    used: Seq<UsedObject>,
    from: int,
    acc: Map<usize, Value>,
) -> Result<Map<usize, Value>, (int, ParseFault)>
    decreases used.len() - from,
{
    if from < 0 || from >= used.len() {
        Ok(acc)
    } else if used[from].byte_offset > s.len() {
        Err((s.len() as int, ParseFault::Generic(Context::Offset)))
    } else {
        match spec_indirect(s, used[from].byte_offset as int) {
            None => Err(
                (used[from].byte_offset as int, ParseFault::Generic(Context::IndirectObject)),
            ),
            Some((v, _)) => spec_used_objects(s, used, from + 1, acc.insert(used[from].number, v)),
        }
    }
}

/// The trailer of the revision whose cross-reference section ends at `end`.
/// Where the section is a stream, its dictionary `d` is the trailer's.
/// Where it is a table, the trailer follows it; if the keyword does not
/// stand there, it is searched for backward from `upper`, where the
/// revision ends, and a revision in which it is not found has no trailer.
pub open spec fn spec_revision_trailer(
    s: Seq<u8>,
    d: Option<Seq<(Seq<u8>, Value)>>,
    end: int,
    upper: int,
) -> Result<Option<TrailerValue>, ParseFault> {
    match d {
        Some(d) => match spec_trailer(d) {
            Ok(t) => Ok(Some(t)),
            Err(e) => Err(ParseFault::InvalidTrailer(e)),
        },
        None => match spec_trailer_after(s, end) {
            Ok(Some(t)) => Ok(Some(t)),
            Err(f) => Err(f),
            Ok(None) => if end <= upper <= s.len() {
                match spec_trailer_tail(s.subrange(end, upper)) {
                    Ok((_, t)) => Ok(Some(t)),
                    Err(ParseFault::BackwardSearchNotFound) => Ok(None),
                    Err(f) => Err(f),
                }
            } else {
                Ok(None)
            },
        },
    }
}

/// The revision whose cross-reference section stands at `offset`, with the
/// objects that its section gives byte offsets for. An error is given with
/// its position.
pub open spec fn spec_head(s: Seq<u8>, offset: usize, upper: int) -> Result<
    SectionValue,
    (int, ParseFault),
> {
    if offset > s.len() {
        Err((s.len() as int, ParseFault::Generic(Context::Offset)))
    } else {
        match spec_xref(s, offset as int) {
            Err(f) => Err((offset as int, f)),
            Ok((entries, kind, d, end)) => match spec_revision_trailer(s, d, end, upper) {
                Err(f) => Err((offset as int, f)),
                Ok(trailer) => match spec_used_objects(s, used_of(entries), 0, Map::empty()) {
                    Err(f) => Err(f),
                    Ok(objects) => Ok(
                        SectionValue { offset, objects, trailer, xref: entries, kind: Some(kind) },
                    ),
                },
            },
        }
    }
}

/// The offset of the revision before the one at `offset`: what the trailer
/// names as previous, if that lies before `offset`.
pub open spec fn next_offset(trailer: Option<TrailerValue>, offset: usize) -> Option<usize> {
    match trailer {
        Some(t) => match t.previous {
            Some(p) => if p < offset {
                Some(p)
            } else {
                None
            },
            None => None,
        },
        None => None,
    }
}

/// The revision at `offset` and those before it, the newest first. An error
/// is given with its position and the offset of the revision in which it
/// arose.
pub open spec fn spec_heads(s: Seq<u8>, offset: usize, upper: int) -> Result<
    Seq<SectionValue>,
    (int, ParseFault, usize),
>
    decreases offset,
{
    match spec_head(s, offset, upper) {
        Err((position, f)) => Err((position, f, offset)),
        Ok(head) => match next_offset(head.trailer, offset) {
            None => Ok(seq![head]),
            Some(previous) => match spec_heads(s, previous, offset as int) {
                Ok(rest) => Ok(seq![head] + rest),
                Err(f) => Err(f),
            },
        },
    }
}

/// The object `child` of an object stream as the indirect object of the
/// number `number` that it is. Its generation is zero.
pub open spec fn as_indirect(number: u32, child: Value) -> Value {
    Value::Indirect(number, 0, Box::new(child))
}

/// `objects` with the numbered objects `children[from..]` put in as
/// indirect objects, one after another.
pub open spec fn insert_all(objects: Map<usize, Value>, children: Seq<(u32, Value)>, from: int) -> Map<
    usize,
    Value,
>
    decreases children.len() - from,
{
    if from < 0 || from >= children.len() {
        objects
    } else {
        insert_all(
            objects.insert(
                children[from].0 as usize,
                as_indirect(children[from].0, children[from].1),
            ),
            children,
            from + 1,
        )
    }
}

/// The object of the number `number` that a revision with the objects `own`
/// sees: its own, else that of the newest of the revisions `older` that has
/// one.
pub open spec fn find_container(own: Map<usize, Value>, older: Seq<SectionValue>, number: usize) -> Option<
    Value,
> {
    if own.contains_key(number) {
        Some(own[number])
    } else {
        lookup(older, 0, number)
    }
}

/// The objects that `container` holds, which must be an indirect object
/// with an object stream.
pub open spec fn spec_children(container: Option<Value>) -> Result<Seq<(u32, Value)>, ParseFault> {
    match container {
        Some(Value::Indirect(_, _, inner)) => match *inner {
            Value::Stream(d, data) => match spec_object_stream(d, data) {
                Ok(children) => Ok(children),
                Err((_, f)) => Err(f),
            },
            _ => Err(ParseFault::Generic(Context::ObjectStream)),
        },
        _ => Err(ParseFault::Generic(Context::ObjectStream)),
    }
}

/// The objects `own` of a revision after the object streams that the
/// entries `compressed[from..]` name were read and what they hold was put
/// in.
pub open spec fn spec_resolve_entries(
    compressed: Seq<UsedCompressedObject>,
    from: int,
    own: Map<usize, Value>,
    older: Seq<SectionValue>,
) -> Result<Map<usize, Value>, ParseFault>
    decreases compressed.len() - from,
{
    if from < 0 || from >= compressed.len() {
        Ok(own)
    } else {
        match spec_children(find_container(own, older, compressed[from].containing_object)) {
            Err(f) => Err(f),
            Ok(children) => spec_resolve_entries(
                compressed,
                from + 1,
                insert_all(own, children, 0),
                older,
            ),
        }
    }
}

/// The revision `head` with the objects of its object streams.
pub open spec fn spec_resolve_section(head: SectionValue, older: Seq<SectionValue>) -> Result<
    SectionValue,
    ParseFault,
> {
    match spec_resolve_entries(compressed_of(head.xref), 0, head.objects, older) {
        Ok(objects) => Ok(
            SectionValue {
                offset: head.offset,
                objects,
                trailer: head.trailer,
                xref: head.xref,
                kind: head.kind,
            },
        ),
        Err(f) => Err(f),
    }
}

/// The revisions `heads`, the newest first, with the objects of their
/// object streams, followed by `older`. The oldest revision is completed
/// first, so that each revision finds the object streams of the older ones.
/// An error is given with the offset of the revision in which it arose,
/// which is also its position.
pub open spec fn spec_resolve(heads: Seq<SectionValue>, older: Seq<SectionValue>) -> Result<
    Seq<SectionValue>,
    (int, ParseFault, usize),
>
    decreases heads.len(),
{
    if heads.len() == 0 {
        Ok(older)
    } else {
        match spec_resolve_section(heads.last(), older) {
            Err(f) => Err((heads.last().offset as int, f, heads.last().offset)),
            Ok(section) => spec_resolve(heads.drop_last(), seq![section] + older),
        }
    }
}

/// The end of the file `s`: `%%EOF` and, before it, `startxref` with the
/// offset of the newest revision. Gives the position of the keyword
/// `startxref` and the offset.
pub open spec fn spec_start(s: Seq<u8>) -> Result<(int, usize), ParseFault> {
    match spec_eof_marker(s) {
        None => Err(ParseFault::BackwardSearchNotFound),
        Some(eof) => spec_startxref(s.take(eof)),
    }
}

/// The revisions of the file `s` whose newest revision stands at `offset`
/// and ends at `keyword`, the newest first.
pub open spec fn spec_revisions(s: Seq<u8>, offset: usize, keyword: int) -> Result<
    Seq<SectionValue>,
    (int, ParseFault, usize),
> {
    match spec_heads(s, offset, keyword) {
        Err(f) => Err(f),
        Ok(heads) => spec_resolve(heads, Seq::empty()),
    }
}

/// The revisions of the file `s`, the newest first, and the position of the
/// keyword `startxref`.
pub open spec fn spec_pdf_sections(s: Seq<u8>) -> Result<
    (Seq<SectionValue>, int),
    (int, ParseFault, Option<usize>),
> {
    match spec_start(s) {
        Err(f) => Err((0, f, None)),
        Ok((keyword, offset)) => match spec_revisions(s, offset, keyword) {
            Err((position, f, revision)) => Err((position, f, Some(revision))),
            Ok(sections) => Ok((sections, keyword)),
        },
    }
}

/// The document that the file `s` holds.
pub open spec fn spec_parse(s: Seq<u8>) -> Result<PdfValue, (int, ParseFault, Option<usize>)> {
    match spec_header(s) {
        None => Err((0, ParseFault::Generic(Context::Header), None)),
        Some((version, announced_binary, _)) => match spec_pdf_sections(s) {
            Err(f) => Err(f),
            Ok((sections, _)) => Ok(PdfValue { version, announced_binary, sections }),
        },
    }
}

/// Reads the objects at the byte offsets of the entries `used`.
pub fn used_objects(input: &[u8], used: &Vec<UsedObject>) -> (r: Result<
    FnvHashMap<usize, Object>,
    (usize, CbParseErrorKind),
>)
    ensures
        match r {
            Ok(objects) => spec_used_objects(input@, used@, 0, Map::empty()) == Ok::<
                Map<usize, Value>,
                (int, ParseFault),
            >(values_by_number(objects@)),
            Err((position, kind)) => spec_used_objects(input@, used@, 0, Map::empty()) == Err::<
                Map<usize, Value>,
                (int, ParseFault),
            >((position as int, kind@)) && position <= input.len(),
        },
{
    let mut objects = objects_new();
    let mut i: usize = 0;
    assert(values_by_number(objects@) =~= Map::<usize, Value>::empty());
    while i < used.len()
        invariant
            i <= used@.len(),
            spec_used_objects(input@, used@, 0, Map::empty()) == spec_used_objects(
                input@,
                used@,
                i as int,
                values_by_number(objects@),
            ),
        decreases used@.len() - i,
    {
        let entry = used[i];
        if entry.byte_offset > input.len() {
            return Err((input.len(), CbParseErrorKind::Generic(Context::Offset)));
        }
        match parse_indirect(input, entry.byte_offset) {
            None => {
                return Err(
                    (entry.byte_offset, CbParseErrorKind::Generic(Context::IndirectObject)),
                );
            },
            Some((o, _)) => {
                assert(values_by_number(objects@.insert(entry.number, o)) =~= values_by_number(
                    objects@,
                ).insert(entry.number, o@));
                objects_insert(&mut objects, entry.number, o);
            },
        }
        i += 1;
    }
    Ok(objects)
}

/// The trailer of an optional trailer, as a value.
pub open spec fn trailer_of(t: Option<Trailer>) -> Option<TrailerValue> {
    match t {
        Some(t) => Some(t@),
        None => None,
    }
}

/// Reads the trailer of the revision whose cross-reference section ends at
/// `end`.
pub fn revision_trailer(input: &[u8], d: &Option<Dictionary>, end: usize, upper: usize) -> (r:
    Result<Option<Trailer>, CbParseErrorKind>)
    requires
        end <= input.len(),
    ensures
        match r {
            Ok(t) => spec_revision_trailer(
                input@,
                dictionary_of(*d),
                end as int,
                upper as int,
            ) == Ok::<Option<TrailerValue>, ParseFault>(trailer_of(t)),
            Err(kind) => spec_revision_trailer(
                input@,
                dictionary_of(*d),
                end as int,
                upper as int,
            ) == Err::<Option<TrailerValue>, ParseFault>(kind@),
        },
{
    match d {
        Some(dictionary) => match Trailer::try_from(dictionary) {
            Ok(t) => Ok(Some(t)),
            Err(e) => Err(CbParseErrorKind::InvalidTrailer(e)),
        },
        None => match trailer_after(input, end) {
            Ok(Some(t)) => Ok(Some(t)),
            Err(kind) => Err(kind),
            Ok(None) => {
                if end <= upper && upper <= input.len() {
                    match trailer_tail(Span::new(slice_subrange(input, end, upper))) {
                        Ok((_, t)) => Ok(Some(t)),
                        Err(e) => match e.kind {
                            CbParseErrorKind::BackwardSearchNotFound => Ok(None),
                            kind => Err(kind),
                        },
                    }
                } else {
                    Ok(None)
                }
            },
        },
    }
}

/// Reads the revision whose cross-reference section stands at `offset`:
/// the section, the trailer, and the objects at byte offsets.
pub fn read_head(input: &[u8], offset: usize, upper: usize) -> (r: Result<
    PdfSection,
    (usize, CbParseErrorKind),
>)
    ensures
        match r {
            Ok(section) => spec_head(input@, offset, upper as int) == Ok::<
                SectionValue,
                (int, ParseFault),
            >(section@) && offset <= input.len(),
            Err((position, kind)) => spec_head(input@, offset, upper as int) == Err::<
                SectionValue,
                (int, ParseFault),
            >((position as int, kind@)) && position <= input.len(),
        },
{
    if offset > input.len() {
        return Err((input.len(), CbParseErrorKind::Generic(Context::Offset)));
    }
    let (xref, d, end) = match parse_xref(input, offset) {
        Ok(found) => found,
        Err(kind) => {
            return Err((offset, kind));
        },
    };
    let trailer = match revision_trailer(input, &d, end, upper) {
        Ok(t) => t,
        Err(kind) => {
            return Err((offset, kind));
        },
    };
    let used = xref.used_objects();
    match used_objects(input, &used) {
        Ok(objects) => Ok(PdfSection { offset, objects, trailer, xref }),
        Err(e) => Err(e),
    }
}

/// `rest` with `done` before it.
pub open spec fn after_done(
    done: Seq<SectionValue>,
    rest: Result<Seq<SectionValue>, (int, ParseFault, usize)>,
) -> Result<Seq<SectionValue>, (int, ParseFault, usize)> {
    match rest {
        Ok(rest) => Ok(done + rest),
        Err(f) => Err(f),
    }
}

/// The cross-reference sections of all of `sections` stand at offsets up to
/// `limit`.
pub open spec fn within(sections: Seq<PdfSection>, limit: usize) -> bool {
    forall|i: int| 0 <= i < sections.len() ==> (#[trigger] sections[i])@.offset <= limit
}

/// Reads the revision at `offset` and, following the trailers, those before
/// it.
pub fn read_heads(input: &[u8], offset: usize, upper: usize) -> (r: Result<
    Vec<PdfSection>,
    (usize, CbParseErrorKind, usize),
>)
    ensures
        match r {
            Ok(sections) => spec_heads(input@, offset, upper as int) == Ok::<
                Seq<SectionValue>,
                (int, ParseFault, usize),
            >(sections_of(sections@)) && within(sections@, input.len()),
            Err((position, kind, revision)) => spec_heads(input@, offset, upper as int) == Err::<
                Seq<SectionValue>,
                (int, ParseFault, usize),
            >((position as int, kind@, revision)) && position <= input.len(),
        },
{
    let mut sections: Vec<PdfSection> = Vec::new();
    let mut current: usize = offset;
    let mut limit: usize = upper;
    assert(sections_of(sections@) =~= Seq::<SectionValue>::empty());
    loop
        invariant
            within(sections@, input.len()),
            spec_heads(input@, offset, upper as int) == after_done(
                sections_of(sections@),
                spec_heads(input@, current, limit as int),
            ),
        decreases current,
    {
        let head = match read_head(input, current, limit) {
            Ok(head) => head,
            Err((position, kind)) => {
                return Err((position, kind, current));
            },
        };
        let next: Option<usize> = match &head.trailer {
            Some(t) => match t.previous {
                Some(p) => if p < current {
                    Some(p)
                } else {
                    None
                },
                None => None,
            },
            None => None,
        };
        proof {
            assert(sections_of(sections@.push(head)) =~= sections_of(sections@) + seq![head@]);
            let rest = spec_heads(input@, next.unwrap_or(0), current as int);
            if next is Some && rest is Ok {
                assert(sections_of(sections@) + (seq![head@] + rest->Ok_0) =~= sections_of(
                    sections@.push(head),
                ) + rest->Ok_0);
            }
        }
        sections.push(head);
        match next {
            Some(p) => {
                limit = current;
                current = p;
            },
            None => {
                return Ok(sections);
            },
        }
    }
}

/// Finds the object that a revision sees under `number`.
pub fn container<'a>(own: &'a PdfSection, older: &'a Vec<PdfSection>, number: usize) -> (r: Option<
    &'a Object,
>)
    ensures
        match r {
            Some(o) => find_container(own@.objects, sections_of(older@), number) == Some(o@),
            None => find_container(own@.objects, sections_of(older@), number) is None,
        },
{
    if let Some(o) = own.object(number) {
        return Some(o);
    }
    let mut i: usize = 0;
    while i < older.len()
        invariant
            i <= older@.len(),
            !own@.objects.contains_key(number),
            lookup(sections_of(older@), 0, number) == lookup(sections_of(older@), i as int, number),
        decreases older@.len() - i,
    {
        if let Some(o) = older[i].object(number) {
            return Some(o);
        }
        i += 1;
    }
    None
}

/// Reads the objects that `container` holds.
pub fn children_of(container: Option<&Object>) -> (r: Result<
    Vec<(u32, Object)>,
    CbParseErrorKind,
>)
    ensures
        match r {
            Ok(children) => spec_children(
                match container {
                    Some(o) => Some(o@),
                    None => None,
                },
            ) == Ok::<Seq<(u32, Value)>, ParseFault>(numbered(children@)),
            Err(kind) => spec_children(
                match container {
                    Some(o) => Some(o@),
                    None => None,
                },
            ) == Err::<Seq<(u32, Value)>, ParseFault>(kind@),
        },
{
    match container {
        Some(o) => {
            proof {
                lemma_model(*o);
            }
            match o {
                Object::Indirect(indirect) => {
                    proof {
                        lemma_model(*indirect.object);
                    }
                    match &*indirect.object {
                        Object::Stream(stream) => match object_stream(stream) {
                            Ok(children) => Ok(children),
                            Err(e) => Err(e.kind),
                        },
                        _ => Err(CbParseErrorKind::Generic(Context::ObjectStream)),
                    }
                },
                _ => Err(CbParseErrorKind::Generic(Context::ObjectStream)),
            }
        },
        None => Err(CbParseErrorKind::Generic(Context::ObjectStream)),
    }
}

/// Puts the numbered objects `children` into `objects` as indirect objects,
/// in their order.
pub fn insert_children(objects: &mut FnvHashMap<usize, Object>, children: Vec<(u32, Object)>)
    ensures
        values_by_number(final(objects)@) == insert_all(
            values_by_number(old(objects)@),
            numbered(children@),
            0,
        ),
{
    let mut children = children;
    let ghost all = children@;
    let mut reversed: Vec<(u32, Object)> = Vec::new();
    while children.len() > 0
        invariant
            children@.len() + reversed@.len() == all.len(),
            forall|k: int| 0 <= k < children@.len() ==> children@[k] == all[k],
            forall|k: int|
                0 <= k < reversed@.len() ==> reversed@[k] == all[all.len() - 1 - k],
        decreases children@.len(),
    {
        match children.pop() {
            Some(child) => {
                reversed.push(child);
            },
            None => {},
        }
    }
    let ghost start = values_by_number(objects@);
    while reversed.len() > 0
        invariant
            reversed@.len() <= all.len(),
            forall|k: int|
                0 <= k < reversed@.len() ==> reversed@[k] == all[all.len() - 1 - k],
            insert_all(start, numbered(all), 0) == insert_all(
                values_by_number(objects@),
                numbered(all),
                all.len() - reversed@.len(),
            ),
        decreases reversed@.len(),
    {
        match reversed.pop() {
            Some((number, o)) => {
                let indirect = Object::Indirect(
                    IndirectObject { index: number, generation: 0, object: Box::new(o) },
                );
                proof {
                    lemma_model(indirect);
                }
                assert(values_by_number(objects@.insert(number as usize, indirect))
                    =~= values_by_number(objects@).insert(number as usize, indirect@));
                objects_insert(objects, number as usize, indirect);
            },
            None => {},
        }
    }
}

/// Completes a revision with the objects of its object streams.
pub fn resolve_section(section: PdfSection, older: &Vec<PdfSection>) -> (r: Result<
    PdfSection,
    CbParseErrorKind,
>)
    ensures
        match r {
            Ok(resolved) => spec_resolve_section(section@, sections_of(older@)) == Ok::<
                SectionValue,
                ParseFault,
            >(resolved@),
            Err(kind) => spec_resolve_section(section@, sections_of(older@)) == Err::<
                SectionValue,
                ParseFault,
            >(kind@),
        },
{
    let compressed = section.xref.compressed_objects();
    let ghost start = section@;
    let mut current = section;
    let mut i: usize = 0;
    while i < compressed.len()
        invariant
            i <= compressed@.len(),
            start == section@,
            compressed@ == compressed_of(start.xref),
            current@.offset == start.offset,
            current@.trailer == start.trailer,
            current@.xref == start.xref,
            current@.kind == start.kind,
            spec_resolve_entries(compressed@, 0, start.objects, sections_of(older@))
                == spec_resolve_entries(
                compressed@,
                i as int,
                current@.objects,
                sections_of(older@),
            ),
        decreases compressed@.len() - i,
    {
        let children = match children_of(
            container(&current, older, compressed[i].containing_object),
        ) {
            Ok(children) => children,
            Err(kind) => {
                return Err(kind);
            },
        };
        insert_children(&mut current.objects, children);
        i += 1;
    }
    Ok(current)
}

/// Completes the revisions `heads`, the oldest first.
pub fn resolve_sections(heads: Vec<PdfSection>) -> (r: Result<
    Vec<PdfSection>,
    (usize, CbParseErrorKind, usize),
>)
    ensures
        match r {
            Ok(sections) => spec_resolve(sections_of(heads@), Seq::empty()) == Ok::<
                Seq<SectionValue>,
                (int, ParseFault, usize),
            >(sections_of(sections@)),
            Err((position, kind, revision)) => spec_resolve(sections_of(heads@), Seq::empty())
                == Err::<Seq<SectionValue>, (int, ParseFault, usize)>(
                (position as int, kind@, revision),
            ) && position == revision && exists|i: int|
                0 <= i < heads@.len() && (#[trigger] heads@[i])@.offset == revision,
        },
{
    let ghost all = sections_of(heads@);
    let mut pending = heads;
    let mut done: Vec<PdfSection> = Vec::new();
    assert(sections_of(done@) =~= Seq::<SectionValue>::empty());
    while pending.len() > 0
        invariant
            all == sections_of(heads@),
            pending@.len() <= heads@.len(),
            forall|k: int|
                0 <= k < pending@.len() ==> (#[trigger] pending@[k])@.offset
                    == heads@[k]@.offset,
            spec_resolve(all, Seq::empty()) == spec_resolve(
                sections_of(pending@),
                sections_of(done@),
            ),
        decreases pending@.len(),
    {
        let ghost before = pending@;
        match pending.pop() {
            Some(head) => {
                assert(sections_of(pending@) =~= sections_of(before).drop_last());
                assert(before[pending@.len() as int]@.offset == head@.offset);
                assert(sections_of(before).last() == head@);
                let offset = head.offset;
                match resolve_section(head, &done) {
                    Ok(resolved) => {
                        assert(sections_of(done@.insert(0, resolved)) =~= seq![resolved@]
                            + sections_of(done@));
                        done.insert(0, resolved);
                    },
                    Err(kind) => {
                        assert(heads@[pending@.len() as int]@.offset == offset);
                        return Err((offset, kind, offset));
                    },
                }
            },
            None => {},
        }
    }
    Ok(done)
}

/// The offsets of the revisions fall strictly from each to the next.
pub open spec fn offsets_fall(sections: Seq<SectionValue>) -> bool {
    forall|i: int, j: int|
        0 <= i < j < sections.len() ==> (#[trigger] sections[i]).offset > (
        #[trigger] sections[j]).offset
}

/// The chain of revisions that starts at `offset` starts with the revision
/// at `offset`, and the offsets of its revisions fall strictly.
pub proof fn lemma_heads_offsets(s: Seq<u8>, offset: usize, upper: int)
    ensures
        spec_heads(s, offset, upper) matches Ok(heads) ==> heads.len() >= 1 && heads[0].offset
            == offset && offsets_fall(heads),
    decreases offset,
{
    if let Ok(head) = spec_head(s, offset, upper) {
        if let Some(previous) = next_offset(head.trailer, offset) {
            lemma_heads_offsets(s, previous, offset as int);
            if let Ok(rest) = spec_heads(s, previous, offset as int) {
                let heads = seq![head] + rest;
                assert forall|i: int, j: int| 0 <= i < j < heads.len() implies (
                #[trigger] heads[i]).offset > (#[trigger] heads[j]).offset by {
                    assert(heads[j] == rest[j - 1]);
                    if i > 0 {
                        assert(heads[i] == rest[i - 1]);
                    } else {
                        if j > 1 {
                            assert(rest[0].offset > rest[j - 1].offset);
                        }
                    }
                }
            }
        }
    }
}

/// Completing revisions keeps their count, their order and their offsets.
pub proof fn lemma_resolve_offsets(heads: Seq<SectionValue>, older: Seq<SectionValue>)
    ensures
        spec_resolve(heads, older) matches Ok(sections) ==> sections.len() == heads.len()
            + older.len() && (forall|i: int|
            0 <= i < heads.len() ==> (#[trigger] sections[i]).offset == heads[i].offset)
            && forall|i: int| 0 <= i < older.len() ==> sections[heads.len() + i] == older[i],
    decreases heads.len(),
{
    if heads.len() > 0 {
        if let Ok(section) = spec_resolve_section(heads.last(), older) {
            let next = seq![section] + older;
            lemma_resolve_offsets(heads.drop_last(), next);
            if let Ok(sections) = spec_resolve(heads.drop_last(), next) {
                assert(sections[heads.len() - 1] == next[0]);
                assert forall|i: int| 0 <= i < older.len() implies sections[heads.len() + i]
                    == older[i] by {
                    assert(sections[(heads.len() - 1) + (i + 1)] == next[i + 1]);
                }
            }
        }
    }
}

/// In every chain of revisions that is read, the offsets of the revisions
/// fall strictly from the newest to the oldest.
pub proof fn lemma_revisions_offsets(s: Seq<u8>, offset: usize, keyword: int)
    ensures
        spec_revisions(s, offset, keyword) matches Ok(sections) ==> offsets_fall(sections),
{
    lemma_heads_offsets(s, offset, keyword);
    if let Ok(heads) = spec_heads(s, offset, keyword) {
        lemma_resolve_offsets(heads, Seq::empty());
    }
}

/// `e` is the executable form of the error `expected` of reading from the
/// cursor `input`, with positions counted in the buffer of `input`.
pub open spec fn failure(
    e: CbParseError,
    input: Span,
    expected: (int, ParseFault, Option<usize>),
) -> bool {
    e.position == input.offset() + expected.0 && e.kind@ == expected.1 && e.revision == expected.2
}

/// Finds the end-of-file marker and, before it, `startxref` with the offset
/// of the newest revision. Gives what stands before `startxref`, and the
/// offset.
pub fn find_start(input: Span) -> (r: Result<(Span, usize), CbParseError>)
    ensures
        match r {
            Ok((rest, offset)) => {
                let expected = spec_start(input@);
                &&& expected is Ok
                &&& offset == (expected->Ok_0).1
                &&& 0 <= (expected->Ok_0).0 <= input@.len()
                &&& rest@ == input@.take((expected->Ok_0).0)
                &&& rest@.len() == (expected->Ok_0).0
                &&& rest.offset() == input.offset()
            },
            Err(e) => spec_start(input@) is Err && e.kind@ == spec_start(input@)->Err_0
                && e.position == input.offset() && e.revision is None,
        },
{
    let (before_marker, _) = match eof_marker_tail(input) {
        Ok(found) => found,
        Err(e) => {
            return Err(e);
        },
    };
    match startxref_tail(before_marker) {
        Ok((before_keyword, offset)) => {
            proof {
                let eof = spec_eof_marker(input@).unwrap();
                crate::parse::lemma_search_back(
                    input@,
                    crate::parse::grammar::kw("%%EOF"),
                    true,
                    input@.len() - 1,
                    if 9 < input@.len() {
                        input@.len() - 9
                    } else {
                        0
                    },
                );
                let keyword = (spec_startxref(input@.take(eof))->Ok_0).0;
                crate::parse::lemma_search_back(
                    input@.take(eof),
                    crate::parse::grammar::kw("startxref"),
                    true,
                    input@.take(eof).len() - 1,
                    if 2057 < input@.take(eof).len() {
                        input@.take(eof).len() - 2057
                    } else {
                        0
                    },
                );
                assert(input@.take(eof).take(keyword) =~= input@.take(keyword));
            }
            Ok((before_keyword, offset))
        },
        Err(e) => Err(e),
    }
}

/// Reads the chain of revisions whose newest stands at `offset` and ends at
/// `keyword`.
pub fn read_revisions(input: &[u8], offset: usize, keyword: usize) -> (r: Result<
    Vec<PdfSection>,
    (usize, CbParseErrorKind, usize),
>)
    ensures
        match r {
            Ok(sections) => spec_revisions(input@, offset, keyword as int) == Ok::<
                Seq<SectionValue>,
                (int, ParseFault, usize),
            >(sections_of(sections@)) && offsets_fall(sections_of(sections@)),
            Err((position, kind, revision)) => spec_revisions(input@, offset, keyword as int)
                == Err::<Seq<SectionValue>, (int, ParseFault, usize)>(
                (position as int, kind@, revision),
            ) && position <= input.len(),
        },
{
    proof {
        lemma_revisions_offsets(input@, offset, keyword as int);
    }
    match read_heads(input, offset, keyword) {
        Ok(heads) => {
            resolve_sections(heads)
        },
        Err(e) => Err(e),
    }
}

/// Reads the revisions of a file: finds the end-of-file marker and the
/// offset after `startxref`, then reads the revision at that offset and,
/// following the trailers, the revisions before it. Gives the revisions,
/// the newest first, and what stands before `startxref`.
///
/// Byte offsets are counted from the start of `input`. The position of an
/// error is the place in the input at which reading failed: the end of the
/// input for an offset beyond it, and the offset of the revision for what
/// fails in an object stream.
pub fn pdf_section(input: Span) -> (r: Result<(Span, Vec<PdfSection>), CbParseError>)
    ensures
        match r {
            Ok((rest, sections)) => {
                let expected = spec_pdf_sections(input@);
                &&& expected is Ok
                &&& sections_of(sections@) == (expected->Ok_0).0
                &&& rest@ == input@.take((expected->Ok_0).1)
                &&& rest.offset() == input.offset()
                &&& offsets_fall(sections_of(sections@))
            },
            Err(e) => spec_pdf_sections(input@) is Err && failure(
                e,
                input,
                spec_pdf_sections(input@)->Err_0,
            ),
        },
{
    let (before_keyword, offset) = match find_start(input) {
        Ok(found) => found,
        Err(e) => {
            return Err(e);
        },
    };
    let start = input.location_offset();
    match read_revisions(input.fragment(), offset, before_keyword.len()) {
        Ok(sections) => Ok((before_keyword, sections)),
        Err((position, kind, revision)) => Err(
            CbParseError::new(start + position, kind).in_revision(revision),
        ),
    }
}

/// Reads a complete file: the header and all revisions.
pub fn parse_complete(input: Span) -> (r: Result<(Span, RawPdf), CbParseError>)
    ensures
        match r {
            Ok((rest, pdf)) => spec_parse(input@) == Ok::<
                PdfValue,
                (int, ParseFault, Option<usize>),
            >(pdf@) && rest == input && offsets_fall(pdf@.sections),
            Err(e) => spec_parse(input@) is Err && failure(e, input, spec_parse(input@)->Err_0),
        },
{
    let (version, announced_binary) = match header(input) {
        Ok((_, found)) => found,
        Err(e) => {
            return Err(e);
        },
    };
    match pdf_section(input) {
        Ok((_, sections)) => Ok((input, RawPdf { version, announced_binary, sections })),
        Err(e) => Err(e),
    }
}

} // verus!
