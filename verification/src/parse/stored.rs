//! What a document that was read holds for the entries of its
//! cross-reference sections.
use vstd::prelude::*;
use crate::parse::assemble::{
    as_indirect, find_container, insert_all, next_offset, spec_children, spec_head, spec_heads,
    spec_parse, spec_resolve, spec_resolve_entries, spec_resolve_section, spec_start,
    spec_used_objects,
};
use crate::parse::error::ParseFault;
use crate::parse::grammar::spec_indirect;
use crate::parse::xref::spec_xref;
use crate::pdf::object::Value;
use crate::pdf::xref::{compressed_of, used_of, UsedCompressedObject, UsedObject, XrefEntry};
use crate::pdf::{lookup, SectionValue};

verus! {

/// Completing revisions gives as many revisions as there were, before
/// those that were complete.
pub proof fn lemma_resolve_count(heads: Seq<SectionValue>, older: Seq<SectionValue>)
    ensures
        spec_resolve(heads, older) matches Ok(sections) ==> sections.len() == heads.len()
            + older.len(),
    decreases heads.len(),
{
    if heads.len() > 0 {
        if let Ok(section) = spec_resolve_section(heads.last(), older) {
            lemma_resolve_count(heads.drop_last(), seq![section] + older);
        }
    }
}

/// A document that is read has a revision.
pub proof fn lemma_revision_exists(s: Seq<u8>)
    ensures
        spec_parse(s) matches Ok(pdf) ==> pdf.sections.len() >= 1,
{
    if let Ok((keyword, offset)) = spec_start(s) {
        if let Ok(heads) = spec_heads(s, offset, keyword) {
            lemma_resolve_count(heads, Seq::empty());
        }
    }
}

/// The revision holds an object under the number of every entry of its
/// cross-reference section that gives a byte offset.
pub open spec fn holds_used(section: SectionValue) -> bool {
    forall|k: int|
        0 <= k < section.xref.len() && (#[trigger] section.xref[k]) is Used
            ==> section.objects.contains_key(section.xref[k].number())
}

/// Every revision of `sections` holds the objects that its cross-reference
/// section gives byte offsets for.
pub open spec fn all_hold_used(sections: Seq<SectionValue>) -> bool {
    forall|i: int| 0 <= i < sections.len() ==> holds_used(#[trigger] sections[i])
}

/// Every key of `objects` is a key of `more`.
pub open spec fn keeps_keys(objects: Map<usize, Value>, more: Map<usize, Value>) -> bool {
    forall|number: usize| objects.contains_key(number) ==> more.contains_key(number)
}

/// An entry of a section that gives a byte offset is among the entries of
/// that form: gives a place at which an entry of its number stands there.
pub proof fn lemma_used_listed(xref: Seq<XrefEntry>, k: int) -> (j: int)
    requires
        0 <= k < xref.len(),
        xref[k] is Used,
    ensures
        0 <= j < used_of(xref).len(),
        used_of(xref)[j].number == xref[k].number(),
    decreases xref.len(),
{
    let front = xref.drop_last();
    if k == xref.len() - 1 {
        assert(xref.last() == xref[k]);
        used_of(front).len() as int
    } else {
        assert(front[k] == xref[k]);
        lemma_used_listed(front, k)
    }
}

/// Reading the objects at their byte offsets keeps what was held and adds
/// an object under the number of each entry.
pub proof fn lemma_used_objects_hold(
    s: Seq<u8>,
    used: Seq<UsedObject>,
    from: int,
    acc: Map<usize, Value>,
)
    requires
        0 <= from,
    ensures
        spec_used_objects(s, used, from, acc) matches Ok(objects) ==> keeps_keys(acc, objects)
            && forall|j: int|
            from <= j < used.len() ==> objects.contains_key((#[trigger] used[j]).number),
    decreases used.len() - from,
{
    if from < used.len() && used[from].byte_offset <= s.len() {
        if let Some((v, _)) = spec_indirect(s, used[from].byte_offset as int) {
            lemma_used_objects_hold(s, used, from + 1, acc.insert(used[from].number, v));
        }
    }
}

/// Putting in the objects of an object stream keeps what was held.
pub proof fn lemma_insert_all_holds(
    objects: Map<usize, Value>,
    children: Seq<(u32, Value)>,
    from: int,
)
    requires
        0 <= from,
    ensures
        keeps_keys(objects, insert_all(objects, children, from)),
    decreases children.len() - from,
{
    if from < children.len() {
        lemma_insert_all_holds(
            objects.insert(
                children[from].0 as usize,
                as_indirect(children[from].0, children[from].1),
            ),
            children,
            from + 1,
        );
    }
}

/// Reading the object streams of a revision keeps what was held.
pub proof fn lemma_resolve_entries_hold(
    compressed: Seq<UsedCompressedObject>,
    from: int,
    own: Map<usize, Value>,
    older: Seq<SectionValue>,
)
    requires
        0 <= from,
    ensures
        spec_resolve_entries(compressed, from, own, older) matches Ok(objects) ==> keeps_keys(
            own,
            objects,
        ),
    decreases compressed.len() - from,
{
    if from < compressed.len() {
        if let Ok(children) = spec_children(
            find_container(own, older, compressed[from].containing_object),
        ) {
            lemma_insert_all_holds(own, children, 0);
            lemma_resolve_entries_hold(compressed, from + 1, insert_all(own, children, 0), older);
        }
    }
}

/// A revision that is read at its offset holds the objects that its
/// cross-reference section gives byte offsets for.
pub proof fn lemma_head_holds(s: Seq<u8>, offset: usize, upper: int)
    ensures
        spec_head(s, offset, upper) matches Ok(head) ==> holds_used(head),
{
    if offset <= s.len() {
        if let Ok((entries, _, _, _)) = spec_xref(s, offset as int) {
            lemma_used_objects_hold(s, used_of(entries), 0, Map::empty());
            if let Ok(head) = spec_head(s, offset, upper) {
                assert forall|k: int|
                    0 <= k < head.xref.len() && (#[trigger] head.xref[k]) is Used implies head.objects.contains_key(
                    head.xref[k].number(),
                ) by {
                    lemma_used_listed(entries, k);
                }
            }
        }
    }
}

/// The revisions that are read along the chain hold the objects that their
/// cross-reference sections give byte offsets for.
pub proof fn lemma_heads_hold(s: Seq<u8>, offset: usize, upper: int)
    ensures
        spec_heads(s, offset, upper) matches Ok(heads) ==> all_hold_used(heads),
    decreases offset,
{
    lemma_head_holds(s, offset, upper);
    if let Ok(head) = spec_head(s, offset, upper) {
        if let Some(previous) = next_offset(head.trailer, offset) {
            lemma_heads_hold(s, previous, offset as int);
            if let Ok(rest) = spec_heads(s, previous, offset as int) {
                let heads = seq![head] + rest;
                assert forall|i: int| 0 <= i < heads.len() implies holds_used(
                    #[trigger] heads[i],
                ) by {
                    if i > 0 {
                        assert(heads[i] == rest[i - 1]);
                    }
                }
            }
        }
    }
}

/// Completing revisions with the objects of their object streams keeps the
/// objects that their cross-reference sections give byte offsets for.
pub proof fn lemma_resolve_holds(heads: Seq<SectionValue>, older: Seq<SectionValue>)
    requires
        all_hold_used(heads),
        all_hold_used(older),
    ensures
        spec_resolve(heads, older) matches Ok(sections) ==> all_hold_used(sections),
    decreases heads.len(),
{
    if heads.len() > 0 {
        let head = heads.last();
        assert(holds_used(head));
        lemma_resolve_entries_hold(compressed_of(head.xref), 0, head.objects, older);
        if let Ok(section) = spec_resolve_section(head, older) {
            assert(holds_used(section));
            let next = seq![section] + older;
            assert forall|i: int| 0 <= i < next.len() implies holds_used(#[trigger] next[i]) by {
                if i > 0 {
                    assert(next[i] == older[i - 1]);
                }
            }
            let front = heads.drop_last();
            assert forall|i: int| 0 <= i < front.len() implies holds_used(#[trigger] front[i]) by {
                assert(front[i] == heads[i]);
            }
            lemma_resolve_holds(front, next);
        }
    }
}

/// An object that a revision holds is found by its number.
pub proof fn lemma_lookup_finds(sections: Seq<SectionValue>, from: int, i: int, number: usize)
    requires
        0 <= from <= i < sections.len(),
        sections[i].objects.contains_key(number),
    ensures
        lookup(sections, from, number) is Some,
    decreases i - from,
{
    if from < i && !sections[from].objects.contains_key(number) {
        lemma_lookup_finds(sections, from + 1, i, number);
    }
}

/// In every document that is read, each revision holds an object under the
/// number of every entry of its cross-reference section that gives a byte
/// offset, and the document finds an object under that number.
pub proof fn lemma_used_are_held(s: Seq<u8>, i: int, k: int)
    requires
        spec_parse(s) is Ok,
        0 <= i < spec_parse(s)->Ok_0.sections.len(),
        0 <= k < spec_parse(s)->Ok_0.sections[i].xref.len(),
        spec_parse(s)->Ok_0.sections[i].xref[k] is Used,
    ensures
        spec_parse(s)->Ok_0.sections[i].objects.contains_key(
            spec_parse(s)->Ok_0.sections[i].xref[k].number(),
        ),
        lookup(spec_parse(s)->Ok_0.sections, 0, spec_parse(s)->Ok_0.sections[i].xref[k].number())
            is Some,
{
    if let Ok((keyword, offset)) = spec_start(s) {
        lemma_heads_hold(s, offset, keyword);
        if let Ok(heads) = spec_heads(s, offset, keyword) {
            lemma_resolve_holds(heads, Seq::empty());
        }
    }
    let sections = spec_parse(s)->Ok_0.sections;
    assert(holds_used(sections[i]));
    lemma_lookup_finds(sections, 0, i, sections[i].xref[k].number());
}

/// The cross-reference entries `xref` mark the object `number` as in use,
/// on its own or in an object stream.
pub open spec fn in_use(xref: Seq<XrefEntry>, number: usize) -> bool {
    exists|i: int|
        0 <= i < xref.len() && (#[trigger] xref[i]).number() == number && (xref[i] is Used
            || xref[i] is UsedCompressed)
}

/// Every object of `objects` has a number that `xref` marks as in use.
pub open spec fn keys_in_xref(objects: Map<usize, Value>, xref: Seq<XrefEntry>) -> bool {
    forall|number: usize| objects.contains_key(number) ==> in_use(xref, number)
}

/// Every entry that `used_of` gives is an entry of the section.
pub proof fn lemma_used_of(xref: Seq<XrefEntry>, i: int)
    requires
        0 <= i < used_of(xref).len(),
    ensures
        in_use(xref, used_of(xref)[i].number),
    decreases xref.len(),
{
    if xref.len() > 0 {
        let front = xref.drop_last();
        if i < used_of(front).len() {
            lemma_used_of(front, i);
            let j = choose|j: int|
                0 <= j < front.len() && (#[trigger] front[j]).number() == used_of(front)[i].number
                    && (front[j] is Used || front[j] is UsedCompressed);
            assert(xref[j] == front[j]);
        } else {
            assert(xref[xref.len() - 1] == xref.last());
        }
    }
}

/// The objects that are read at byte offsets get the numbers of the entries
/// that name the offsets.
pub proof fn lemma_used_objects_keys(
    s: Seq<u8>,
    xref: Seq<XrefEntry>,
    from: int,
    acc: Map<usize, Value>,
)
    requires
        0 <= from,
        keys_in_xref(acc, xref),
    ensures
        spec_used_objects(s, used_of(xref), from, acc) matches Ok(objects) ==> keys_in_xref(
            objects,
            xref,
        ),
    decreases used_of(xref).len() - from,
{
    let used = used_of(xref);
    if from < used.len() && used[from].byte_offset <= s.len() {
        if let Some((v, _)) = spec_indirect(s, used[from].byte_offset as int) {
            lemma_used_of(xref, from);
            lemma_used_objects_keys(s, xref, from + 1, acc.insert(used[from].number, v));
        }
    }
}

/// The object streams that the entries `compressed[from..]` name hold only
/// objects whose numbers `xref` marks as in use.
pub open spec fn streams_agree(
    compressed: Seq<UsedCompressedObject>,
    from: int,
    own: Map<usize, Value>,
    older: Seq<SectionValue>,
    xref: Seq<XrefEntry>,
) -> bool
    decreases compressed.len() - from,
{
    if from < 0 || from >= compressed.len() {
        true
    } else {
        match spec_children(find_container(own, older, compressed[from].containing_object)) {
            Err(_) => true,
            Ok(children) => (forall|j: int|
                0 <= j < children.len() ==> in_use(xref, (#[trigger] children[j]).0 as usize))
                && streams_agree(compressed, from + 1, insert_all(own, children, 0), older, xref),
        }
    }
}

/// Putting in objects whose numbers are marked as in use keeps all numbers
/// marked.
pub proof fn lemma_insert_all_keys(
    objects: Map<usize, Value>,
    children: Seq<(u32, Value)>,
    from: int,
    xref: Seq<XrefEntry>,
)
    requires
        0 <= from,
        keys_in_xref(objects, xref),
        forall|j: int| 0 <= j < children.len() ==> in_use(xref, (#[trigger] children[j]).0 as usize),
    ensures
        keys_in_xref(insert_all(objects, children, from), xref),
    decreases children.len() - from,
{
    if from < children.len() {
        lemma_insert_all_keys(
            objects.insert(
                children[from].0 as usize,
                as_indirect(children[from].0, children[from].1),
            ),
            children,
            from + 1,
            xref,
        );
    }
}

/// Reading the object streams keeps the numbers of the objects among those
/// that the cross-reference section marks, where the streams hold only such
/// numbers.
pub proof fn lemma_resolve_entries_keys(
    compressed: Seq<UsedCompressedObject>,
    from: int,
    own: Map<usize, Value>,
    older: Seq<SectionValue>,
    xref: Seq<XrefEntry>,
)
    requires
        0 <= from,
        keys_in_xref(own, xref),
        streams_agree(compressed, from, own, older, xref),
    ensures
        spec_resolve_entries(compressed, from, own, older) matches Ok(objects) ==> keys_in_xref(
            objects,
            xref,
        ),
    decreases compressed.len() - from,
{
    if from < compressed.len() {
        if let Ok(children) = spec_children(
            find_container(own, older, compressed[from].containing_object),
        ) {
            lemma_insert_all_keys(own, children, 0, xref);
            lemma_resolve_entries_keys(
                compressed,
                from + 1,
                insert_all(own, children, 0),
                older,
                xref,
            );
        }
    }
}

/// The objects of `head` are those that stand in the file `s` at the byte
/// offsets that its cross-reference section gives.
pub open spec fn read_at_offsets(s: Seq<u8>, head: SectionValue) -> bool {
    spec_used_objects(s, used_of(head.xref), 0, Map::empty()) == Ok::<
        Map<usize, Value>,
        (int, ParseFault),
    >(head.objects)
}

/// The objects of `section` are those that stand in the file `s` at the
/// byte offsets that its cross-reference section gives, with the objects of
/// the object streams that it names, found in the revision itself or in the
/// revisions `older`.
pub open spec fn completed(s: Seq<u8>, section: SectionValue, older: Seq<SectionValue>) -> bool {
    spec_used_objects(s, used_of(section.xref), 0, Map::empty()) matches Ok(own)
        && spec_resolve_entries(compressed_of(section.xref), 0, own, older) == Ok::<
        Map<usize, Value>,
        ParseFault,
    >(section.objects)
}

/// Each revision of `sections` is completed from the file `s` and the
/// revisions behind it.
pub open spec fn all_completed(s: Seq<u8>, sections: Seq<SectionValue>) -> bool {
    forall|i: int|
        0 <= i < sections.len() ==> completed(s, #[trigger] sections[i], sections.skip(i + 1))
}

/// Each of `heads` holds the objects that stand at the byte offsets of its
/// cross-reference section.
pub open spec fn all_read_at_offsets(s: Seq<u8>, heads: Seq<SectionValue>) -> bool {
    forall|i: int| 0 <= i < heads.len() ==> read_at_offsets(s, #[trigger] heads[i])
}

/// The revisions that are read along the chain hold the objects that stand
/// at the byte offsets of their cross-reference sections.
pub proof fn lemma_heads_read_at_offsets(s: Seq<u8>, offset: usize, upper: int)
    ensures
        spec_heads(s, offset, upper) matches Ok(heads) ==> all_read_at_offsets(s, heads),
    decreases offset,
{
    if let Ok(head) = spec_head(s, offset, upper) {
        assert(read_at_offsets(s, head));
        if let Some(previous) = next_offset(head.trailer, offset) {
            lemma_heads_read_at_offsets(s, previous, offset as int);
            if let Ok(rest) = spec_heads(s, previous, offset as int) {
                let heads = seq![head] + rest;
                assert forall|i: int| 0 <= i < heads.len() implies read_at_offsets(
                    s,
                    #[trigger] heads[i],
                ) by {
                    if i > 0 {
                        assert(heads[i] == rest[i - 1]);
                    }
                }
            }
        }
    }
}

/// Completing the revisions `heads`, the oldest first, gives revisions
/// each of which is completed from the file and the revisions behind it.
pub proof fn lemma_resolve_completed(s: Seq<u8>, heads: Seq<SectionValue>, older: Seq<SectionValue>)
    requires
        all_read_at_offsets(s, heads),
        all_completed(s, older),
    ensures
        spec_resolve(heads, older) matches Ok(sections) ==> all_completed(s, sections),
    decreases heads.len(),
{
    if heads.len() > 0 {
        let head = heads.last();
        assert(read_at_offsets(s, head));
        if let Ok(section) = spec_resolve_section(head, older) {
            let next = seq![section] + older;
            assert forall|i: int| 0 <= i < next.len() implies completed(
                s,
                #[trigger] next[i],
                next.skip(i + 1),
            ) by {
                if i > 0 {
                    assert(next[i] == older[i - 1]);
                    assert(next.skip(i + 1) =~= older.skip(i));
                } else {
                    assert(next.skip(1) =~= older);
                }
            }
            let front = heads.drop_last();
            assert forall|i: int| 0 <= i < front.len() implies read_at_offsets(
                s,
                #[trigger] front[i],
            ) by {
                assert(front[i] == heads[i]);
            }
            lemma_resolve_completed(s, front, next);
        }
    }
}

/// The object streams that the revision at `i` of `sections` names hold
/// only objects whose numbers its cross-reference section marks as in use.
pub open spec fn streams_hold_marked(s: Seq<u8>, sections: Seq<SectionValue>, i: int) -> bool {
    spec_used_objects(s, used_of(sections[i].xref), 0, Map::empty()) matches Ok(own)
        ==> streams_agree(
        compressed_of(sections[i].xref),
        0,
        own,
        sections.skip(i + 1),
        sections[i].xref,
    )
}

/// In every document that is read, the objects of a revision all have
/// numbers that its cross-reference section marks as in use, on their own
/// or in an object stream, where the object streams that the revision names
/// hold only objects of such numbers.
pub proof fn lemma_keys_are_marked(s: Seq<u8>, i: int)
    requires
        spec_parse(s) is Ok,
        0 <= i < spec_parse(s)->Ok_0.sections.len(),
        streams_hold_marked(s, spec_parse(s)->Ok_0.sections, i),
    ensures
        keys_in_xref(
            spec_parse(s)->Ok_0.sections[i].objects,
            spec_parse(s)->Ok_0.sections[i].xref,
        ),
{
    if let Ok((keyword, offset)) = spec_start(s) {
        lemma_heads_read_at_offsets(s, offset, keyword);
        if let Ok(heads) = spec_heads(s, offset, keyword) {
            lemma_resolve_completed(s, heads, Seq::empty());
        }
    }
    let sections = spec_parse(s)->Ok_0.sections;
    let section = sections[i];
    assert(completed(s, section, sections.skip(i + 1)));
    lemma_used_objects_keys(s, section.xref, 0, Map::empty());
    let own = spec_used_objects(s, used_of(section.xref), 0, Map::empty())->Ok_0;
    lemma_resolve_entries_keys(
        compressed_of(section.xref),
        0,
        own,
        sections.skip(i + 1),
        section.xref,
    );
}

} // verus!
