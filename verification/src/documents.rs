//! What holds of whole documents: unknown siblings and attributes change
//! nothing, and text that is no number falls back where the field asks for it.

use crate::container::EleType;
use crate::de::{
    assign, decode_attributes, decode_child, decode_children, decode_container, decode_field,
    decode_stream, end_matches, field_scalar, find_attribute, find_field, find_kind, initial_slots,
    scalar_of_text, skip_end, tag_matches, ErrorView, Progress,
};
use crate::descriptor::Bindings;
use crate::event::{AttributeView, EventView, TagView};
use crate::roundtrip::reads_on;
use crate::scalar::text_of_integer;
use crate::text::local_part;
use crate::theorems::{
    lemma_children_bounds, lemma_children_rest, lemma_container_rest,
    lemma_default_fallback_of_child, lemma_found_field, lemma_root_rest, lemma_scalar_round_trip,
    lemma_unknown_attribute_changes_nothing, lemma_unknown_child_changes_nothing,
    lemma_unknown_empty_child_changes_nothing, no_catch_all, same_progress, same_rest,
};
use crate::value::ValueView;
use vstd::prelude::*;

verus! {

/// Whether `front` is a run of whole children of the container `r`:
/// whatever follows it, reading it from its start with `slots` comes to
/// reading what follows with `after`.
pub open spec fn run_of_children(
    table: &Bindings,
    r: int,
    tag: Seq<u8>,
    front: Seq<EventView>,
    slots: Seq<ValueView>,
    after: Seq<ValueView>,
) -> bool {
    forall|rest: Seq<EventView>| #[trigger] reads_on(table, r, tag, front, rest, slots, after)
}

/// Whether `extra` is one whole element that no child field of the
/// container `r` claims: an opened element with all that it holds, or an empty
/// element.
pub open spec fn unknown_element(table: &Bindings, r: int, extra: Seq<EventView>) -> bool {
    let fields = table.containers[r]->fields@;
    &&& extra.len() > 0
    &&& match extra[0] {
        EventView::Start(t) => find_field(fields, EleType::Child, t, 0) is None && skip_end(
            extra,
            1,
            0,
        ) == Some(extra.len() as int),
        EventView::Empty(t) => find_field(fields, EleType::SelfClosedChild, t, 0) is None
            && extra.len() == 1,
        _ => false,
    }
}

/// An unknown sibling changes nothing: where a container has no catch-all
/// field, an element that none of its fields claims, standing behind a run of
/// its children, leaves the reading of the children as it is without it.
pub proof fn lemma_unknown_sibling(
    table: &Bindings,
    r: int,
    tag: Seq<u8>,
    front: Seq<EventView>,
    extra: Seq<EventView>,
    behind: Seq<EventView>,
    slots: Seq<ValueView>,
    after: Seq<ValueView>,
)
    requires
        0 <= r < table.containers.len(),
        table.containers[r] is Struct,
        no_catch_all(table.containers[r]->fields@),
        run_of_children(table, r, tag, front, slots, after),
        unknown_element(table, r, extra),
    ensures
        same_progress(
            decode_children(table, r, tag, front + extra + behind, 0, slots),
            extra.len() as int,
            decode_children(table, r, tag, front + behind, 0, slots),
            0,
        ),
{
    assert(reads_on(table, r, tag, front, extra + behind, slots, after));
    assert(reads_on(table, r, tag, front, behind, slots, after));
    assert(front + (extra + behind) =~= front + extra + behind);
    assert(behind.take(0) + extra + behind.skip(0) =~= extra + behind);
    match extra[0] {
        EventView::Start(_) => {
            lemma_unknown_child_changes_nothing(table, r, tag, behind, 0, after, extra);
        },
        EventView::Empty(t) => {
            assert(extra =~= seq![EventView::Empty(t)]);
            lemma_unknown_empty_child_changes_nothing(table, r, tag, behind, 0, after, t);
        },
        _ => {},
    }
}

/// No children are a run of children, and leave the slots as they are.
pub proof fn lemma_nothing_is_a_run(table: &Bindings, r: int, tag: Seq<u8>, slots: Seq<ValueView>)
    ensures
        run_of_children(table, r, tag, Seq::empty(), slots, slots),
{
    assert forall|rest: Seq<EventView>| #[trigger]
        reads_on(table, r, tag, Seq::empty(), rest, slots, slots) by {
        assert(Seq::<EventView>::empty() + rest =~= rest);
    }
}

/// A run of children behind a run of children is a run of children.
pub proof fn lemma_runs_join(
    table: &Bindings,
    r: int,
    tag: Seq<u8>,
    first: Seq<EventView>,
    second: Seq<EventView>,
    slots: Seq<ValueView>,
    between: Seq<ValueView>,
    after: Seq<ValueView>,
)
    requires
        run_of_children(table, r, tag, first, slots, between),
        run_of_children(table, r, tag, second, between, after),
    ensures
        run_of_children(table, r, tag, first + second, slots, after),
{
    assert forall|rest: Seq<EventView>| #[trigger]
        reads_on(table, r, tag, first + second, rest, slots, after) by {
        assert(reads_on(table, r, tag, first, second + rest, slots, between));
        assert(reads_on(table, r, tag, second, rest, between, after));
        assert(first + (second + rest) =~= first + second + rest);
    }
}

/// An element that no field claims is a run of children that leaves the
/// slots as they are, where the container has no catch-all field.
pub proof fn lemma_unknown_element_is_a_run(
    table: &Bindings,
    r: int,
    tag: Seq<u8>,
    extra: Seq<EventView>,
    slots: Seq<ValueView>,
)
    requires
        0 <= r < table.containers.len(),
        table.containers[r] is Struct,
        no_catch_all(table.containers[r]->fields@),
        unknown_element(table, r, extra),
    ensures
        run_of_children(table, r, tag, extra, slots, slots),
{
    assert forall|rest: Seq<EventView>| #[trigger]
        reads_on(table, r, tag, extra, rest, slots, slots) by {
        lemma_nothing_is_a_run(table, r, tag, slots);
        lemma_unknown_sibling(table, r, tag, Seq::empty(), extra, rest, slots, slots);
        assert(Seq::<EventView>::empty() + extra + rest =~= extra + rest);
        assert(Seq::<EventView>::empty() + rest =~= rest);
    }
}

/// A child element of a scalar field that holds readable text is a run of
/// children: it is an occurrence of the field with the value of the text.
pub proof fn lemma_scalar_child_is_a_run(
    table: &Bindings,
    r: int,
    tag: Seq<u8>,
    t: TagView,
    end: TagView,
    k: int,
    text: Seq<u8>,
    v: ValueView,
    slots: Seq<ValueView>,
)
    requires
        0 <= r < table.containers.len(),
        table.containers[r] is Struct,
        find_field(table.containers[r]->fields@, EleType::Child, t, 0) == Some(k),
        !(table.containers[r]->fields@[k].value_kind is NestedBindable),
        field_scalar(table.containers[r]->fields@[k], Ok(text)) == Ok::<ValueView, ErrorView>(v),
        !end_matches(table.containers[r], tag, end),
    ensures
        run_of_children(
            table,
            r,
            tag,
            seq![EventView::Start(t), EventView::Text(Ok(text)), EventView::End(end)],
            slots,
            assign(slots, k, table.containers[r]->fields@[k].cardinality, v),
        ),
{
    let fields = table.containers[r]->fields@;
    let f = fields[k];
    let front = seq![EventView::Start(t), EventView::Text(Ok(text)), EventView::End(end)];
    let after = assign(slots, k, f.cardinality, v);
    lemma_found_field(fields, EleType::Child, t, 0);
    assert forall|rest: Seq<EventView>| #[trigger]
        reads_on(table, r, tag, front, rest, slots, after) by {
        let s = front + rest;
        assert(s[0] == EventView::Start(t));
        assert(s[1] == EventView::Text(Ok(text)));
        assert(s[2] == EventView::End(end));
        let value = decode_field(table, f, t, false, s, 1);
        assert(value.outcome == field_scalar(f, Ok(text)));
        assert(!(v is Absent));
        let step = decode_child(table, fields, t, false, s, 1, slots);
        assert(step == Progress { slots: Ok(after), next: 2 });
        assert(decode_children(table, r, tag, s, 2, after) == decode_children(
            table,
            r,
            tag,
            s,
            3,
            after,
        ));
        assert(s.skip(3) =~= rest.skip(0));
        lemma_children_rest(table, r, tag, s, 3, rest, 0, after);
    }
}

/// Two documents that begin with the same root tag of the struct container
/// `r`, whose children are read to the same slots, and that go on alike behind
/// the children, decode alike.
proof fn lemma_document_by_children(
    table: &Bindings,
    r: int,
    s1: Seq<EventView>,
    s2: Seq<EventView>,
    slots: Seq<ValueView>,
)
    requires
        0 <= r < table.containers.len(),
        table.containers[r] is Struct,
        table.containers[r]->root is Some,
        find_kind(table.containers[r]->fields@, EleType::Text, 0) is None,
        s1.len() > 0,
        s2.len() > 0,
        s1[0] is Start,
        s2[0] == s1[0],
        tag_matches(
            table.containers[r]->Struct_tns,
            table.containers[r]->root->0@,
            s1[0]->Start_0,
        ),
        decode_attributes(
            table.containers[r]->fields@,
            s1[0]->Start_0.attributes,
            0,
            initial_slots(table.containers[r]->fields@),
        ) == Ok::<Seq<ValueView>, ErrorView>(slots),
        decode_children(table, r, table.containers[r]->root->0@, s1, 1, slots).slots
            == decode_children(table, r, table.containers[r]->root->0@, s2, 1, slots).slots,
        same_rest(
            s1,
            decode_children(table, r, table.containers[r]->root->0@, s1, 1, slots).next,
            s2,
            decode_children(table, r, table.containers[r]->root->0@, s2, 1, slots).next,
        ),
    ensures
        decode_stream(table, r, s1) == decode_stream(table, r, s2),
{
    let root = table.containers[r]->root->0@;
    let t = s1[0]->Start_0;
    let d1 = decode_children(table, r, root, s1, 1, slots);
    let d2 = decode_children(table, r, root, s2, 1, slots);
    lemma_children_bounds(table, r, root, s1, 1, slots);
    lemma_children_bounds(table, r, root, s2, 1, slots);
    let c1 = decode_container(table, r, root, t.attributes, false, s1, 1);
    let c2 = decode_container(table, r, root, t.attributes, false, s2, 1);
    assert(c1.outcome == c2.outcome);
    assert(c1.next == d1.next);
    assert(c2.next == d2.next);
    if c1.outcome is Ok {
        lemma_root_rest(table, r, s1, d1.next, s2, d2.next, Some(c1.outcome->Ok_0));
    }
}

/// Unknown content tolerance over a whole document: where the struct
/// container `r` has no text field and no catch-all field, a document that
/// begins with its root tag decodes as it does without an element that none
/// of its fields claims and that stands among its children, behind a run of
/// them: to the same value, or to the same error.
pub proof fn lemma_unknown_sibling_in_document(
    table: &Bindings,
    r: int,
    t: TagView,
    front: Seq<EventView>,
    extra: Seq<EventView>,
    behind: Seq<EventView>,
    slots: Seq<ValueView>,
    after: Seq<ValueView>,
)
    requires
        0 <= r < table.containers.len(),
        table.containers[r] is Struct,
        table.containers[r]->root is Some,
        find_kind(table.containers[r]->fields@, EleType::Text, 0) is None,
        no_catch_all(table.containers[r]->fields@),
        tag_matches(table.containers[r]->Struct_tns, table.containers[r]->root->0@, t),
        decode_attributes(
            table.containers[r]->fields@,
            t.attributes,
            0,
            initial_slots(table.containers[r]->fields@),
        ) == Ok::<Seq<ValueView>, ErrorView>(slots),
        run_of_children(table, r, table.containers[r]->root->0@, front, slots, after),
        unknown_element(table, r, extra),
    ensures
        decode_stream(table, r, seq![EventView::Start(t)] + front + extra + behind)
            == decode_stream(table, r, seq![EventView::Start(t)] + front + behind),
{
    let root = table.containers[r]->root->0@;
    let open = seq![EventView::Start(t)];
    let s1 = open + front + behind;
    let s2 = open + front + extra + behind;
    let inner1 = front + behind;
    let inner2 = front + extra + behind;
    assert(s1.skip(1) =~= inner1.skip(0));
    assert(s2.skip(1) =~= inner2.skip(0));
    lemma_children_rest(table, r, root, s1, 1, inner1, 0, slots);
    lemma_children_rest(table, r, root, s2, 1, inner2, 0, slots);
    lemma_unknown_sibling(table, r, root, front, extra, behind, slots, after);
    assert(reads_on(table, r, root, front, behind, slots, after));
    lemma_children_bounds(table, r, root, behind, 0, after);
    let d1 = decode_children(table, r, root, s1, 1, slots);
    let d2 = decode_children(table, r, root, s2, 1, slots);
    assert(d1.next >= 1 + front.len());
    assert(d2.next == d1.next + extra.len());
    lemma_children_bounds(table, r, root, s1, 1, slots);
    assert(s1.skip(d1.next) =~= s2.skip(d2.next));
    lemma_document_by_children(table, r, s1, s2, slots);
}

/// Unknown attributes change nothing of a document: a document that begins
/// with the root tag of the struct container `r` decodes as it does where the
/// tag carries one more attribute that no field of the container names,
/// wherever it stands among the others.
pub proof fn lemma_unknown_attribute_in_document(
    table: &Bindings,
    r: int,
    t: TagView,
    i: int,
    extra: AttributeView,
    behind: Seq<EventView>,
)
    requires
        0 <= r < table.containers.len(),
        table.containers[r] is Struct,
        table.containers[r]->root is Some,
        tag_matches(table.containers[r]->Struct_tns, table.containers[r]->root->0@, t),
        0 <= i <= t.attributes.len(),
        find_attribute(table.containers[r]->fields@, local_part(extra.key), 0) is None,
    ensures
        decode_stream(
            table,
            r,
            seq![
                EventView::Start(
                    TagView {
                        namespace: t.namespace,
                        name: t.name,
                        attributes: t.attributes.insert(i, extra),
                    },
                ),
            ] + behind,
        ) == decode_stream(table, r, seq![EventView::Start(t)] + behind),
{
    let root = table.containers[r]->root->0@;
    let more = TagView {
        namespace: t.namespace,
        name: t.name,
        attributes: t.attributes.insert(i, extra),
    };
    let s1 = seq![EventView::Start(t)] + behind;
    let s2 = seq![EventView::Start(more)] + behind;
    assert(s1.skip(1) =~= s2.skip(1));
    lemma_unknown_attribute_changes_nothing(table, r, root, t.attributes, i, extra, false, s2, 1);
    lemma_container_rest(table, r, root, t.attributes, false, s1, 1, s2, 1);
    let c1 = decode_container(table, r, root, t.attributes, false, s1, 1);
    let c2 = decode_container(table, r, root, more.attributes, false, s2, 1);
    assert(c1 == c2);
    if c1.outcome is Ok && 0 < c1.next <= s1.len() {
        assert(s1.skip(c1.next) =~= s2.skip(c1.next));
        lemma_root_rest(table, r, s1, c1.next, s2, c1.next, Some(c1.outcome->Ok_0));
    }
}

/// The child element of a number field whose text is `text`.
pub open spec fn number_child(t: TagView, text: Seq<u8>) -> Seq<EventView> {
    seq![EventView::Start(t), EventView::Text(Ok(text))]
}

/// Default fallback over a whole document. Where a child element of a
/// number field of the struct container `r` stands among its children, behind
/// a run of them, and holds text that is no number of the field's type, the
/// document decodes as it does with `0` for that text where the field falls
/// back, and to `ValueParseError` where it does not.
pub proof fn lemma_default_fallback_in_document(
    table: &Bindings,
    r: int,
    t: TagView,
    front: Seq<EventView>,
    child: TagView,
    k: int,
    text: Seq<u8>,
    behind: Seq<EventView>,
    slots: Seq<ValueView>,
    after: Seq<ValueView>,
)
    requires
        0 <= r < table.containers.len(),
        table.containers[r] is Struct,
        table.containers[r]->root is Some,
        find_kind(table.containers[r]->fields@, EleType::Text, 0) is None,
        tag_matches(table.containers[r]->Struct_tns, table.containers[r]->root->0@, t),
        decode_attributes(
            table.containers[r]->fields@,
            t.attributes,
            0,
            initial_slots(table.containers[r]->fields@),
        ) == Ok::<Seq<ValueView>, ErrorView>(slots),
        run_of_children(table, r, table.containers[r]->root->0@, front, slots, after),
        find_field(table.containers[r]->fields@, EleType::Child, child, 0) == Some(k),
        table.containers[r]->fields@[k].value_kind is Number,
        scalar_of_text(table.containers[r]->fields@[k].value_kind, text) is None,
    ensures
        table.containers[r]->fields@[k].default ==> decode_stream(
            table,
            r,
            seq![EventView::Start(t)] + front + number_child(child, text) + behind,
        ) == decode_stream(
            table,
            r,
            seq![EventView::Start(t)] + front + number_child(child, text_of_integer(0)) + behind,
        ),
        !table.containers[r]->fields@[k].default ==> decode_stream(
            table,
            r,
            seq![EventView::Start(t)] + front + number_child(child, text) + behind,
        ) == Err::<ValueView, ErrorView>(ErrorView::ValueParseError),
{
    let fields = table.containers[r]->fields@;
    let f = fields[k];
    let root = table.containers[r]->root->0@;
    let open = seq![EventView::Start(t)];
    let bad = number_child(child, text);
    let zero = number_child(child, text_of_integer(0));
    let s1 = open + front + bad + behind;
    let s2 = open + front + zero + behind;
    let x1 = bad + behind;
    let x2 = zero + behind;
    let inner1 = front + x1;
    let inner2 = front + x2;
    assert(inner1 =~= front + bad + behind);
    assert(inner2 =~= front + zero + behind);
    assert(s1.skip(1) =~= inner1.skip(0));
    assert(s2.skip(1) =~= inner2.skip(0));
    lemma_children_rest(table, r, root, s1, 1, inner1, 0, slots);
    lemma_children_rest(table, r, root, s2, 1, inner2, 0, slots);
    assert(reads_on(table, r, root, front, x1, slots, after));
    assert(reads_on(table, r, root, front, x2, slots, after));
    lemma_found_field(fields, EleType::Child, child, 0);
    lemma_default_fallback_of_child(table, fields, child, x1, 1, after, k, text);
    assert(x1[0] == EventView::Start(child));
    assert(x1[1] == EventView::Text(Ok(text)));
    let step1 = decode_child(table, fields, child, false, x1, 1, after);
    lemma_children_bounds(table, r, root, s1, 1, slots);
    let d1 = decode_children(table, r, root, s1, 1, slots);
    let c1 = decode_container(table, r, root, t.attributes, false, s1, 1);
    assert(s1[0] == EventView::Start(t));
    if f.default {
        let landed = assign(after, k, f.cardinality, ValueView::Number(0));
        assert(x2[0] == EventView::Start(child));
        assert(x2[1] == EventView::Text(Ok(text_of_integer(0))));
        if f.value_kind->Number_0.spec_is_integer() {
            lemma_scalar_round_trip(f.value_kind, ValueView::Number(0));
        }
        let number = field_scalar(f, Ok(text_of_integer(0)));
        assert(number == Ok::<ValueView, ErrorView>(ValueView::Number(0)));
        let step2 = decode_child(table, fields, child, false, x2, 1, after);
        assert(step2 == Progress { slots: Ok(landed), next: 2 });
        assert(x1.skip(2) =~= x2.skip(2));
        lemma_children_rest(table, r, root, x1, 2, x2, 2, landed);
        lemma_children_bounds(table, r, root, x1, 2, landed);
        let d2 = decode_children(table, r, root, s2, 1, slots);
        assert(d1 == d2);
        assert(d1.next >= 1 + front.len() + 2);
        assert(s1.skip(d1.next) =~= s2.skip(d2.next));
        assert(s2[0] == s1[0]);
        lemma_document_by_children(table, r, s1, s2, slots);
    } else {
        assert(d1.slots == Err::<Seq<ValueView>, ErrorView>(ErrorView::ValueParseError));
        assert(c1.outcome == Err::<ValueView, ErrorView>(ErrorView::ValueParseError));
    }
}

} // verus!
