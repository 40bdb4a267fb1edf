//! What holds of decoding and encoding for every descriptor and every input.

use crate::container::EleType;
use crate::de::{
    Outcome, decode_root, decode_stream, root_partition, assign, close_container, decode_attributes, decode_child, decode_children, decode_container,
    decode_content, decode_field, decode_payload, decode_text_content, decode_unclaimed,
    decode_variant, end_matches, expected_tags, field_matches, field_scalar, final_value,
    find_attribute, find_field, find_variant, finish, initial_slot, initial_slots, is_missing,
    scalar_of_text, scalar_zero, skip_end, skip_unclaimed, tag_matches, untag_claims,
    variant_matches, variant_partition, zero_field, Decoded, Dispatched, ErrorView, Progress,
};
use crate::descriptor::{
    Bindings, Cardinality, ContainerDescriptor, FieldDescriptor, Namespace, ValueKind,
    VariantDescriptor,
};
use crate::event::{AttributeView, EventView, NamespaceView, TagView};
use crate::scalar::{
    digits_of, is_digit, lemma_bool_round_trip, lemma_typed_number_round_trip, text_of_bool,
    text_of_integer,
};
use crate::de::find_kind;
use crate::ser::{
    attributes_from, behind, encode_child, encode_children, encode_container, encode_document,
    encode_items, encode_one, encode_variant, escaped_text, has_element_fields, is_element_field,
    plain_tag, qualified, scalar_text, text_content, text_element, MarkupTagView, MarkupView,
    XmlSerializeError,
};
use crate::text::{is_space, lemma_stripped_plain, local_part};
use crate::value::ValueView;
use vstd::prelude::*;

verus! {

/// Namespaces part the names: a descriptor without a namespace matches no
/// name that is bound to a URI, and a descriptor with a namespace matches no
/// name that is unbound, unknown or bound to another URI, whatever the local
/// names are.
pub proof fn lemma_namespace_partition(ns: Option<Namespace>, name: Seq<u8>, tag: TagView)
    ensures
        ns is None && !(tag.namespace is Unbound) ==> !tag_matches(ns, name, tag),
        ns is Some && tag.namespace != NamespaceView::Bound(ns->0.uri@) ==> !tag_matches(
            ns,
            name,
            tag,
        ),
        tag_matches(ns, name, tag) ==> (ns is None <==> tag.namespace is Unbound),
{
}

/// The field that an element is an occurrence of is the first of its kind
/// that matches, and it lies on the element's side of the namespaces.
pub proof fn lemma_found_field(
    fields: Seq<FieldDescriptor>,
    kind: EleType,
    tag: TagView,
    from: int,
)
    requires
        0 <= from,
    ensures
        match find_field(fields, kind, tag, from) {
            Some(i) => {
                &&& from <= i < fields.len()
                &&& field_matches(fields[i], kind, tag)
                &&& fields[i].ns is None <==> tag.namespace is Unbound
                &&& forall|j: int| from <= j < i ==> !field_matches(#[trigger] fields[j], kind, tag)
            },
            None => forall|j: int|
                from <= j < fields.len() ==> !field_matches(#[trigger] fields[j], kind, tag),
        },
    decreases fields.len() - from,
{
    if from < fields.len() && !field_matches(fields[from], kind, tag) {
        lemma_found_field(fields, kind, tag, from + 1);
    }
}

/// The variant that an element names is the first that matches, and it lies
/// on the element's side of the namespaces.
pub proof fn lemma_found_variant(variants: Seq<VariantDescriptor>, tag: TagView, from: int)
    requires
        0 <= from,
    ensures
        match find_variant(variants, tag, from) {
            Some(i) => {
                &&& from <= i < variants.len()
                &&& variant_matches(variants[i], tag)
                &&& variants[i].ns is None <==> tag.namespace is Unbound
                &&& forall|j: int| from <= j < i ==> !variant_matches(#[trigger] variants[j], tag)
            },
            None => forall|j: int|
                from <= j < variants.len() ==> !variant_matches(#[trigger] variants[j], tag),
        },
    decreases variants.len() - from,
{
    if from < variants.len() && !variant_matches(variants[from], tag) {
        lemma_found_variant(variants, tag, from + 1);
    }
}

/// Skipping an element moves forward and stays within the stream.
pub proof fn lemma_skip_end_bounds(stream: Seq<EventView>, pos: int, depth: nat)
    requires
        0 <= pos,
    ensures
        skip_end(stream, pos, depth) matches Some(next) ==> pos < next <= stream.len(),
    decreases stream.len() - pos,
{
    if pos < stream.len() {
        match stream[pos] {
            EventView::Start(_) => lemma_skip_end_bounds(stream, pos + 1, depth + 1),
            EventView::End(_) => if depth > 0 {
                lemma_skip_end_bounds(stream, pos + 1, (depth - 1) as nat);
            },
            EventView::Eof | EventView::Malformed => {},
            _ => lemma_skip_end_bounds(stream, pos + 1, depth),
        }
    }
}

/// Whether no field takes the elements that no child field claims.
pub open spec fn no_catch_all(fields: Seq<FieldDescriptor>) -> bool {
    forall|i: int|
        0 <= i < fields.len() ==> (#[trigger] fields[i]).ty != EleType::Untag && fields[i].ty
            != EleType::Any
}

proof fn lemma_unclaimed_is_skipped(
    table: &Bindings,
    fields: Seq<FieldDescriptor>,
    t: TagView,
    is_empty: bool,
    stream: Seq<EventView>,
    pos: int,
    slots: Seq<ValueView>,
    from: int,
)
    requires
        0 <= from,
        no_catch_all(fields),
    ensures
        decode_unclaimed(table, fields, t, is_empty, stream, pos, slots, from) == skip_unclaimed(
            is_empty,
            stream,
            pos,
            slots,
        ),
    decreases fields.len() - from,
{
    if from < fields.len() {
        assert(fields[from].ty != EleType::Untag && fields[from].ty != EleType::Any);
        lemma_unclaimed_is_skipped(table, fields, t, is_empty, stream, pos, slots, from + 1);
    }
}

/// Unknown child elements are tolerated: where a container has no
/// catch-all field, an element that none of its child fields claims changes
/// nothing of what was read, is no error, and reading goes on behind its
/// closing tag.
pub proof fn lemma_unknown_child_is_skipped(
    table: &Bindings,
    r: int,
    tag: Seq<u8>,
    stream: Seq<EventView>,
    pos: int,
    slots: Seq<ValueView>,
    next: int,
)
    requires
        0 <= r < table.containers.len(),
        table.containers[r] is Struct,
        no_catch_all(table.containers[r]->fields@),
        0 <= pos < stream.len(),
        stream[pos] is Start,
        find_field(table.containers[r]->fields@, EleType::Child, stream[pos]->Start_0, 0) is None,
        skip_end(stream, pos + 1, 0) == Some(next),
    ensures
        pos < next <= stream.len(),
        decode_children(table, r, tag, stream, pos, slots) == decode_children(
            table,
            r,
            tag,
            stream,
            next,
            slots,
        ),
{
    let fields = table.containers[r]->fields@;
    let t = stream[pos]->Start_0;
    lemma_skip_end_bounds(stream, pos + 1, 0);
    lemma_unclaimed_is_skipped(table, fields, t, false, stream, pos + 1, slots, 0);
    assert(decode_child(table, fields, t, false, stream, pos + 1, slots) == skip_unclaimed(
        false,
        stream,
        pos + 1,
        slots,
    ));
}

/// The same for an empty element that no self-closed child field claims:
/// reading goes on with the next event.
pub proof fn lemma_unknown_empty_child_is_skipped(
    table: &Bindings,
    r: int,
    tag: Seq<u8>,
    stream: Seq<EventView>,
    pos: int,
    slots: Seq<ValueView>,
)
    requires
        0 <= r < table.containers.len(),
        table.containers[r] is Struct,
        no_catch_all(table.containers[r]->fields@),
        0 <= pos < stream.len(),
        stream[pos] is Empty,
        find_field(
            table.containers[r]->fields@,
            EleType::SelfClosedChild,
            stream[pos]->Empty_0,
            0,
        ) is None,
    ensures
        decode_children(table, r, tag, stream, pos, slots) == decode_children(
            table,
            r,
            tag,
            stream,
            pos + 1,
            slots,
        ),
{
    let fields = table.containers[r]->fields@;
    let t = stream[pos]->Empty_0;
    lemma_unclaimed_is_skipped(table, fields, t, true, stream, pos + 1, slots, 0);
    assert(decode_child(table, fields, t, true, stream, pos + 1, slots) == skip_unclaimed(
        true,
        stream,
        pos + 1,
        slots,
    ));
}

/// Elements inside a container that holds text are tolerated too: each is
/// skipped whole and the text around it is read as if it were not there.
pub proof fn lemma_element_in_text_is_skipped(
    f: FieldDescriptor,
    i: int,
    tag: Seq<u8>,
    stream: Seq<EventView>,
    pos: int,
    slots: Seq<ValueView>,
    next: int,
)
    requires
        0 <= pos < stream.len(),
        stream[pos] is Start,
        skip_end(stream, pos + 1, 0) == Some(next),
    ensures
        pos < next <= stream.len(),
        decode_text_content(f, i, tag, stream, pos, slots) == decode_text_content(
            f,
            i,
            tag,
            stream,
            next,
            slots,
        ),
{
    lemma_skip_end_bounds(stream, pos + 1, 0);
}

proof fn lemma_attributes_shift(
    fields: Seq<FieldDescriptor>,
    attributes: Seq<AttributeView>,
    i: int,
    extra: AttributeView,
    k: int,
    slots: Seq<ValueView>,
)
    requires
        0 <= i <= k <= attributes.len(),
    ensures
        decode_attributes(fields, attributes.insert(i, extra), k + 1, slots) == decode_attributes(
            fields,
            attributes,
            k,
            slots,
        ),
    decreases attributes.len() - k,
{
    let longer = attributes.insert(i, extra);
    if k < attributes.len() {
        assert(longer[k + 1] == attributes[k]);
        match find_attribute(fields, local_part(attributes[k].key), 0) {
            None => lemma_attributes_shift(fields, attributes, i, extra, k + 1, slots),
            Some(j) => match field_scalar(fields[j], attributes[k].value) {
                Err(e) => {},
                Ok(v) => lemma_attributes_shift(
                    fields,
                    attributes,
                    i,
                    extra,
                    k + 1,
                    assign(slots, j, fields[j].cardinality, v),
                ),
            },
        }
    }
}

proof fn lemma_attributes_before(
    fields: Seq<FieldDescriptor>,
    attributes: Seq<AttributeView>,
    i: int,
    extra: AttributeView,
    k: int,
    slots: Seq<ValueView>,
)
    requires
        0 <= k <= i <= attributes.len(),
        find_attribute(fields, local_part(extra.key), 0) is None,
    ensures
        decode_attributes(fields, attributes.insert(i, extra), k, slots) == decode_attributes(
            fields,
            attributes,
            k,
            slots,
        ),
    decreases i - k,
{
    let longer = attributes.insert(i, extra);
    if k == i {
        assert(longer[i] == extra);
        lemma_attributes_shift(fields, attributes, i, extra, i, slots);
    } else {
        assert(longer[k] == attributes[k]);
        match find_attribute(fields, local_part(attributes[k].key), 0) {
            None => lemma_attributes_before(fields, attributes, i, extra, k + 1, slots),
            Some(j) => match field_scalar(fields[j], attributes[k].value) {
                Err(e) => {},
                Ok(v) => lemma_attributes_before(
                    fields,
                    attributes,
                    i,
                    extra,
                    k + 1,
                    assign(slots, j, fields[j].cardinality, v),
                ),
            },
        }
    }
}

/// Unknown attributes are tolerated: an attribute that no field names,
/// wherever it stands among the others and whatever its value, changes
/// nothing of what the attributes are read as.
pub proof fn lemma_unknown_attribute_is_ignored(
    fields: Seq<FieldDescriptor>,
    attributes: Seq<AttributeView>,
    i: int,
    extra: AttributeView,
    slots: Seq<ValueView>,
)
    requires
        0 <= i <= attributes.len(),
        find_attribute(fields, local_part(extra.key), 0) is None,
    ensures
        decode_attributes(fields, attributes.insert(i, extra), 0, slots) == decode_attributes(
            fields,
            attributes,
            0,
            slots,
        ),
{
    lemma_attributes_before(fields, attributes, i, extra, 0, slots);
}

/// The fallback is a switch: text that does not write a value of a number or
/// boolean field gives the zero value where the field asks for it, and
/// `ValueParseError` where it does not.
pub proof fn lemma_default_fallback(f: FieldDescriptor, text: Seq<u8>)
    requires
        f.value_kind is Number || f.value_kind is Bool,
        scalar_of_text(f.value_kind, text) is None,
    ensures
        f.default ==> field_scalar(f, Ok(text)) == Ok::<ValueView, ErrorView>(
            scalar_zero(f.value_kind),
        ),
        f.default && f.value_kind is Number ==> field_scalar(f, Ok(text)) == Ok::<
            ValueView,
            ErrorView,
        >(ValueView::Number(0)),
        !f.default ==> field_scalar(f, Ok(text)) == Err::<ValueView, ErrorView>(
            ErrorView::ValueParseError,
        ),
{
}

/// The same seen from the container: a child element of a number field whose
/// text is no number is an occurrence with value 0 where the field falls
/// back, and ends the decoding with `ValueParseError` where it does not.
pub proof fn lemma_default_fallback_of_child(
    table: &Bindings,
    fields: Seq<FieldDescriptor>,
    t: TagView,
    stream: Seq<EventView>,
    pos: int,
    slots: Seq<ValueView>,
    i: int,
    text: Seq<u8>,
)
    requires
        find_field(fields, EleType::Child, t, 0) == Some(i),
        fields[i].value_kind is Number,
        0 <= pos < stream.len(),
        stream[pos] == EventView::Text(Ok(text)),
        scalar_of_text(fields[i].value_kind, text) is None,
    ensures
        fields[i].default ==> decode_child(table, fields, t, false, stream, pos, slots)
            == (Progress {
            slots: Ok(assign(slots, i, fields[i].cardinality, ValueView::Number(0))),
            next: pos + 1,
        }),
        !fields[i].default ==> decode_child(table, fields, t, false, stream, pos, slots)
            == (Progress { slots: Err(ErrorView::ValueParseError), next: pos + 1 }),
{
    lemma_found_field(fields, EleType::Child, t, 0);
    lemma_default_fallback(fields[i], text);
    let value = decode_field(table, fields[i], t, false, stream, pos);
    assert(value.outcome == field_scalar(fields[i], Ok(text)));
}

/// An empty element is `true`: it is an occurrence, with the value `true`,
/// of the boolean self-closed child field that it matches first.
pub proof fn lemma_self_closed_present(
    table: &Bindings,
    fields: Seq<FieldDescriptor>,
    t: TagView,
    stream: Seq<EventView>,
    pos: int,
    slots: Seq<ValueView>,
    i: int,
)
    requires
        find_field(fields, EleType::SelfClosedChild, t, 0) == Some(i),
        fields[i].value_kind is Bool,
    ensures
        decode_child(table, fields, t, true, stream, pos, slots) == (Progress {
            slots: Ok(assign(slots, i, fields[i].cardinality, ValueView::Bool(true))),
            next: pos,
        }),
{
    lemma_found_field(fields, EleType::SelfClosedChild, t, 0);
}

/// The absence of the empty element is `false`, or no value: a boolean
/// self-closed child field of which no occurrence was met is never missing;
/// it is `false` where it is required, `Absent` where it is optional and the
/// empty list where it is repeated.
pub proof fn lemma_self_closed_absent(table: &Bindings, f: FieldDescriptor)
    requires
        f.ty == EleType::SelfClosedChild,
        f.value_kind is Bool,
        f.value is None,
    ensures
        !is_missing(f, initial_slot(f)),
        f.cardinality == Cardinality::Required ==> final_value(table, f, initial_slot(f))
            == ValueView::Bool(false),
        f.cardinality == Cardinality::Optional ==> final_value(table, f, initial_slot(f))
            == ValueView::Absent,
        f.cardinality == Cardinality::Repeated ==> final_value(table, f, initial_slot(f))
            == ValueView::List(Seq::empty()),
{
    reveal_with_fuel(zero_field, 2);
}

/// `true` is written as the empty element and `false` as nothing.
pub proof fn lemma_self_closed_written(table: &Bindings, f: FieldDescriptor, name: Seq<u8>, b: bool)
    requires
        f.ty == EleType::SelfClosedChild,
        f.value_kind is Bool,
    ensures
        encode_one(table, f, name, ValueView::Bool(b)) == Ok::<
            Seq<MarkupView>,
            XmlSerializeError,
        >(
            if b {
                seq![MarkupView::Empty(plain_tag(name))]
            } else {
                Seq::empty()
            },
        ),
{
}

proof fn lemma_digits_shape(n: nat)
    ensures
        digits_of(n).len() > 0,
        is_digit(digits_of(n)[0]),
        is_digit(digits_of(n).last()),
    decreases n,
{
    if n >= 10 {
        lemma_digits_shape(n / 10);
    }
}

/// A scalar is read back as it was written: the text that a value of a kind
/// is written as writes that value. A number must lie in the range of its type.
pub proof fn lemma_scalar_round_trip(kind: ValueKind, v: ValueView)
    requires
        scalar_text(kind, v) is Some,
        kind matches ValueKind::Number(ty) ==> ty.spec_is_integer() && ty.spec_min() <= v->Number_0
            <= ty.spec_max(),
    ensures
        scalar_of_text(kind, scalar_text(kind, v)->0) == Some(v),
{
    match (kind, v) {
        (ValueKind::Bool, ValueView::Bool(b)) => {
            lemma_bool_round_trip(b);
            lemma_stripped_plain(text_of_bool(b));
        },
        (ValueKind::Number(ty), ValueView::Number(n)) => {
            lemma_typed_number_round_trip(n, ty);
            let text = text_of_integer(n);
            if n < 0 {
                lemma_digits_shape((-n) as nat);
                assert(text.last() == digits_of((-n) as nat).last());
            } else {
                lemma_digits_shape(n as nat);
            }
            lemma_stripped_plain(text);
        },
        _ => {},
    }
}

/// The text of a boolean or a number neither begins nor ends with white
/// space, and is not empty.
pub proof fn lemma_scalar_text_shape(kind: ValueKind, v: ValueView)
    requires
        scalar_text(kind, v) is Some,
        !(kind is String),
    ensures
        scalar_text(kind, v)->0.len() > 0,
        !is_space(scalar_text(kind, v)->0[0]),
        !is_space(scalar_text(kind, v)->0.last()),
{
    match (kind, v) {
        (ValueKind::Number(_), ValueView::Number(n)) => {
            let text = text_of_integer(n);
            if n < 0 {
                lemma_digits_shape((-n) as nat);
                assert(text.last() == digits_of((-n) as nat).last());
            } else {
                lemma_digits_shape(n as nat);
            }
        },
        _ => {},
    }
}

/// A struct container that decodes has one value for each of its fields.
pub proof fn lemma_struct_has_all_fields(
    table: &Bindings,
    fields: Seq<FieldDescriptor>,
    slots: Seq<ValueView>,
)
    ensures
        finish(table, fields, slots) matches Ok(v) ==> v is Struct && v->Struct_0.len()
            == fields.len(),
{
}


/// The elements that are open behind `markup` where `open` were open before
/// it, the innermost last; `None` where a closing tag closes no element or an
/// element of another name.
pub open spec fn open_behind(markup: Seq<MarkupView>, open: Seq<Seq<u8>>) -> Option<Seq<Seq<u8>>>
    decreases markup.len(),
{
    if markup.len() == 0 {
        Some(open)
    } else {
        match open_behind(markup.drop_last(), open) {
            None => None,
            Some(stack) => match markup.last() {
                MarkupView::Start(tag) => Some(stack.push(tag.name)),
                MarkupView::End(name) => if stack.len() > 0 && stack.last() == name {
                    Some(stack.drop_last())
                } else {
                    None
                },
                _ => Some(stack),
            },
        }
    }
}

/// Markup is well nested where it closes every element that it opens, by
/// its name and in its turn, and no other.
pub open spec fn well_nested(markup: Seq<MarkupView>) -> bool {
    forall|open: Seq<Seq<u8>>| #[trigger] open_behind(markup, open) == Some(open)
}

proof fn lemma_open_behind_concat(a: Seq<MarkupView>, b: Seq<MarkupView>, open: Seq<Seq<u8>>)
    ensures
        open_behind(a + b, open) == match open_behind(a, open) {
            Some(stack) => open_behind(b, stack),
            None => None,
        },
    decreases b.len(),
{
    if b.len() == 0 {
        assert(a + b =~= a);
    } else {
        lemma_open_behind_concat(a, b.drop_last(), open);
        assert((a + b).drop_last() =~= a + b.drop_last());
        assert((a + b).last() == b.last());
    }
}

proof fn lemma_well_nested_concat(a: Seq<MarkupView>, b: Seq<MarkupView>)
    requires
        well_nested(a),
        well_nested(b),
    ensures
        well_nested(a + b),
{
    assert forall|open: Seq<Seq<u8>>| #[trigger] open_behind(a + b, open) == Some(open) by {
        lemma_open_behind_concat(a, b, open);
        assert(open_behind(a, open) == Some(open));
        assert(open_behind(b, open) == Some(open));
    }
}

proof fn lemma_well_nested_empty()
    ensures
        well_nested(Seq::<MarkupView>::empty()),
{
}

proof fn lemma_well_nested_single(m: MarkupView)
    requires
        m is Empty || m is Text,
    ensures
        well_nested(seq![m]),
{
    assert forall|open: Seq<Seq<u8>>| #[trigger] open_behind(seq![m], open) == Some(open) by {
        reveal_with_fuel(open_behind, 2);
        assert(seq![m].drop_last() =~= Seq::<MarkupView>::empty());
        assert(seq![m].last() == m);
    }
}

proof fn lemma_well_nested_element(open_tag: MarkupTagView, inner: Seq<MarkupView>)
    requires
        well_nested(inner),
    ensures
        well_nested(
            seq![MarkupView::Start(open_tag)] + inner + seq![MarkupView::End(open_tag.name)],
        ),
{
    let first = seq![MarkupView::Start(open_tag)];
    let last = seq![MarkupView::End(open_tag.name)];
    assert forall|open: Seq<Seq<u8>>| #[trigger] open_behind(first + inner + last, open) == Some(
        open,
    ) by {
        let entered = open.push(open_tag.name);
        reveal_with_fuel(open_behind, 2);
        assert(first.drop_last() =~= Seq::<MarkupView>::empty());
        assert(first.last() == MarkupView::Start(open_tag));
        assert(open_behind(first, open) == Some(entered));
        lemma_open_behind_concat(first, inner, open);
        assert(open_behind(inner, entered) == Some(entered));
        lemma_open_behind_concat(first + inner, last, open);
        assert(last.drop_last() =~= Seq::<MarkupView>::empty());
        assert(last.last() == MarkupView::End(open_tag.name));
        assert(open_behind(last.drop_last(), entered) == Some(entered));
        assert(entered.drop_last() =~= open);
        assert(entered.last() == open_tag.name);
    }
}

proof fn lemma_text_element_is_well_nested(name: Seq<u8>, text: Seq<u8>)
    ensures
        well_nested(text_element(name, text)),
{
    let inner = seq![MarkupView::Text(text)];
    lemma_well_nested_single(MarkupView::Text(text));
    lemma_well_nested_element(plain_tag(name), inner);
    assert(text_element(name, text) =~= seq![MarkupView::Start(plain_tag(name))] + inner + seq![
        MarkupView::End(name),
    ]);
}

proof fn lemma_encode_one_is_well_nested(
    table: &Bindings,
    f: FieldDescriptor,
    name: Seq<u8>,
    v: ValueView,
)
    ensures
        encode_one(table, f, name, v) matches Ok(markup) ==> well_nested(markup),
    decreases v, 1nat,
{
    if f.ty == EleType::Any {
        if v is Text {
            lemma_well_nested_single(MarkupView::Empty(plain_tag(v->Text_0)));
        }
    } else {
        match f.value_kind {
            ValueKind::NestedBindable(r) => lemma_encode_container_is_well_nested(
                table,
                r as int,
                name,
                v,
            ),
            kind => {
                lemma_well_nested_empty();
                lemma_well_nested_single(MarkupView::Empty(plain_tag(name)));
                if scalar_text(kind, v) is Some && escaped_text(scalar_text(kind, v)->0) is Ok {
                    lemma_text_element_is_well_nested(
                        name,
                        escaped_text(scalar_text(kind, v)->0)->Ok_0,
                    );
                }
            },
        }
    }
}

proof fn lemma_encode_items_is_well_nested(
    table: &Bindings,
    f: FieldDescriptor,
    name: Seq<u8>,
    items: Seq<ValueView>,
    k: int,
)
    ensures
        encode_items(table, f, name, items, k) matches Ok(markup) ==> well_nested(markup),
    decreases items, items.len() - k,
{
    if k < 0 || k >= items.len() {
        lemma_well_nested_empty();
    } else {
        lemma_encode_one_is_well_nested(table, f, name, items[k]);
        lemma_encode_items_is_well_nested(table, f, name, items, k + 1);
        let first = encode_one(table, f, name, items[k]);
        let rest = encode_items(table, f, name, items, k + 1);
        if first is Ok && rest is Ok {
            lemma_well_nested_concat(first->Ok_0, rest->Ok_0);
        }
    }
}

proof fn lemma_encode_child_is_well_nested(table: &Bindings, f: FieldDescriptor, v: ValueView)
    ensures
        encode_child(table, f, v) matches Ok(markup) ==> well_nested(markup),
    decreases v, 2nat,
{
    let name = qualified(f.ns, f.name_or_empty());
    if f.cardinality == Cardinality::Repeated {
        if v is List {
            lemma_encode_items_is_well_nested(table, f, name, v->List_0, 0);
        }
    } else if f.cardinality == Cardinality::Optional && v is Absent {
        lemma_well_nested_empty();
    } else {
        lemma_encode_one_is_well_nested(table, f, name, v);
    }
}

proof fn lemma_encode_children_is_well_nested(
    table: &Bindings,
    fields: Seq<FieldDescriptor>,
    values: Seq<ValueView>,
    k: int,
)
    ensures
        encode_children(table, fields, values, k) matches Ok(markup) ==> well_nested(markup),
    decreases values, fields.len() - k,
{
    if k < 0 || k >= fields.len() || k >= values.len() {
        lemma_well_nested_empty();
    } else {
        lemma_encode_children_is_well_nested(table, fields, values, k + 1);
        if is_element_field(fields[k]) {
            lemma_encode_child_is_well_nested(table, fields[k], values[k]);
            let first = encode_child(table, fields[k], values[k]);
            let rest = encode_children(table, fields, values, k + 1);
            if first is Ok && rest is Ok {
                lemma_well_nested_concat(first->Ok_0, rest->Ok_0);
            }
        }
    }
}

proof fn lemma_encode_variant_is_well_nested(
    table: &Bindings,
    variant: VariantDescriptor,
    payload: ValueView,
)
    ensures
        encode_variant(table, variant, payload) matches Ok(markup) ==> well_nested(markup),
    decreases payload, 1nat,
{
    let name = qualified(variant.ns, variant.name@);
    lemma_well_nested_empty();
    lemma_well_nested_single(MarkupView::Empty(plain_tag(name)));
    match variant.payload {
        Some(ValueKind::NestedBindable(r)) => lemma_encode_container_is_well_nested(
            table,
            r as int,
            name,
            payload,
        ),
        Some(kind) => {
            if scalar_text(kind, payload) is Some && escaped_text(scalar_text(kind, payload)->0)
                is Ok {
                lemma_text_element_is_well_nested(
                    name,
                    escaped_text(scalar_text(kind, payload)->0)->Ok_0,
                );
            }
        },
        None => {},
    }
}

/// What is written for a container is well nested: every element that is
/// opened is closed by its name and in its turn.
pub proof fn lemma_encode_container_is_well_nested(
    table: &Bindings,
    r: int,
    tag: Seq<u8>,
    v: ValueView,
)
    ensures
        encode_container(table, r, tag, v) matches Ok(markup) ==> well_nested(markup),
    decreases v, 0nat,
{
    if 0 <= r < table.containers.len() {
        match (table.containers[r], v) {
            (ContainerDescriptor::Struct { fields, .. }, ValueView::Struct(values)) => {
                if values.len() == fields.len() && attributes_from(fields@, values, 0) is Ok {
                    let open = MarkupTagView {
                        name: tag,
                        attributes: attributes_from(fields@, values, 0)->Ok_0,
                    };
                    lemma_well_nested_empty();
                    match find_kind(fields@, EleType::Text, 0) {
                        Some(i) => {
                            lemma_well_nested_element(open, Seq::empty());
                            assert(seq![MarkupView::Start(open)] + Seq::<MarkupView>::empty()
                                + seq![MarkupView::End(tag)] =~= seq![
                                MarkupView::Start(open),
                                MarkupView::End(tag),
                            ]);
                            match text_content(fields[i], values[i]) {
                                Ok(Some(text)) => {
                                    if escaped_text(text) is Ok {
                                        let t = escaped_text(text)->Ok_0;
                                        lemma_well_nested_single(MarkupView::Text(t));
                                        lemma_well_nested_element(open, seq![MarkupView::Text(t)]);
                                        assert(seq![MarkupView::Start(open)] + seq![
                                            MarkupView::Text(t),
                                        ] + seq![MarkupView::End(tag)] =~= seq![
                                            MarkupView::Start(open),
                                            MarkupView::Text(t),
                                            MarkupView::End(tag),
                                        ]);
                                    }
                                },
                                _ => {},
                            }
                        },
                        None => {
                            if has_element_fields(fields@, 0) {
                                lemma_encode_children_is_well_nested(table, fields@, values, 0);
                                let inner = encode_children(table, fields@, values, 0);
                                if inner is Ok {
                                    lemma_well_nested_element(open, inner->Ok_0);
                                }
                            } else {
                                lemma_well_nested_single(MarkupView::Empty(open));
                            }
                        },
                    }
                }
            },
            (ContainerDescriptor::Enum { variants, .. }, ValueView::Variant(j, payload)) => {
                if j < variants.len() {
                    lemma_encode_variant_is_well_nested(table, variants[j as int], *payload);
                    let inner = encode_variant(table, variants[j as int], *payload);
                    if inner is Ok && tag.len() > 0 {
                        lemma_well_nested_element(plain_tag(tag), inner->Ok_0);
                    }
                }
            },
            _ => {},
        }
    }
}

/// What is written for a document is well nested.
pub proof fn lemma_encode_document_is_well_nested(table: &Bindings, r: int, v: ValueView)
    ensures
        encode_document(table, r, v) matches Ok(markup) ==> well_nested(markup),
{
    if 0 <= r < table.containers.len() {
        match table.containers[r] {
            ContainerDescriptor::Enum { .. } => lemma_encode_container_is_well_nested(
                table,
                r,
                Seq::empty(),
                v,
            ),
            ContainerDescriptor::Struct { root: Some(root), tns, .. } => {
                lemma_encode_container_is_well_nested(table, r, qualified(tns, root@), v)
            },
            _ => {},
        }
    }
}


/// Whether two streams go on alike: what stands at and behind `p1` in the
/// one stands at and behind `p2` in the other.
pub open spec fn same_rest(s1: Seq<EventView>, p1: int, s2: Seq<EventView>, p2: int) -> bool {
    0 <= p1 <= s1.len() && 0 <= p2 <= s2.len() && s1.skip(p1) == s2.skip(p2)
}

pub open spec fn same_progress(a: Progress, p1: int, b: Progress, p2: int) -> bool {
    a.slots == b.slots && a.next - p1 == b.next - p2
}

pub open spec fn same_decoded(a: Decoded, p1: int, b: Decoded, p2: int) -> bool {
    a.outcome == b.outcome && a.next - p1 == b.next - p2
}

pub open spec fn same_dispatched(a: Dispatched, p1: int, b: Dispatched, p2: int) -> bool {
    a.outcome == b.outcome && a.next - p1 == b.next - p2
}

proof fn lemma_same_rest(s1: Seq<EventView>, p1: int, s2: Seq<EventView>, p2: int, k: int)
    requires
        same_rest(s1, p1, s2, p2),
        0 <= k <= s1.len() - p1,
    ensures
        s1.len() - p1 == s2.len() - p2,
        same_rest(s1, p1 + k, s2, p2 + k),
        k < s1.len() - p1 ==> s1[p1 + k] == s2[p2 + k],
{
    assert(s1.skip(p1).len() == s2.skip(p2).len());
    assert(s1.skip(p1 + k) =~= s1.skip(p1).skip(k));
    assert(s2.skip(p2 + k) =~= s2.skip(p2).skip(k));
    if k < s1.len() - p1 {
        assert(s1[p1 + k] == s1.skip(p1)[k]);
        assert(s2[p2 + k] == s2.skip(p2)[k]);
    }
}

proof fn lemma_skip_end_rest(
    s1: Seq<EventView>,
    p1: int,
    s2: Seq<EventView>,
    p2: int,
    depth: nat,
)
    requires
        same_rest(s1, p1, s2, p2),
    ensures
        match (skip_end(s1, p1, depth), skip_end(s2, p2, depth)) {
            (Some(n1), Some(n2)) => n1 - p1 == n2 - p2,
            (None, None) => true,
            _ => false,
        },
    decreases s1.len() - p1,
{
    lemma_same_rest(s1, p1, s2, p2, 0);
    if p1 < s1.len() {
        lemma_same_rest(s1, p1, s2, p2, 1);
        match s1[p1] {
            EventView::Start(_) => lemma_skip_end_rest(s1, p1 + 1, s2, p2 + 1, depth + 1),
            EventView::End(_) => if depth > 0 {
                lemma_skip_end_rest(s1, p1 + 1, s2, p2 + 1, (depth - 1) as nat);
            },
            EventView::Eof | EventView::Malformed => {},
            _ => lemma_skip_end_rest(s1, p1 + 1, s2, p2 + 1, depth),
        }
    }
}

proof fn lemma_close_container_rest(
    c: ContainerDescriptor,
    tag: Seq<u8>,
    s1: Seq<EventView>,
    p1: int,
    s2: Seq<EventView>,
    p2: int,
)
    requires
        same_rest(s1, p1, s2, p2),
    ensures
        match (close_container(c, tag, s1, p1), close_container(c, tag, s2, p2)) {
            (Some(n1), Some(n2)) => n1 - p1 == n2 - p2,
            (None, None) => true,
            _ => false,
        },
    decreases s1.len() - p1,
{
    lemma_same_rest(s1, p1, s2, p2, 0);
    if p1 < s1.len() {
        lemma_same_rest(s1, p1, s2, p2, 1);
        match s1[p1] {
            EventView::End(end) => if !end_matches(c, tag, end) {
                lemma_close_container_rest(c, tag, s1, p1 + 1, s2, p2 + 1);
            },
            EventView::Eof | EventView::Malformed => {},
            _ => lemma_close_container_rest(c, tag, s1, p1 + 1, s2, p2 + 1),
        }
    }
}

proof fn lemma_text_content_rest(
    f: FieldDescriptor,
    i: int,
    tag: Seq<u8>,
    s1: Seq<EventView>,
    p1: int,
    s2: Seq<EventView>,
    p2: int,
    slots: Seq<ValueView>,
)
    requires
        same_rest(s1, p1, s2, p2),
    ensures
        same_progress(
            decode_text_content(f, i, tag, s1, p1, slots),
            p1,
            decode_text_content(f, i, tag, s2, p2, slots),
            p2,
        ),
    decreases s1.len() - p1,
{
    lemma_same_rest(s1, p1, s2, p2, 0);
    if p1 < s1.len() {
        lemma_same_rest(s1, p1, s2, p2, 1);
        match s1[p1] {
            EventView::Text(text) => match field_scalar(f, text) {
                Err(e) => {},
                Ok(v) => lemma_text_content_rest(
                    f,
                    i,
                    tag,
                    s1,
                    p1 + 1,
                    s2,
                    p2 + 1,
                    assign(slots, i, f.cardinality, v),
                ),
            },
            EventView::Start(_) => {
                lemma_skip_end_rest(s1, p1 + 1, s2, p2 + 1, 0);
                match skip_end(s1, p1 + 1, 0) {
                    Some(next) => if p1 < next <= s1.len() {
                        lemma_same_rest(s1, p1, s2, p2, next - p1);
                        lemma_text_content_rest(f, i, tag, s1, next, s2, next - p1 + p2, slots);
                    },
                    None => {},
                }
            },
            EventView::End(end) => if local_part(end.name) != tag {
                lemma_text_content_rest(f, i, tag, s1, p1 + 1, s2, p2 + 1, slots);
            },
            EventView::Eof | EventView::Malformed => {},
            _ => lemma_text_content_rest(f, i, tag, s1, p1 + 1, s2, p2 + 1, slots),
        }
    }
}

/// Decoding a container depends on the rest of the stream alone.
pub proof fn lemma_container_rest(
    table: &Bindings,
    r: int,
    tag: Seq<u8>,
    attributes: Seq<AttributeView>,
    is_empty: bool,
    s1: Seq<EventView>,
    p1: int,
    s2: Seq<EventView>,
    p2: int,
)
    requires
        same_rest(s1, p1, s2, p2),
    ensures
        same_decoded(
            decode_container(table, r, tag, attributes, is_empty, s1, p1),
            p1,
            decode_container(table, r, tag, attributes, is_empty, s2, p2),
            p2,
        ),
    decreases s1.len() - p1, 5nat,
{
    lemma_same_rest(s1, p1, s2, p2, 0);
    if 0 <= r < table.containers.len() {
        match table.containers[r] {
            ContainerDescriptor::Struct { fields, .. } => {
                match decode_attributes(fields@, attributes, 0, initial_slots(fields@)) {
                    Err(e) => {},
                    Ok(slots) => lemma_content_rest(table, r, tag, is_empty, s1, p1, s2, p2, slots),
                }
            },
            ContainerDescriptor::Enum { variants, .. } => {
                if !is_empty {
                    lemma_variant_rest(table, r, s1, p1, s2, p2);
                    let found = decode_variant(table, r, s1, p1);
                    let other = decode_variant(table, r, s2, p2);
                    if found.outcome is Ok && tag.len() > 0 {
                        lemma_variant_bounds(table, r, s1, p1);
                        lemma_same_rest(s1, p1, s2, p2, found.next - p1);
                        lemma_close_container_rest(
                            table.containers[r],
                            tag,
                            s1,
                            found.next,
                            s2,
                            other.next,
                        );
                    }
                }
            },
        }
    }
}

proof fn lemma_content_rest(
    table: &Bindings,
    r: int,
    tag: Seq<u8>,
    is_empty: bool,
    s1: Seq<EventView>,
    p1: int,
    s2: Seq<EventView>,
    p2: int,
    slots: Seq<ValueView>,
)
    requires
        same_rest(s1, p1, s2, p2),
    ensures
        same_progress(
            decode_content(table, r, tag, is_empty, s1, p1, slots),
            p1,
            decode_content(table, r, tag, is_empty, s2, p2, slots),
            p2,
        ),
    decreases s1.len() - p1, 4nat,
{
    if 0 <= r < table.containers.len() && table.containers[r] is Struct {
        let fields = table.containers[r]->fields@;
        match find_kind(fields, EleType::Text, 0) {
            Some(i) => if !is_empty {
                lemma_text_content_rest(fields[i], i, tag, s1, p1, s2, p2, slots);
            },
            None => if !is_empty {
                lemma_children_rest(table, r, tag, s1, p1, s2, p2, slots);
            },
        }
    }
}

/// Reading child elements depends on the rest of the stream alone: two
/// streams that go on alike are read alike from there.
pub proof fn lemma_children_rest(
    table: &Bindings,
    r: int,
    tag: Seq<u8>,
    s1: Seq<EventView>,
    p1: int,
    s2: Seq<EventView>,
    p2: int,
    slots: Seq<ValueView>,
)
    requires
        same_rest(s1, p1, s2, p2),
    ensures
        same_progress(
            decode_children(table, r, tag, s1, p1, slots),
            p1,
            decode_children(table, r, tag, s2, p2, slots),
            p2,
        ),
    decreases s1.len() - p1, 3nat,
{
    lemma_same_rest(s1, p1, s2, p2, 0);
    if 0 <= r < table.containers.len() && table.containers[r] is Struct && p1 < s1.len() {
        lemma_same_rest(s1, p1, s2, p2, 1);
        let fields = table.containers[r]->fields@;
        match s1[p1] {
            EventView::Start(t) => {
                lemma_child_rest(table, fields, t, false, s1, p1 + 1, s2, p2 + 1, slots);
                let step = decode_child(table, fields, t, false, s1, p1 + 1, slots);
                if step.slots is Ok && p1 < step.next <= s1.len() {
                    lemma_same_rest(s1, p1, s2, p2, step.next - p1);
                    lemma_children_rest(
                        table,
                        r,
                        tag,
                        s1,
                        step.next,
                        s2,
                        step.next - p1 + p2,
                        step.slots->Ok_0,
                    );
                }
            },
            EventView::Empty(t) => {
                lemma_child_rest(table, fields, t, true, s1, p1 + 1, s2, p2 + 1, slots);
                let step = decode_child(table, fields, t, true, s1, p1 + 1, slots);
                if step.slots is Ok && p1 < step.next <= s1.len() {
                    lemma_same_rest(s1, p1, s2, p2, step.next - p1);
                    lemma_children_rest(
                        table,
                        r,
                        tag,
                        s1,
                        step.next,
                        s2,
                        step.next - p1 + p2,
                        step.slots->Ok_0,
                    );
                }
            },
            EventView::End(end) => if !end_matches(table.containers[r], tag, end) {
                lemma_children_rest(table, r, tag, s1, p1 + 1, s2, p2 + 1, slots);
            },
            EventView::Eof | EventView::Malformed => {},
            _ => lemma_children_rest(table, r, tag, s1, p1 + 1, s2, p2 + 1, slots),
        }
    }
}

proof fn lemma_child_rest(
    table: &Bindings,
    fields: Seq<FieldDescriptor>,
    t: TagView,
    is_empty: bool,
    s1: Seq<EventView>,
    p1: int,
    s2: Seq<EventView>,
    p2: int,
    slots: Seq<ValueView>,
)
    requires
        same_rest(s1, p1, s2, p2),
    ensures
        same_progress(
            decode_child(table, fields, t, is_empty, s1, p1, slots),
            p1,
            decode_child(table, fields, t, is_empty, s2, p2, slots),
            p2,
        ),
    decreases s1.len() - p1, 8nat,
{
    let kind = if is_empty {
        EleType::SelfClosedChild
    } else {
        EleType::Child
    };
    match find_field(fields, kind, t, 0) {
        Some(i) => lemma_field_rest(table, fields[i], t, is_empty, s1, p1, s2, p2),
        None => lemma_unclaimed_rest(table, fields, t, is_empty, s1, p1, s2, p2, slots, 0),
    }
}

proof fn lemma_unclaimed_rest(
    table: &Bindings,
    fields: Seq<FieldDescriptor>,
    t: TagView,
    is_empty: bool,
    s1: Seq<EventView>,
    p1: int,
    s2: Seq<EventView>,
    p2: int,
    slots: Seq<ValueView>,
    from: int,
)
    requires
        same_rest(s1, p1, s2, p2),
    ensures
        same_progress(
            decode_unclaimed(table, fields, t, is_empty, s1, p1, slots, from),
            p1,
            decode_unclaimed(table, fields, t, is_empty, s2, p2, slots, from),
            p2,
        ),
    decreases s1.len() - p1, 7nat, fields.len() - from,
{
    lemma_skip_end_rest(s1, p1, s2, p2, 0);
    if 0 <= from < fields.len() {
        let f = fields[from];
        if f.ty == EleType::Any {
        } else if f.ty == EleType::Untag && f.value_kind is NestedBindable && untag_claims(
            table,
            f.value_kind->NestedBindable_0 as int,
            t,
        ) {
            let r = f.value_kind->NestedBindable_0 as int;
            let variants = table.containers[r]->variants@;
            let j = find_variant(variants, t, 0)->0;
            lemma_payload_rest(table, variants[j], j, t, is_empty, s1, p1, s2, p2);
        } else {
            lemma_unclaimed_rest(table, fields, t, is_empty, s1, p1, s2, p2, slots, from + 1);
        }
    }
}

proof fn lemma_field_rest(
    table: &Bindings,
    f: FieldDescriptor,
    t: TagView,
    is_empty: bool,
    s1: Seq<EventView>,
    p1: int,
    s2: Seq<EventView>,
    p2: int,
)
    requires
        same_rest(s1, p1, s2, p2),
    ensures
        same_decoded(
            decode_field(table, f, t, is_empty, s1, p1),
            p1,
            decode_field(table, f, t, is_empty, s2, p2),
            p2,
        ),
    decreases s1.len() - p1, 6nat,
{
    lemma_same_rest(s1, p1, s2, p2, 0);
    match f.value_kind {
        ValueKind::NestedBindable(r) => lemma_container_rest(
            table,
            r as int,
            f.name_or_empty(),
            t.attributes,
            is_empty,
            s1,
            p1,
            s2,
            p2,
        ),
        _ => {},
    }
}

proof fn lemma_payload_rest(
    table: &Bindings,
    v: VariantDescriptor,
    j: int,
    t: TagView,
    is_empty: bool,
    s1: Seq<EventView>,
    p1: int,
    s2: Seq<EventView>,
    p2: int,
)
    requires
        same_rest(s1, p1, s2, p2),
    ensures
        same_dispatched(
            decode_payload(table, v, j, t, is_empty, s1, p1),
            p1,
            decode_payload(table, v, j, t, is_empty, s2, p2),
            p2,
        ),
    decreases s1.len() - p1, 6nat,
{
    lemma_same_rest(s1, p1, s2, p2, 0);
    match v.payload {
        Some(ValueKind::NestedBindable(r)) => lemma_container_rest(
            table,
            r as int,
            v.name@,
            t.attributes,
            is_empty,
            s1,
            p1,
            s2,
            p2,
        ),
        _ => {},
    }
}

/// Looking for a variant depends on the rest of the stream alone.
pub proof fn lemma_variant_rest(
    table: &Bindings,
    r: int,
    s1: Seq<EventView>,
    p1: int,
    s2: Seq<EventView>,
    p2: int,
)
    requires
        same_rest(s1, p1, s2, p2),
    ensures
        same_decoded(decode_variant(table, r, s1, p1), p1, decode_variant(table, r, s2, p2), p2),
    decreases s1.len() - p1, 3nat,
{
    lemma_same_rest(s1, p1, s2, p2, 0);
    if 0 <= r < table.containers.len() && table.containers[r] is Enum && p1 < s1.len() {
        lemma_same_rest(s1, p1, s2, p2, 1);
        let variants = table.containers[r]->variants@;
        let strict = table.containers[r]->strict;
        match s1[p1] {
            EventView::Start(t) => match find_variant(variants, t, 0) {
                Some(j) => lemma_payload_rest(table, variants[j], j, t, false, s1, p1 + 1, s2, p2 + 1),
                None => if !strict {
                    if !variant_partition(table.containers[r]->Enum_tns, t.namespace) {
                        lemma_variant_rest(table, r, s1, p1 + 1, s2, p2 + 1);
                    } else {
                        lemma_skip_end_rest(s1, p1 + 1, s2, p2 + 1, 0);
                        match skip_end(s1, p1 + 1, 0) {
                            Some(next) => if p1 < next <= s1.len() {
                                lemma_same_rest(s1, p1, s2, p2, next - p1);
                                lemma_variant_rest(table, r, s1, next, s2, next - p1 + p2);
                            },
                            None => {},
                        }
                    }
                },
            },
            EventView::Empty(t) => match find_variant(variants, t, 0) {
                Some(j) => {
                    lemma_payload_rest(table, variants[j], j, t, true, s1, p1 + 1, s2, p2 + 1);
                    lemma_variant_rest(table, r, s1, p1 + 1, s2, p2 + 1);
                },
                None => if !strict {
                    lemma_variant_rest(table, r, s1, p1 + 1, s2, p2 + 1);
                },
            },
            EventView::Eof | EventView::Malformed => {},
            _ => lemma_variant_rest(table, r, s1, p1 + 1, s2, p2 + 1),
        }
    }
}

/// Looking for a variant moves forward and stays within the stream.
proof fn lemma_variant_bounds(table: &Bindings, r: int, stream: Seq<EventView>, pos: int)
    requires
        0 <= pos <= stream.len(),
    ensures
        pos <= decode_variant(table, r, stream, pos).next <= stream.len(),
    decreases stream.len() - pos, 3nat,
{
    if 0 <= r < table.containers.len() && table.containers[r] is Enum && pos < stream.len() {
        let variants = table.containers[r]->variants@;
        let strict = table.containers[r]->strict;
        match stream[pos] {
            EventView::Start(t) => match find_variant(variants, t, 0) {
                Some(j) => lemma_payload_bounds(table, variants[j], j, t, false, stream, pos + 1),
                None => if !strict {
                    if !variant_partition(table.containers[r]->Enum_tns, t.namespace) {
                        lemma_variant_bounds(table, r, stream, pos + 1);
                    } else {
                        match skip_end(stream, pos + 1, 0) {
                            Some(next) => if pos < next <= stream.len() {
                                lemma_variant_bounds(table, r, stream, next);
                            },
                            None => {},
                        }
                    }
                },
            },
            EventView::Empty(t) => match find_variant(variants, t, 0) {
                Some(j) => {
                    lemma_payload_bounds(table, variants[j], j, t, true, stream, pos + 1);
                    lemma_variant_bounds(table, r, stream, pos + 1);
                },
                None => if !strict {
                    lemma_variant_bounds(table, r, stream, pos + 1);
                },
            },
            EventView::Eof | EventView::Malformed => {},
            _ => lemma_variant_bounds(table, r, stream, pos + 1),
        }
    }
}

proof fn lemma_payload_bounds(
    table: &Bindings,
    v: VariantDescriptor,
    j: int,
    t: TagView,
    is_empty: bool,
    stream: Seq<EventView>,
    pos: int,
)
    requires
        0 <= pos <= stream.len(),
    ensures
        pos <= decode_payload(table, v, j, t, is_empty, stream, pos).next <= stream.len(),
    decreases stream.len() - pos, 6nat,
{
    match v.payload {
        Some(ValueKind::NestedBindable(r)) => lemma_container_bounds(
            table,
            r as int,
            v.name@,
            t.attributes,
            is_empty,
            stream,
            pos,
        ),
        _ => {},
    }
}

proof fn lemma_close_container_bounds(
    c: ContainerDescriptor,
    tag: Seq<u8>,
    stream: Seq<EventView>,
    pos: int,
)
    requires
        0 <= pos <= stream.len(),
    ensures
        close_container(c, tag, stream, pos) matches Some(next) ==> pos <= next <= stream.len(),
    decreases stream.len() - pos,
{
    if pos < stream.len() {
        match stream[pos] {
            EventView::End(end) => if !end_matches(c, tag, end) {
                lemma_close_container_bounds(c, tag, stream, pos + 1);
            },
            EventView::Eof | EventView::Malformed => {},
            _ => lemma_close_container_bounds(c, tag, stream, pos + 1),
        }
    }
}

proof fn lemma_text_content_bounds(
    f: FieldDescriptor,
    i: int,
    tag: Seq<u8>,
    stream: Seq<EventView>,
    pos: int,
    slots: Seq<ValueView>,
)
    requires
        0 <= pos <= stream.len(),
    ensures
        pos <= decode_text_content(f, i, tag, stream, pos, slots).next <= stream.len(),
    decreases stream.len() - pos,
{
    if pos < stream.len() {
        match stream[pos] {
            EventView::Text(text) => match field_scalar(f, text) {
                Err(e) => {},
                Ok(v) => lemma_text_content_bounds(
                    f,
                    i,
                    tag,
                    stream,
                    pos + 1,
                    assign(slots, i, f.cardinality, v),
                ),
            },
            EventView::Start(_) => match skip_end(stream, pos + 1, 0) {
                Some(next) => if pos < next <= stream.len() {
                    lemma_text_content_bounds(f, i, tag, stream, next, slots);
                },
                None => {},
            },
            EventView::End(end) => if local_part(end.name) != tag {
                lemma_text_content_bounds(f, i, tag, stream, pos + 1, slots);
            },
            EventView::Eof | EventView::Malformed => {},
            _ => lemma_text_content_bounds(f, i, tag, stream, pos + 1, slots),
        }
    }
}

/// Decoding a container moves forward and stays within the stream.
pub proof fn lemma_container_bounds(
    table: &Bindings,
    r: int,
    tag: Seq<u8>,
    attributes: Seq<AttributeView>,
    is_empty: bool,
    stream: Seq<EventView>,
    pos: int,
)
    requires
        0 <= pos <= stream.len(),
    ensures
        pos <= decode_container(table, r, tag, attributes, is_empty, stream, pos).next
            <= stream.len(),
    decreases stream.len() - pos, 5nat,
{
    if 0 <= r < table.containers.len() {
        match table.containers[r] {
            ContainerDescriptor::Struct { fields, .. } => {
                match decode_attributes(fields@, attributes, 0, initial_slots(fields@)) {
                    Err(e) => {},
                    Ok(slots) => {
                        if !is_empty {
                            match find_kind(fields@, EleType::Text, 0) {
                                Some(i) => lemma_text_content_bounds(
                                    fields[i],
                                    i,
                                    tag,
                                    stream,
                                    pos,
                                    slots,
                                ),
                                None => lemma_children_bounds(table, r, tag, stream, pos, slots),
                            }
                        }
                    },
                }
            },
            ContainerDescriptor::Enum { variants, .. } => {
                if !is_empty {
                    lemma_variant_bounds(table, r, stream, pos);
                    let found = decode_variant(table, r, stream, pos);
                    if found.outcome is Ok && tag.len() > 0 {
                        lemma_close_container_bounds(table.containers[r], tag, stream, found.next);
                    }
                }
            },
        }
    }
}

/// Reading child elements moves forward and stays within the stream.
pub proof fn lemma_children_bounds(
    table: &Bindings,
    r: int,
    tag: Seq<u8>,
    stream: Seq<EventView>,
    pos: int,
    slots: Seq<ValueView>,
)
    requires
        0 <= pos <= stream.len(),
    ensures
        pos <= decode_children(table, r, tag, stream, pos, slots).next <= stream.len(),
    decreases stream.len() - pos, 3nat,
{
    if 0 <= r < table.containers.len() && table.containers[r] is Struct && pos < stream.len() {
        let fields = table.containers[r]->fields@;
        match stream[pos] {
            EventView::Start(t) => {
                lemma_child_bounds(table, fields, t, false, stream, pos + 1, slots);
                let step = decode_child(table, fields, t, false, stream, pos + 1, slots);
                if step.slots is Ok && pos < step.next <= stream.len() {
                    lemma_children_bounds(table, r, tag, stream, step.next, step.slots->Ok_0);
                }
            },
            EventView::Empty(t) => {
                lemma_child_bounds(table, fields, t, true, stream, pos + 1, slots);
                let step = decode_child(table, fields, t, true, stream, pos + 1, slots);
                if step.slots is Ok && pos < step.next <= stream.len() {
                    lemma_children_bounds(table, r, tag, stream, step.next, step.slots->Ok_0);
                }
            },
            EventView::End(end) => if !end_matches(table.containers[r], tag, end) {
                lemma_children_bounds(table, r, tag, stream, pos + 1, slots);
            },
            EventView::Eof | EventView::Malformed => {},
            _ => lemma_children_bounds(table, r, tag, stream, pos + 1, slots),
        }
    }
}

proof fn lemma_child_bounds(
    table: &Bindings,
    fields: Seq<FieldDescriptor>,
    t: TagView,
    is_empty: bool,
    stream: Seq<EventView>,
    pos: int,
    slots: Seq<ValueView>,
)
    requires
        0 <= pos <= stream.len(),
    ensures
        pos <= decode_child(table, fields, t, is_empty, stream, pos, slots).next <= stream.len(),
    decreases stream.len() - pos, 8nat,
{
    let kind = if is_empty {
        EleType::SelfClosedChild
    } else {
        EleType::Child
    };
    match find_field(fields, kind, t, 0) {
        Some(i) => match fields[i].value_kind {
            ValueKind::NestedBindable(r) => lemma_container_bounds(
                table,
                r as int,
                fields[i].name_or_empty(),
                t.attributes,
                is_empty,
                stream,
                pos,
            ),
            _ => {},
        },
        None => lemma_unclaimed_bounds(table, fields, t, is_empty, stream, pos, slots, 0),
    }
}

proof fn lemma_unclaimed_bounds(
    table: &Bindings,
    fields: Seq<FieldDescriptor>,
    t: TagView,
    is_empty: bool,
    stream: Seq<EventView>,
    pos: int,
    slots: Seq<ValueView>,
    from: int,
)
    requires
        0 <= pos <= stream.len(),
    ensures
        pos <= decode_unclaimed(table, fields, t, is_empty, stream, pos, slots, from).next
            <= stream.len(),
    decreases stream.len() - pos, 7nat, fields.len() - from,
{
    lemma_skip_end_bounds(stream, pos, 0);
    if 0 <= from < fields.len() {
        let f = fields[from];
        if f.ty == EleType::Any {
        } else if f.ty == EleType::Untag && f.value_kind is NestedBindable && untag_claims(
            table,
            f.value_kind->NestedBindable_0 as int,
            t,
        ) {
            let r = f.value_kind->NestedBindable_0 as int;
            let variants = table.containers[r]->variants@;
            let j = find_variant(variants, t, 0)->0;
            lemma_payload_bounds(table, variants[j], j, t, is_empty, stream, pos);
        } else {
            lemma_unclaimed_bounds(table, fields, t, is_empty, stream, pos, slots, from + 1);
        }
    }
}


proof fn lemma_skip_end_embedded(
    before: Seq<EventView>,
    extra: Seq<EventView>,
    behind: Seq<EventView>,
    i: int,
    depth: nat,
)
    requires
        0 <= i,
        skip_end(extra, i, depth) is Some,
    ensures
        skip_end(before + extra + behind, before.len() + i, depth) == Some(
            before.len() + skip_end(extra, i, depth)->0,
        ),
    decreases extra.len() - i,
{
    let whole = before + extra + behind;
    if i < extra.len() {
        assert(whole[before.len() + i] == extra[i]);
        match extra[i] {
            EventView::Start(_) => lemma_skip_end_embedded(before, extra, behind, i + 1, depth + 1),
            EventView::End(_) => if depth > 0 {
                lemma_skip_end_embedded(before, extra, behind, i + 1, (depth - 1) as nat);
            },
            EventView::Eof | EventView::Malformed => {},
            _ => lemma_skip_end_embedded(before, extra, behind, i + 1, depth),
        }
    }
}

/// Unknown child elements change nothing: where a container has no
/// catch-all field, a stream in which a whole element that none of its child
/// fields claims stands where the children are read decodes as the stream
/// without that element, to the same values or to the same error.
pub proof fn lemma_unknown_child_changes_nothing(
    table: &Bindings,
    r: int,
    tag: Seq<u8>,
    stream: Seq<EventView>,
    pos: int,
    slots: Seq<ValueView>,
    extra: Seq<EventView>,
)
    requires
        0 <= r < table.containers.len(),
        table.containers[r] is Struct,
        no_catch_all(table.containers[r]->fields@),
        0 <= pos <= stream.len(),
        extra.len() > 0,
        extra[0] is Start,
        find_field(table.containers[r]->fields@, EleType::Child, extra[0]->Start_0, 0) is None,
        skip_end(extra, 1, 0) == Some(extra.len() as int),
    ensures
        same_progress(
            decode_children(
                table,
                r,
                tag,
                stream.take(pos) + extra + stream.skip(pos),
                pos,
                slots,
            ),
            pos + extra.len(),
            decode_children(table, r, tag, stream, pos, slots),
            pos,
        ),
{
    let before = stream.take(pos);
    let behind = stream.skip(pos);
    let longer = before + extra + behind;
    let next = pos + extra.len();
    lemma_skip_end_embedded(before, extra, behind, 1, 0);
    assert(longer[pos] == extra[0]);
    lemma_unknown_child_is_skipped(table, r, tag, longer, pos, slots, next);
    assert(longer.skip(next) =~= stream.skip(pos));
    lemma_children_rest(table, r, tag, longer, next, stream, pos, slots);
}

/// The same for an empty element that no self-closed child field claims.
pub proof fn lemma_unknown_empty_child_changes_nothing(
    table: &Bindings,
    r: int,
    tag: Seq<u8>,
    stream: Seq<EventView>,
    pos: int,
    slots: Seq<ValueView>,
    extra: TagView,
)
    requires
        0 <= r < table.containers.len(),
        table.containers[r] is Struct,
        no_catch_all(table.containers[r]->fields@),
        0 <= pos <= stream.len(),
        find_field(table.containers[r]->fields@, EleType::SelfClosedChild, extra, 0) is None,
    ensures
        same_progress(
            decode_children(
                table,
                r,
                tag,
                stream.take(pos) + seq![EventView::Empty(extra)] + stream.skip(pos),
                pos,
                slots,
            ),
            pos + 1,
            decode_children(table, r, tag, stream, pos, slots),
            pos,
        ),
{
    let longer = stream.take(pos) + seq![EventView::Empty(extra)] + stream.skip(pos);
    assert(longer[pos] == EventView::Empty(extra));
    lemma_unknown_empty_child_is_skipped(table, r, tag, longer, pos, slots);
    assert(longer.skip(pos + 1) =~= stream.skip(pos));
    lemma_children_rest(table, r, tag, longer, pos + 1, stream, pos, slots);
}

/// The same for an element inside a container that holds text.
pub proof fn lemma_element_in_text_changes_nothing(
    f: FieldDescriptor,
    i: int,
    tag: Seq<u8>,
    stream: Seq<EventView>,
    pos: int,
    slots: Seq<ValueView>,
    extra: Seq<EventView>,
)
    requires
        0 <= pos <= stream.len(),
        extra.len() > 0,
        extra[0] is Start,
        skip_end(extra, 1, 0) == Some(extra.len() as int),
    ensures
        same_progress(
            decode_text_content(
                f,
                i,
                tag,
                stream.take(pos) + extra + stream.skip(pos),
                pos,
                slots,
            ),
            pos + extra.len(),
            decode_text_content(f, i, tag, stream, pos, slots),
            pos,
        ),
{
    let before = stream.take(pos);
    let behind = stream.skip(pos);
    let longer = before + extra + behind;
    let next = pos + extra.len();
    lemma_skip_end_embedded(before, extra, behind, 1, 0);
    assert(longer[pos] == extra[0]);
    lemma_element_in_text_is_skipped(f, i, tag, longer, pos, slots, next);
    assert(longer.skip(next) =~= stream.skip(pos));
    lemma_text_content_rest(f, i, tag, longer, next, stream, pos, slots);
}

/// Unknown attributes change nothing of a container: a tag with an
/// attribute that no field of the container names, wherever it stands among
/// the others, opens the same container.
pub proof fn lemma_unknown_attribute_changes_nothing(
    table: &Bindings,
    r: int,
    tag: Seq<u8>,
    attributes: Seq<AttributeView>,
    i: int,
    extra: AttributeView,
    is_empty: bool,
    stream: Seq<EventView>,
    pos: int,
)
    requires
        0 <= r < table.containers.len(),
        0 <= i <= attributes.len(),
        table.containers[r] is Struct ==> find_attribute(
            table.containers[r]->fields@,
            local_part(extra.key),
            0,
        ) is None,
    ensures
        decode_container(table, r, tag, attributes.insert(i, extra), is_empty, stream, pos)
            == decode_container(table, r, tag, attributes, is_empty, stream, pos),
{
    if table.containers[r] is Struct {
        let fields = table.containers[r]->fields@;
        lemma_unknown_attribute_is_ignored(fields, attributes, i, extra, initial_slots(fields));
    }
}


/// Whether an event begins an element: an opening tag or an empty tag.
pub open spec fn begins_element(e: EventView) -> bool {
    e is Start || e is Empty
}

/// The tag of an event that begins an element.
pub open spec fn element_tag(e: EventView) -> TagView {
    match e {
        EventView::Empty(t) => t,
        EventView::Start(t) => t,
        _ => arbitrary(),
    }
}

/// What a union decodes to from the element that names its variant `j`:
/// the variant, the error of reading its payload, or `MissingVariant` where
/// the element gives no value.
pub open spec fn decided_by(
    table: &Bindings,
    r: int,
    stream: Seq<EventView>,
    at: int,
    j: int,
) -> Outcome {
    let variants = table.containers[r]->variants@;
    match decode_payload(
        table,
        variants[j],
        j,
        element_tag(stream[at]),
        stream[at] is Empty,
        stream,
        at + 1,
    ).outcome {
        Err(e) => Err(e),
        Ok(Some(v)) => Ok(v),
        Ok(None) => Err(ErrorView::MissingVariant(expected_tags(variants))),
    }
}

/// The first variant that an element names decides: where a tag, opening
/// or empty, names variants of a union, the search ends there. What is decoded
/// is the first of them in the order of the table, or an error, and never
/// another variant, whatever follows the element.
pub proof fn lemma_first_variant_wins(
    table: &Bindings,
    r: int,
    stream: Seq<EventView>,
    pos: int,
    j: int,
)
    requires
        0 <= r < table.containers.len(),
        table.containers[r] is Enum,
        0 <= pos < stream.len(),
        begins_element(stream[pos]),
        find_variant(table.containers[r]->variants@, element_tag(stream[pos]), 0) == Some(j),
    ensures
        forall|i: int|
            0 <= i < j ==> !variant_matches(
                #[trigger] table.containers[r]->variants@[i],
                element_tag(stream[pos]),
            ),
        decode_variant(table, r, stream, pos).outcome == decided_by(table, r, stream, pos, j),
        decode_variant(table, r, stream, pos).outcome matches Ok(v) ==> v is Variant
            && v->Variant_0 == j,
{
    let variants = table.containers[r]->variants@;
    let t = element_tag(stream[pos]);
    lemma_found_variant(variants, t, 0);
    lemma_payload_is_variant(table, variants[j], j, t, stream[pos] is Empty, stream, pos + 1);
}

proof fn lemma_payload_is_variant(
    table: &Bindings,
    v: VariantDescriptor,
    j: int,
    t: TagView,
    is_empty: bool,
    stream: Seq<EventView>,
    pos: int,
)
    requires
        0 <= j,
    ensures
        decode_payload(table, v, j, t, is_empty, stream, pos).outcome matches Ok(Some(x))
            ==> x is Variant && x->Variant_0 == j,
{
}

/// A stream without any element has no variant: decoding a union from it
/// fails with the tags that were expected.
pub proof fn lemma_no_element_no_variant(table: &Bindings, r: int, stream: Seq<EventView>, pos: int)
    requires
        0 <= r < table.containers.len(),
        table.containers[r] is Enum,
        0 <= pos,
        forall|i: int|
            pos <= i < stream.len() ==> !(#[trigger] stream[i] is Start) && !(stream[i] is Empty)
                && !(stream[i] is Malformed),
    ensures
        decode_variant(table, r, stream, pos).outcome == Err::<ValueView, ErrorView>(
            ErrorView::MissingVariant(expected_tags(table.containers[r]->variants@)),
        ),
    decreases stream.len() - pos,
{
    if pos < stream.len() {
        assert(!(stream[pos] is Start));
        if !(stream[pos] is Eof) {
            lemma_no_element_no_variant(table, r, stream, pos + 1);
        }
    }
}

/// Whether the search for a variant of the union `r` that begins at `pos`
/// comes to `at`: each element on the way names no variant, and is skipped
/// whole where it is of the union's own kind and passed over where it is not;
/// the stream does not end on the way.
pub open spec fn search_comes_to(
    table: &Bindings,
    r: int,
    stream: Seq<EventView>,
    pos: int,
    at: int,
) -> bool
    decreases at - pos,
{
    if pos >= at {
        pos == at
    } else if pos < 0 || pos >= stream.len() {
        false
    } else {
        let variants = table.containers[r]->variants@;
        match stream[pos] {
            EventView::Start(t) => find_variant(variants, t, 0) is None && if variant_partition(
                table.containers[r]->Enum_tns,
                t.namespace,
            ) {
                match skip_end(stream, pos + 1, 0) {
                    Some(next) => pos < next <= at && search_comes_to(table, r, stream, next, at),
                    None => false,
                }
            } else {
                search_comes_to(table, r, stream, pos + 1, at)
            },
            EventView::Empty(t) => find_variant(variants, t, 0) is None && search_comes_to(
                table,
                r,
                stream,
                pos + 1,
                at,
            ),
            EventView::Eof => false,
            EventView::Malformed => false,
            _ => search_comes_to(table, r, stream, pos + 1, at),
        }
    }
}

/// Where the search for a variant comes to a place, the document decodes
/// from there as it does from where the search began.
pub proof fn lemma_search_comes_to(
    table: &Bindings,
    r: int,
    stream: Seq<EventView>,
    pos: int,
    at: int,
)
    requires
        0 <= r < table.containers.len(),
        table.containers[r] is Enum,
        !table.containers[r]->strict,
        0 <= pos,
        at <= stream.len(),
        search_comes_to(table, r, stream, pos, at),
    ensures
        decode_variant(table, r, stream, pos) == decode_variant(table, r, stream, at),
    decreases at - pos,
{
    if pos < at {
        match stream[pos] {
            EventView::Start(t) => {
                if variant_partition(table.containers[r]->Enum_tns, t.namespace) {
                    let next = skip_end(stream, pos + 1, 0)->0;
                    lemma_search_comes_to(table, r, stream, next, at);
                } else {
                    lemma_search_comes_to(table, r, stream, pos + 1, at);
                }
            },
            _ => {
                lemma_search_comes_to(table, r, stream, pos + 1, at);
            },
        }
    }
}

/// Enum dispatch over a whole document: the first element that names a
/// variant decides. Where the search from the start of the document comes to
/// a tag, opening or empty, that names variants, the document decodes to what
/// the payload of the first of them in the order of the table is read as from
/// that element, and to nothing that stands behind it: to that variant, to
/// the error of reading its payload, or to `MissingVariant` where the
/// element gives no value.
pub proof fn lemma_first_match_decides(
    table: &Bindings,
    r: int,
    stream: Seq<EventView>,
    at: int,
    j: int,
)
    requires
        0 <= r < table.containers.len(),
        table.containers[r] is Enum,
        !table.containers[r]->strict,
        0 <= at < stream.len(),
        search_comes_to(table, r, stream, 0, at),
        begins_element(stream[at]),
        find_variant(table.containers[r]->variants@, element_tag(stream[at]), 0) == Some(j),
    ensures
        forall|i: int|
            0 <= i < j ==> !variant_matches(
                #[trigger] table.containers[r]->variants@[i],
                element_tag(stream[at]),
            ),
        decode_stream(table, r, stream) == decided_by(table, r, stream, at, j),
        decode_stream(table, r, stream) matches Ok(v) ==> v is Variant && v->Variant_0 == j,
        table.containers[r]->variants@[j].payload is None ==> decode_stream(table, r, stream)
            == Ok::<ValueView, ErrorView>(
            ValueView::Variant(j as nat, Box::new(ValueView::Absent)),
        ),
{
    lemma_search_comes_to(table, r, stream, 0, at);
    lemma_first_variant_wins(table, r, stream, at, j);
}

/// An empty tag that names a variant which holds text or a number gives no
/// value, and ends the search: the union decodes to `MissingVariant`, whatever
/// follows.
pub proof fn lemma_empty_tag_without_value(
    table: &Bindings,
    r: int,
    stream: Seq<EventView>,
    pos: int,
    j: int,
)
    requires
        0 <= r < table.containers.len(),
        table.containers[r] is Enum,
        0 <= pos < stream.len(),
        stream[pos] is Empty,
        find_variant(table.containers[r]->variants@, stream[pos]->Empty_0, 0) == Some(j),
        table.containers[r]->variants@[j].payload matches Some(kind) && (kind is String
            || kind is Number),
    ensures
        decode_variant(table, r, stream, pos) == (Decoded {
            outcome: Err(
                ErrorView::MissingVariant(expected_tags(table.containers[r]->variants@)),
            ),
            next: pos + 1,
        }),
{
    let variants = table.containers[r]->variants@;
    let t = stream[pos]->Empty_0;
    lemma_found_variant(variants, t, 0);
    let found = decode_payload(table, variants[j], j, t, true, stream, pos + 1);
    assert(found == Dispatched { outcome: Ok(None), next: pos + 1 });
}

/// Enum dispatch over a whole document, where nothing matches: where the
/// search from the start of the document comes to the end of the input, the
/// document decodes to `MissingVariant` with the tags that were expected.
pub proof fn lemma_no_match_is_missing(table: &Bindings, r: int, stream: Seq<EventView>, at: int)
    requires
        0 <= r < table.containers.len(),
        table.containers[r] is Enum,
        !table.containers[r]->strict,
        0 <= at <= stream.len(),
        search_comes_to(table, r, stream, 0, at),
        at < stream.len() ==> stream[at] is Eof,
    ensures
        decode_stream(table, r, stream) == Err::<ValueView, ErrorView>(
            ErrorView::MissingVariant(expected_tags(table.containers[r]->variants@)),
        ),
{
    lemma_search_comes_to(table, r, stream, 0, at);
}

/// Looking for the root depends on the rest of the stream alone.
pub proof fn lemma_root_rest(
    table: &Bindings,
    r: int,
    s1: Seq<EventView>,
    p1: int,
    s2: Seq<EventView>,
    p2: int,
    found: Option<ValueView>,
)
    requires
        same_rest(s1, p1, s2, p2),
    ensures
        decode_root(table, r, s1, p1, found) == decode_root(table, r, s2, p2, found),
    decreases s1.len() - p1,
{
    lemma_same_rest(s1, p1, s2, p2, 0);
    if 0 <= r < table.containers.len() && table.containers[r] is Struct
        && table.containers[r]->root is Some && p1 < s1.len() {
        lemma_same_rest(s1, p1, s2, p2, 1);
        let root = table.containers[r]->root->0@;
        let tns = table.containers[r]->Struct_tns;
        match s1[p1] {
            EventView::Start(t) => if tag_matches(tns, root, t) {
                lemma_container_rest(table, r, root, t.attributes, false, s1, p1 + 1, s2, p2 + 1);
                let value = decode_container(table, r, root, t.attributes, false, s1, p1 + 1);
                if value.outcome is Ok && p1 < value.next <= s1.len() {
                    lemma_same_rest(s1, p1, s2, p2, value.next - p1);
                    lemma_root_rest(
                        table,
                        r,
                        s1,
                        value.next,
                        s2,
                        value.next - p1 + p2,
                        Some(value.outcome->Ok_0),
                    );
                }
            } else if !root_partition(tns, t.namespace) {
                lemma_root_rest(table, r, s1, p1 + 1, s2, p2 + 1, found);
            } else {
                lemma_skip_end_rest(s1, p1 + 1, s2, p2 + 1, 0);
                match skip_end(s1, p1 + 1, 0) {
                    Some(next) => if p1 < next <= s1.len() {
                        lemma_same_rest(s1, p1, s2, p2, next - p1);
                        lemma_root_rest(table, r, s1, next, s2, next - p1 + p2, found);
                    },
                    None => {},
                }
            },
            EventView::Empty(t) => if tag_matches(tns, root, t) {
                lemma_container_rest(table, r, root, t.attributes, true, s1, p1 + 1, s2, p2 + 1);
                let value = decode_container(table, r, root, t.attributes, true, s1, p1 + 1);
                if value.outcome is Ok && p1 < value.next <= s1.len() {
                    lemma_same_rest(s1, p1, s2, p2, value.next - p1);
                    lemma_root_rest(
                        table,
                        r,
                        s1,
                        value.next,
                        s2,
                        value.next - p1 + p2,
                        Some(value.outcome->Ok_0),
                    );
                }
            } else {
                lemma_root_rest(table, r, s1, p1 + 1, s2, p2 + 1, found);
            },
            EventView::Eof | EventView::Malformed => {},
            _ => lemma_root_rest(table, r, s1, p1 + 1, s2, p2 + 1, found),
        }
    }
}

} // verus!
