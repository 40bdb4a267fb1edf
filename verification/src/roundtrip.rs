//! Round trip: what a value is written as is read back as that value.

use crate::container::EleType;
use crate::de::{
    assign, attribute_matches, close_container, decode_attributes, decode_child, decode_children,
    decode_container, decode_field, decode_payload, decode_root, decode_stream, decode_text_content,
    decode_variant, end_matches, field_matches, field_scalar, final_value, find_attribute,
    find_field, find_kind, find_missing, find_variant, finish, initial_slot, initial_slots,
    is_missing, ns_matches, payload_scalar, scalar_of_text, tag_matches, zero_field, Decoded,
    Dispatched, ErrorView, Progress,
};
use crate::descriptor::{
    fields_wf, same_name, Bindings, Cardinality, ContainerDescriptor, FieldDescriptor, Namespace,
    ValueKind, VariantDescriptor,
};
use crate::event::{AttributeView, EventView, NamespaceView, TagView, TextError};
use crate::readback::{
    attributes_read, bound_to, end_read, lemma_escaping_round_trip, lemma_markup_read_concat,
    lemma_markup_read_one, lemma_text_read, markup_read, open_behind_markup, piece_read, resolve,
    scope_with, stable_text, tag_read, top, Binding, Scope,
};
use crate::ser::{
    attribute_key, attribute_of, attributes_from, encode_child, encode_children, encode_container,
    encode_document, encode_items, encode_one, encode_variant, escaped, has_element_fields,
    is_element_field, plain_tag, qualified, scalar_text, text_content, text_element,
    MarkupAttributeView, MarkupTagView, MarkupView,
};
use crate::text::{lemma_first_index_is, local_part};
use crate::theorems::{
    lemma_children_rest, lemma_scalar_round_trip, lemma_scalar_text_shape, lemma_variant_rest,
};
use crate::value::ValueView;
use vstd::prelude::*;

verus! {

/// Whether `v` is a scalar of the given kind that its text writes: a text, a
/// boolean, or an integer in the range of its type.
pub open spec fn plain_scalar(kind: ValueKind, v: ValueView) -> bool {
    &&& scalar_text(kind, v) is Some
    &&& kind matches ValueKind::Number(ty) ==> ty.spec_is_integer() && ty.spec_min()
        <= v->Number_0 <= ty.spec_max()
}

/// What a name resolves to where it is read as its descriptor means it:
/// bound to the namespace of the descriptor, or unbound for a descriptor
/// without one.
pub open spec fn expected(ns: Option<Namespace>) -> NamespaceView {
    match ns {
        Some(n) => NamespaceView::Bound(n.uri@),
        None => NamespaceView::Unbound,
    }
}

/// The tag of this name as its descriptor means it, without attributes.
pub open spec fn own_tag_of(ns: Option<Namespace>, name: Seq<u8>) -> TagView {
    TagView { namespace: expected(ns), name: qualified(ns, name), attributes: Seq::empty() }
}

/// The tag under which a field is met.
pub open spec fn own_tag(f: FieldDescriptor) -> TagView {
    own_tag_of(f.ns, f.name_or_empty())
}

/// Whether a name is read in `scope` as its descriptor means it: the
/// written name has `name` for its local part, and resolves to the namespace
/// of the descriptor, or to none for a descriptor without one.
pub open spec fn resolves(scope: Scope, ns: Option<Namespace>, name: Seq<u8>) -> bool {
    &&& local_part(qualified(ns, name)) == name
    &&& resolve(scope, qualified(ns, name)) == expected(ns)
}

/// Whether the field `k`, which is written as an attribute, is read back
/// from what it is written as. A constant holds its constant, and no field
/// reads the attribute it is written as. Any other attribute holds one scalar
/// at most and is the first field to answer to its name.
pub open spec fn faithful_attribute(fields: Seq<FieldDescriptor>, k: int, v: ValueView) -> bool {
    let f = fields[k];
    if f.value is Some {
        &&& v == ValueView::Text(f.value->0@)
        &&& find_attribute(fields, local_part(attribute_key(f)), 0) is None
    } else {
        &&& f.ty == EleType::Attr
        &&& f.cardinality != Cardinality::Repeated
        &&& !(f.value_kind is NestedBindable)
        &&& local_part(attribute_key(f)) == f.name_or_empty()
        &&& find_attribute(fields, f.name_or_empty(), 0) == Some(k)
        &&& if v is Absent {
            f.cardinality == Cardinality::Optional
        } else {
            plain_scalar(f.value_kind, v)
        }
    }
}

/// Whether the field is written as an attribute.
pub open spec fn is_attribute_field(f: FieldDescriptor) -> bool {
    f.ty == EleType::Attr || f.ty == EleType::XmlNs
}

/// What the slot of a field holds once the attributes are read.
pub open spec fn attribute_slot(f: FieldDescriptor, v: ValueView) -> ValueView {
    if f.ty == EleType::Attr && f.value is None {
        v
    } else {
        initial_slot(f)
    }
}

/// The slots once the attributes of the fields before `k` are read.
pub open spec fn slots_behind_attributes(
    fields: Seq<FieldDescriptor>,
    values: Seq<ValueView>,
    k: int,
) -> Seq<ValueView> {
    Seq::new(
        fields.len(),
        |i: int|
            if i < k {
                attribute_slot(fields[i], values[i])
            } else {
                initial_slot(fields[i])
            },
    )
}

/// Whether each field has a name, each field that is written as an
/// attribute is faithful, and no other field holds a constant.
pub open spec fn faithful_attributes(fields: Seq<FieldDescriptor>, values: Seq<ValueView>) -> bool {
    &&& values.len() == fields.len()
    &&& forall|i: int|
        0 <= i < fields.len() ==> (#[trigger] fields[i]).name is Some && if is_attribute_field(
            fields[i],
        ) {
            faithful_attribute(fields, i, values[i])
        } else {
            fields[i].value is None
        }
}

proof fn lemma_attributes_read_behind(
    fields: Seq<FieldDescriptor>,
    values: Seq<ValueView>,
    k: int,
    read: Seq<AttributeView>,
    j: int,
)
    requires
        faithful_attributes(fields, values),
        0 <= k <= fields.len(),
        0 <= j <= read.len(),
        attributes_from(fields, values, k) is Ok,
        read.skip(j) == attributes_read(attributes_from(fields, values, k)->Ok_0),
    ensures
        decode_attributes(fields, read, j, slots_behind_attributes(fields, values, k)) == Ok::<
            Seq<ValueView>,
            ErrorView,
        >(slots_behind_attributes(fields, values, fields.len() as int)),
    decreases fields.len() - k,
{
    let slots = slots_behind_attributes(fields, values, k);
    let written = attributes_from(fields, values, k)->Ok_0;
    if k >= fields.len() {
        assert(written.len() == 0);
        assert(read.skip(j).len() == 0);
        assert(j == read.len());
    } else {
        let f = fields[k];
        let v = values[k];
        assert(f.name is Some);
        let rest = attributes_from(fields, values, k + 1)->Ok_0;
        let next = slots_behind_attributes(fields, values, k + 1);
        match attribute_of(f, v)->Ok_0 {
            None => {
                assert(written == rest);
                if is_attribute_field(f) {
                    assert(faithful_attribute(fields, k, v));
                }
                assert(next =~= slots);
                lemma_attributes_read_behind(fields, values, k + 1, read, j);
            },
            Some(a) => {
                assert(is_attribute_field(f));
                assert(faithful_attribute(fields, k, v));
                assert(written == seq![a] + rest);
                assert(attributes_read(written).len() == written.len());
                assert(read.skip(j)[0] == attributes_read(written)[0]);
                assert(j < read.len());
                assert(read[j] == read.skip(j)[0]);
                assert(a.key == attribute_key(f));
                assert(read[j].key == attribute_key(f));
                assert(read.skip(j + 1) =~= read.skip(j).skip(1));
                assert(attributes_read(written).skip(1) =~= attributes_read(rest));
                if f.value is Some {
                    assert(find_attribute(fields, local_part(read[j].key), 0) is None);
                    assert(next =~= slots);
                } else {
                    let text = scalar_text(f.value_kind, v)->0;
                    assert(a.value == escaped(text));
                    lemma_escaping_round_trip(text);
                    lemma_scalar_round_trip(f.value_kind, v);
                    assert(read[j].value == Ok::<Seq<u8>, TextError>(text));
                    assert(find_attribute(fields, local_part(read[j].key), 0) == Some(k));
                    assert(field_scalar(f, read[j].value) == Ok::<ValueView, ErrorView>(v));
                    assert(assign(slots, k, f.cardinality, v) =~= next);
                }
                lemma_attributes_read_behind(fields, values, k + 1, read, j + 1);
            },
        }
    }
}

/// Whether the container `r` is written with an opening and a closing
/// tag: a struct container that has a text field or element fields, and any
/// enum container.
pub open spec fn opens(table: &Bindings, r: int) -> bool {
    &&& 0 <= r < table.containers.len()
    &&& match table.containers[r] {
        ContainerDescriptor::Struct { fields, .. } => find_kind(fields@, EleType::Text, 0) is Some
            || has_element_fields(fields@, 0),
        ContainerDescriptor::Enum { .. } => true,
    }
}

/// The opening tag of a value of the container `r`: its name and, for a
/// struct container, its attributes.
pub open spec fn opening(table: &Bindings, r: int, tag: Seq<u8>, v: ValueView) -> MarkupTagView {
    match table.containers[r] {
        ContainerDescriptor::Struct { fields, .. } => MarkupTagView {
            name: tag,
            attributes: attributes_from(fields@, v->Struct_0, 0)->Ok_0,
        },
        ContainerDescriptor::Enum { .. } => plain_tag(tag),
    }
}

/// The scope inside the element of a value of the container `r` that is
/// written in `scope`.
pub open spec fn inner_scope(
    table: &Bindings,
    r: int,
    tag: Seq<u8>,
    v: ValueView,
    scope: Scope,
) -> Scope {
    scope_with(scope, opening(table, r, tag, v).attributes)
}

/// Whether the closing tag of the field would be taken for that of the
/// container it stands in, which has this target namespace and local tag.
pub open spec fn closes(tns: Option<Namespace>, tag: Seq<u8>, ns: Option<Namespace>, name: Seq<u8>) -> bool {
    name == tag && ns_matches(tns, expected(ns))
}

/// Whether one occurrence of the element field `f`, written in `scope`
/// inside a container with this target namespace and local tag, is read back
/// from what it is written as.
///
/// Its name resolves as the field means it. A nested container opens, and
/// its value is faithful under the field's name. A boolean that stands for the
/// presence of an empty element is `true` unless the field is required. Any
/// other scalar is a child whose closing tag is not taken for the
/// container's, and a text among them is stable.
pub open spec fn faithful_one(
    table: &Bindings,
    f: FieldDescriptor,
    tns: Option<Namespace>,
    tag: Seq<u8>,
    v: ValueView,
    scope: Scope,
) -> bool
    decreases v, 1nat,
{
    let name = f.name_or_empty();
    let written = qualified(f.ns, name);
    if f.value_kind is NestedBindable {
        let r = f.value_kind->NestedBindable_0 as int;
        &&& f.ty == EleType::Child
        &&& name.len() > 0
        &&& opens(table, r)
        &&& faithful(table, r, written, v, scope)
        &&& resolves(inner_scope(table, r, written, v, scope), f.ns, name)
    } else if f.ty == EleType::SelfClosedChild {
        &&& f.value_kind is Bool
        &&& v is Bool
        &&& f.cardinality == Cardinality::Required || v == ValueView::Bool(true)
        &&& v == ValueView::Bool(true) ==> resolves(scope, f.ns, name)
    } else {
        &&& f.ty == EleType::Child
        &&& plain_scalar(f.value_kind, v)
        &&& resolves(scope, f.ns, name)
        &&& !closes(tns, tag, f.ns, name)
        &&& v matches ValueView::Text(t) ==> stable_text(t)
    }
}

/// Whether the value of the element field `f` is read back from what it
/// is written as: each of its occurrences is.
pub open spec fn faithful_child(
    table: &Bindings,
    f: FieldDescriptor,
    tns: Option<Namespace>,
    tag: Seq<u8>,
    v: ValueView,
    scope: Scope,
) -> bool
    decreases v, 2nat,
{
    match f.cardinality {
        Cardinality::Repeated => match v {
            ValueView::List(items) => forall|j: int|
                0 <= j < items.len() ==> faithful_one(table, f, tns, tag, #[trigger] items[j], scope),
            _ => false,
        },
        Cardinality::Optional => v is Absent || faithful_one(table, f, tns, tag, v, scope),
        Cardinality::Required => faithful_one(table, f, tns, tag, v, scope),
    }
}

/// Whether the text field `k` is read back from what it is written as: it
/// holds one scalar at most, which is not written as the empty text, and all
/// other fields of its container are written as attributes.
pub open spec fn faithful_text(fields: Seq<FieldDescriptor>, k: int, v: ValueView) -> bool {
    let f = fields[k];
    &&& f.cardinality != Cardinality::Repeated
    &&& !(f.value_kind is NestedBindable)
    &&& forall|j: int|
        0 <= j < fields.len() && j != k ==> is_attribute_field(#[trigger] fields[j])
    &&& if v is Absent {
        f.cardinality == Cardinality::Optional
    } else {
        &&& plain_scalar(f.value_kind, v)
        &&& v matches ValueView::Text(t) ==> stable_text(t) && t.len() > 0
    }
}

/// Whether the value of field `k` is read back from what it is written as.
pub open spec fn faithful_field(
    table: &Bindings,
    fields: Seq<FieldDescriptor>,
    k: int,
    tns: Option<Namespace>,
    tag: Seq<u8>,
    v: ValueView,
    scope: Scope,
) -> bool
    decreases v, 3nat,
{
    let f = fields[k];
    match f.ty {
        EleType::Attr => true,
        EleType::XmlNs => true,
        EleType::Text => faithful_text(fields, k, v),
        EleType::Child => find_field(fields, f.ty, own_tag(f), 0) == Some(k) && faithful_child(
            table,
            f,
            tns,
            tag,
            v,
            scope,
        ),
        EleType::SelfClosedChild => find_field(fields, f.ty, own_tag(f), 0) == Some(k)
            && faithful_child(table, f, tns, tag, v, scope),
        _ => false,
    }
}

/// Whether each value is faithful for its field.
pub open spec fn faithful_fields(
    table: &Bindings,
    fields: Seq<FieldDescriptor>,
    tns: Option<Namespace>,
    tag: Seq<u8>,
    values: Seq<ValueView>,
    scope: Scope,
) -> bool
    decreases values, 0nat,
{
    forall|k: int|
        0 <= k < values.len() ==> faithful_field(
            table,
            fields,
            k,
            tns,
            tag,
            #[trigger] values[k],
            scope,
        )
}

/// Whether the payload of variant `j`, written in `scope` inside a
/// container with this target namespace and local tag, is read back from what
/// it is written as.
///
/// The variant has a name, which resolves as the variant means it, and is
/// the first to answer to it. A variant without payload holds nothing, a
/// boolean is `true`, a nested container is faithful under the variant's
/// name, and any other scalar is not written as the empty text, and its
/// closing tag is not taken for the container's.
pub open spec fn faithful_variant(
    table: &Bindings,
    variants: Seq<VariantDescriptor>,
    j: int,
    tns: Option<Namespace>,
    tag: Seq<u8>,
    payload: ValueView,
    scope: Scope,
) -> bool
    decreases payload, 1nat,
{
    let d = variants[j];
    let written = qualified(d.ns, d.name@);
    &&& d.name@.len() > 0
    &&& find_variant(variants, own_tag_of(d.ns, d.name@), 0) == Some(j)
    &&& match d.payload {
        None => payload is Absent && resolves(scope, d.ns, d.name@),
        Some(ValueKind::NestedBindable(r)) => {
            &&& faithful(table, r as int, written, payload, scope)
            &&& resolves(inner_scope(table, r as int, written, payload, scope), d.ns, d.name@)
        },
        Some(ValueKind::Bool) => payload == ValueView::Bool(true) && resolves(scope, d.ns, d.name@),
        Some(kind) => {
            &&& plain_scalar(kind, payload)
            &&& resolves(scope, d.ns, d.name@)
            &&& !closes(tns, tag, d.ns, d.name@)
            &&& payload matches ValueView::Text(t) ==> stable_text(t) && t.len() > 0
        },
    }
}

/// Whether the value `v` of the container `r`, written under the name
/// `written` in `scope`, is read back from what it is written as.
///
/// The closing tag resolves to the target namespace of the container, and
/// `v` holds a faithful value for each field of a struct container, or a
/// faithful payload for a variant of an enum container: names resolve as
/// their descriptors mean them, no two fields of a kind answer to one name,
/// numbers are integers in range, texts do not begin or end with white space.
pub open spec fn faithful(
    table: &Bindings,
    r: int,
    written: Seq<u8>,
    v: ValueView,
    scope: Scope,
) -> bool
    decreases v, 0nat,
{
    &&& 0 <= r < table.containers.len()
    &&& match (table.containers[r], v) {
        (ContainerDescriptor::Struct { fields, tns, .. }, ValueView::Struct(values)) => {
            &&& attributes_from(fields@, values, 0) is Ok
            &&& ns_matches(
                tns,
                resolve(scope_with(scope, attributes_from(fields@, values, 0)->Ok_0), written),
            )
            &&& faithful_attributes(fields@, values)
            &&& faithful_fields(
                table,
                fields@,
                tns,
                local_part(written),
                values,
                scope_with(scope, attributes_from(fields@, values, 0)->Ok_0),
            )
        },
        (ContainerDescriptor::Enum { variants, tns, .. }, ValueView::Variant(j, payload)) => {
            &&& local_part(written).len() > 0 ==> ns_matches(tns, resolve(scope, written))
            &&& j < variants.len()
            &&& faithful_variant(
                table,
                variants@,
                j as int,
                tns,
                local_part(written),
                *payload,
                scope,
            )
        },
        _ => false,
    }
}

/// What the slot of a field holds once its container is read.
pub open spec fn final_slot(f: FieldDescriptor, v: ValueView) -> ValueView {
    if f.value is Some {
        initial_slot(f)
    } else if f.ty == EleType::SelfClosedChild && v == ValueView::Bool(false) {
        ValueView::Absent
    } else {
        v
    }
}

/// The slots once the attributes and the element fields before `k` are read.
pub open spec fn slots_before(fields: Seq<FieldDescriptor>, values: Seq<ValueView>, k: int) -> Seq<
    ValueView,
> {
    Seq::new(
        fields.len(),
        |i: int|
            if is_attribute_field(fields[i]) || i < k {
                final_slot(fields[i], values[i])
            } else {
                initial_slot(fields[i])
            },
    )
}

proof fn lemma_none_missing(fields: Seq<FieldDescriptor>, slots: Seq<ValueView>, from: int)
    requires
        0 <= from,
        forall|i: int| from <= i < fields.len() ==> !is_missing(fields[i], slots[i]),
    ensures
        find_missing(fields, slots, from) is None,
    decreases fields.len() - from,
{
    if from < fields.len() {
        lemma_none_missing(fields, slots, from + 1);
    }
}

proof fn lemma_final_value(
    table: &Bindings,
    fields: Seq<FieldDescriptor>,
    tns: Option<Namespace>,
    tag: Seq<u8>,
    values: Seq<ValueView>,
    scope: Scope,
    i: int,
)
    requires
        faithful_attributes(fields, values),
        faithful_fields(table, fields, tns, tag, values, scope),
        0 <= i < values.len(),
    ensures
        !is_missing(fields[i], final_slot(fields[i], values[i])),
        final_value(table, fields[i], final_slot(fields[i], values[i])) == values[i],
{
    let f = fields[i];
    let x = values[i];
    assert(f.name is Some);
    assert(faithful_field(table, fields, i, tns, tag, x, scope));
    reveal_with_fuel(zero_field, 1);
    match f.ty {
        EleType::Attr => {
            assert(faithful_attribute(fields, i, x));
        },
        EleType::XmlNs => {
            assert(faithful_attribute(fields, i, x));
        },
        EleType::Text => {},
        EleType::Child => {
            assert(faithful_child(table, f, tns, tag, x, scope));
        },
        EleType::SelfClosedChild => {
            assert(faithful_child(table, f, tns, tag, x, scope));
        },
        _ => {},
    }
}

proof fn lemma_finish(
    table: &Bindings,
    fields: Seq<FieldDescriptor>,
    tns: Option<Namespace>,
    tag: Seq<u8>,
    values: Seq<ValueView>,
    scope: Scope,
)
    requires
        faithful_attributes(fields, values),
        faithful_fields(table, fields, tns, tag, values, scope),
    ensures
        finish(table, fields, slots_before(fields, values, values.len() as int)) == Ok::<
            ValueView,
            ErrorView,
        >(ValueView::Struct(values)),
{
    let slots = slots_before(fields, values, values.len() as int);
    assert forall|i: int| 0 <= i < fields.len() implies !is_missing(fields[i], slots[i])
        && final_value(table, fields[i], slots[i]) == values[i] by {
        lemma_final_value(table, fields, tns, tag, values, scope, i);
    }
    lemma_none_missing(fields, slots, 0);
    assert(Seq::new(fields.len(), |i: int| final_value(table, fields[i], slots[i])) =~= values);
}

proof fn lemma_find_field_named(
    fields: Seq<FieldDescriptor>,
    kind: EleType,
    t1: TagView,
    t2: TagView,
    from: int,
)
    requires
        t1.name == t2.name,
        t1.namespace == t2.namespace,
    ensures
        find_field(fields, kind, t1, from) == find_field(fields, kind, t2, from),
    decreases fields.len() - from,
{
    if 0 <= from < fields.len() {
        lemma_find_field_named(fields, kind, t1, t2, from + 1);
    }
}

proof fn lemma_find_variant_named(
    variants: Seq<VariantDescriptor>,
    t1: TagView,
    t2: TagView,
    from: int,
)
    requires
        t1.name == t2.name,
        t1.namespace == t2.namespace,
    ensures
        find_variant(variants, t1, from) == find_variant(variants, t2, from),
    decreases variants.len() - from,
{
    if 0 <= from < variants.len() {
        lemma_find_variant_named(variants, t1, t2, from + 1);
    }
}

proof fn lemma_scope_with_nothing(scope: Scope)
    ensures
        scope_with(scope, Seq::<MarkupAttributeView>::empty()) == scope,
        attributes_read(Seq::<MarkupAttributeView>::empty()) == Seq::<AttributeView>::empty(),
{
    assert(attributes_read(Seq::<MarkupAttributeView>::empty()) =~= Seq::<AttributeView>::empty());
}

/// A tag without attributes whose name resolves as its descriptor means it
/// is read as the descriptor's own tag, opening and closing.
proof fn lemma_plain_tag_read(scope: Scope, ns: Option<Namespace>, name: Seq<u8>)
    requires
        resolves(scope, ns, name),
    ensures
        tag_read(plain_tag(qualified(ns, name)), scope) == own_tag_of(ns, name),
        end_read(qualified(ns, name), scope) == own_tag_of(ns, name),
{
    lemma_scope_with_nothing(scope);
}

/// An element is read as its opening tag, what it holds, read inside it,
/// and its closing tag, read in the scope of the element; behind it the same
/// elements are open as before it.
proof fn lemma_element_read(
    open: MarkupTagView,
    inner: Seq<MarkupView>,
    tag: Seq<u8>,
    st: Seq<Scope>,
)
    requires
        open_behind_markup(inner, st.push(scope_with(top(st), open.attributes))) == st.push(
            scope_with(top(st), open.attributes),
        ),
    ensures
        markup_read(seq![MarkupView::Start(open)] + inner + seq![MarkupView::End(tag)], st) == seq![
            EventView::Start(tag_read(open, top(st))),
        ] + markup_read(inner, st.push(scope_with(top(st), open.attributes))) + seq![
            EventView::End(end_read(tag, scope_with(top(st), open.attributes))),
        ],
        open_behind_markup(
            seq![MarkupView::Start(open)] + inner + seq![MarkupView::End(tag)],
            st,
        ) == st,
{
    let within = st.push(scope_with(top(st), open.attributes));
    lemma_markup_read_concat(seq![MarkupView::Start(open)] + inner, seq![MarkupView::End(tag)], st);
    lemma_markup_read_concat(seq![MarkupView::Start(open)], inner, st);
    lemma_markup_read_one(MarkupView::Start(open), st);
    lemma_markup_read_one(MarkupView::End(tag), within);
    assert(top(within) == scope_with(top(st), open.attributes));
    assert(within.drop_last() =~= st);
}

/// What the slots hold after one more occurrence of field `k`.
pub open spec fn occurred(slots: Seq<ValueView>, k: int, f: FieldDescriptor, v: ValueView) -> Seq<
    ValueView,
> {
    if f.ty == EleType::SelfClosedChild && v == ValueView::Bool(false) {
        slots
    } else {
        assign(slots, k, f.cardinality, v)
    }
}

/// Whether reading `front + rest` from its start comes to what reading
/// `rest` from its start comes to once the slots are `after`.
pub open spec fn reads_on(
    table: &Bindings,
    r: int,
    tag: Seq<u8>,
    front: Seq<EventView>,
    rest: Seq<EventView>,
    slots: Seq<ValueView>,
    after: Seq<ValueView>,
) -> bool {
    let whole = decode_children(table, r, tag, front + rest, 0, slots);
    let behind = decode_children(table, r, tag, rest, 0, after);
    whole.slots == behind.slots && whole.next == behind.next + front.len()
}

/// The element at the start of the stream is an occurrence of field `k`
/// where the field is the first to answer to its tag.
proof fn lemma_child_step(
    table: &Bindings,
    r: int,
    tag: Seq<u8>,
    s: Seq<EventView>,
    k: int,
    t: TagView,
    is_empty: bool,
    v: ValueView,
    next: int,
    slots: Seq<ValueView>,
)
    requires
        0 <= r < table.containers.len(),
        table.containers[r] is Struct,
        s.len() > 0,
        s[0] == if is_empty {
            EventView::Empty(t)
        } else {
            EventView::Start(t)
        },
        find_field(
            table.containers[r]->fields@,
            if is_empty {
                EleType::SelfClosedChild
            } else {
                EleType::Child
            },
            t,
            0,
        ) == Some(k),
        decode_field(table, table.containers[r]->fields@[k], t, is_empty, s, 1) == (Decoded {
            outcome: Ok(v),
            next,
        }),
        !(v is Absent),
        0 < next <= s.len(),
    ensures
        decode_children(table, r, tag, s, 0, slots) == decode_children(
            table,
            r,
            tag,
            s,
            next,
            assign(slots, k, table.containers[r]->fields@[k].cardinality, v),
        ),
{
    let fields = table.containers[r]->fields@;
    let after = assign(slots, k, fields[k].cardinality, v);
    let step = decode_child(table, fields, t, is_empty, s, 1, slots);
    assert(step == Progress { slots: Ok(after), next });
}

/// A closing tag that does not end the container is passed over.
proof fn lemma_end_step(
    table: &Bindings,
    r: int,
    tag: Seq<u8>,
    s: Seq<EventView>,
    pos: int,
    end: TagView,
    slots: Seq<ValueView>,
)
    requires
        0 <= r < table.containers.len(),
        table.containers[r] is Struct,
        0 <= pos < s.len(),
        s[pos] == EventView::End(end),
        !end_matches(table.containers[r], tag, end),
    ensures
        decode_children(table, r, tag, s, pos, slots) == decode_children(
            table,
            r,
            tag,
            s,
            pos + 1,
            slots,
        ),
{
}

/// Behind `front` the stream `front + rest` is read as `rest` is.
proof fn lemma_reads_behind(
    table: &Bindings,
    r: int,
    tag: Seq<u8>,
    front: Seq<EventView>,
    rest: Seq<EventView>,
    after: Seq<ValueView>,
)
    ensures
        ({
            let whole = decode_children(table, r, tag, front + rest, front.len() as int, after);
            let behind = decode_children(table, r, tag, rest, 0, after);
            whole.slots == behind.slots && whole.next == behind.next + front.len()
        }),
{
    let s = front + rest;
    assert(s.skip(front.len() as int) =~= rest.skip(0));
    lemma_children_rest(table, r, tag, s, front.len() as int, rest, 0, after);
}

/// The events of an element that holds text.
proof fn lemma_text_element_read(
    ns: Option<Namespace>,
    name: Seq<u8>,
    text: Seq<u8>,
    st: Seq<Scope>,
)
    requires
        stable_text(text),
        resolves(top(st), ns, name),
    ensures
        markup_read(text_element(qualified(ns, name), escaped(text)), st) == if text.len() == 0 {
            seq![EventView::Start(own_tag_of(ns, name)), EventView::End(own_tag_of(ns, name))]
        } else {
            seq![
                EventView::Start(own_tag_of(ns, name)),
                EventView::Text(Ok(text)),
                EventView::End(own_tag_of(ns, name)),
            ]
        },
        open_behind_markup(text_element(qualified(ns, name), escaped(text)), st) == st,
{
    let written = qualified(ns, name);
    let held = MarkupView::Text(escaped(text));
    let m = text_element(written, escaped(text));
    let open = plain_tag(written);
    lemma_scope_with_nothing(top(st));
    let within = st.push(top(st));
    assert(m =~= seq![MarkupView::Start(open)] + seq![held] + seq![MarkupView::End(written)]);
    lemma_markup_read_one(held, within);
    lemma_element_read(open, seq![held], written, st);
    lemma_plain_tag_read(top(st), ns, name);
    let t = own_tag_of(ns, name);
    let e = markup_read(m, st);
    if text.len() == 0 {
        assert(escaped(text) =~= Seq::<u8>::empty());
        assert(piece_read(held, within) =~= Seq::<EventView>::empty());
        assert(e =~= seq![EventView::Start(t), EventView::End(t)]);
    } else {
        lemma_text_read(text);
        assert(piece_read(held, within) == seq![EventView::Text(Ok(text))]);
        assert(e =~= seq![EventView::Start(t), EventView::Text(Ok(text)), EventView::End(t)]);
    }
}

/// The events of an empty element without attributes.
proof fn lemma_empty_element_read(ns: Option<Namespace>, name: Seq<u8>, st: Seq<Scope>)
    requires
        resolves(top(st), ns, name),
    ensures
        markup_read(seq![MarkupView::Empty(plain_tag(qualified(ns, name)))], st) == seq![
            EventView::Empty(own_tag_of(ns, name)),
        ],
        open_behind_markup(seq![MarkupView::Empty(plain_tag(qualified(ns, name)))], st) == st,
{
    lemma_markup_read_one(MarkupView::Empty(plain_tag(qualified(ns, name))), st);
    lemma_plain_tag_read(top(st), ns, name);
}

proof fn lemma_self_closed_child_read(
    table: &Bindings,
    r: int,
    tag: Seq<u8>,
    k: int,
    rest: Seq<EventView>,
    slots: Seq<ValueView>,
)
    requires
        0 <= r < table.containers.len(),
        table.containers[r] is Struct,
        0 <= k < table.containers[r]->fields@.len(),
        table.containers[r]->fields@[k].ty == EleType::SelfClosedChild,
        table.containers[r]->fields@[k].value_kind is Bool,
        find_field(
            table.containers[r]->fields@,
            EleType::SelfClosedChild,
            own_tag(table.containers[r]->fields@[k]),
            0,
        ) == Some(k),
    ensures
        reads_on(
            table,
            r,
            tag,
            seq![EventView::Empty(own_tag(table.containers[r]->fields@[k]))],
            rest,
            slots,
            assign(
                slots,
                k,
                table.containers[r]->fields@[k].cardinality,
                ValueView::Bool(true),
            ),
        ),
{
    let fields = table.containers[r]->fields@;
    let f = fields[k];
    let t = own_tag(f);
    let front = seq![EventView::Empty(t)];
    let s = front + rest;
    let after = assign(slots, k, f.cardinality, ValueView::Bool(true));
    assert(s[0] == EventView::Empty(t));
    assert(decode_field(table, f, t, true, s, 1) == Decoded {
        outcome: Ok(ValueView::Bool(true)),
        next: 1,
    });
    lemma_child_step(table, r, tag, s, k, t, true, ValueView::Bool(true), 1, slots);
    lemma_reads_behind(table, r, tag, front, rest, after);
}

proof fn lemma_text_child_read(
    table: &Bindings,
    r: int,
    tag: Seq<u8>,
    k: int,
    v: ValueView,
    text: Seq<u8>,
    rest: Seq<EventView>,
    slots: Seq<ValueView>,
)
    requires
        0 <= r < table.containers.len(),
        table.containers[r] is Struct,
        0 <= k < table.containers[r]->fields@.len(),
        table.containers[r]->fields@[k].ty == EleType::Child,
        !(table.containers[r]->fields@[k].value_kind is NestedBindable),
        !end_matches(table.containers[r], tag, own_tag(table.containers[r]->fields@[k])),
        find_field(
            table.containers[r]->fields@,
            EleType::Child,
            own_tag(table.containers[r]->fields@[k]),
            0,
        ) == Some(k),
        text.len() > 0,
        !(v is Absent),
        scalar_of_text(table.containers[r]->fields@[k].value_kind, text) == Some(v),
    ensures
        reads_on(
            table,
            r,
            tag,
            seq![
                EventView::Start(own_tag(table.containers[r]->fields@[k])),
                EventView::Text(Ok(text)),
                EventView::End(own_tag(table.containers[r]->fields@[k])),
            ],
            rest,
            slots,
            assign(slots, k, table.containers[r]->fields@[k].cardinality, v),
        ),
{
    let fields = table.containers[r]->fields@;
    let f = fields[k];
    let t = own_tag(f);
    let front = seq![EventView::Start(t), EventView::Text(Ok(text)), EventView::End(t)];
    let s = front + rest;
    let after = assign(slots, k, f.cardinality, v);
    assert(s[0] == EventView::Start(t));
    assert(s[1] == EventView::Text(Ok(text)));
    assert(s[2] == EventView::End(t));
    assert(decode_field(table, f, t, false, s, 1) == Decoded { outcome: Ok(v), next: 2 });
    lemma_child_step(table, r, tag, s, k, t, false, v, 2, slots);
    lemma_end_step(table, r, tag, s, 2, t, after);
    lemma_reads_behind(table, r, tag, front, rest, after);
}

proof fn lemma_empty_child_read(
    table: &Bindings,
    r: int,
    tag: Seq<u8>,
    k: int,
    rest: Seq<EventView>,
    slots: Seq<ValueView>,
)
    requires
        0 <= r < table.containers.len(),
        table.containers[r] is Struct,
        0 <= k < table.containers[r]->fields@.len(),
        table.containers[r]->fields@[k].ty == EleType::Child,
        table.containers[r]->fields@[k].value_kind is String,
        find_field(
            table.containers[r]->fields@,
            EleType::Child,
            own_tag(table.containers[r]->fields@[k]),
            0,
        ) == Some(k),
    ensures
        reads_on(
            table,
            r,
            tag,
            seq![
                EventView::Start(own_tag(table.containers[r]->fields@[k])),
                EventView::End(own_tag(table.containers[r]->fields@[k])),
            ],
            rest,
            slots,
            assign(
                slots,
                k,
                table.containers[r]->fields@[k].cardinality,
                ValueView::Text(Seq::empty()),
            ),
        ),
{
    let fields = table.containers[r]->fields@;
    let f = fields[k];
    let t = own_tag(f);
    let front = seq![EventView::Start(t), EventView::End(t)];
    let s = front + rest;
    let v = ValueView::Text(Seq::empty());
    let after = assign(slots, k, f.cardinality, v);
    assert(s[0] == EventView::Start(t));
    assert(s[1] == EventView::End(t));
    assert(decode_field(table, f, t, false, s, 1) == Decoded { outcome: Ok(v), next: 2 });
    lemma_child_step(table, r, tag, s, k, t, false, v, 2, slots);
    lemma_reads_behind(table, r, tag, front, rest, after);
}

proof fn lemma_scalar_child_read(
    table: &Bindings,
    r: int,
    tag: Seq<u8>,
    k: int,
    v: ValueView,
    st: Seq<Scope>,
    rest: Seq<EventView>,
    slots: Seq<ValueView>,
)
    requires
        0 <= r < table.containers.len(),
        table.containers[r] is Struct,
        0 <= k < table.containers[r]->fields@.len(),
        !(table.containers[r]->fields@[k].value_kind is NestedBindable),
        faithful_one(
            table,
            table.containers[r]->fields@[k],
            table.containers[r]->Struct_tns,
            tag,
            v,
            top(st),
        ),
        find_field(
            table.containers[r]->fields@,
            table.containers[r]->fields@[k].ty,
            own_tag(table.containers[r]->fields@[k]),
            0,
        ) == Some(k),
        encode_one(
            table,
            table.containers[r]->fields@[k],
            qualified(
                table.containers[r]->fields@[k].ns,
                table.containers[r]->fields@[k].name_or_empty(),
            ),
            v,
        ) is Ok,
    ensures
        reads_on(
            table,
            r,
            tag,
            markup_read(
                encode_one(
                    table,
                    table.containers[r]->fields@[k],
                    qualified(
                        table.containers[r]->fields@[k].ns,
                        table.containers[r]->fields@[k].name_or_empty(),
                    ),
                    v,
                )->Ok_0,
                st,
            ),
            rest,
            slots,
            occurred(slots, k, table.containers[r]->fields@[k], v),
        ),
        open_behind_markup(
            encode_one(
                table,
                table.containers[r]->fields@[k],
                qualified(
                    table.containers[r]->fields@[k].ns,
                    table.containers[r]->fields@[k].name_or_empty(),
                ),
                v,
            )->Ok_0,
            st,
        ) == st,
{
    let fields = table.containers[r]->fields@;
    let f = fields[k];
    let name = f.name_or_empty();
    let written = qualified(f.ns, name);
    let m = encode_one(table, f, written, v)->Ok_0;
    let e = markup_read(m, st);
    if f.ty == EleType::SelfClosedChild {
        if v->Bool_0 {
            assert(v == ValueView::Bool(true));
            assert(m == seq![MarkupView::Empty(plain_tag(written))]);
            lemma_empty_element_read(f.ns, name, st);
            lemma_self_closed_child_read(table, r, tag, k, rest, slots);
        } else {
            assert(v == ValueView::Bool(false));
            assert(m =~= Seq::<MarkupView>::empty());
            assert(e =~= Seq::<EventView>::empty());
            assert(e + rest =~= rest);
        }
    } else {
        let text = scalar_text(f.value_kind, v)->0;
        assert(m == text_element(written, escaped(text)));
        lemma_scalar_round_trip(f.value_kind, v);
        if !(f.value_kind is String) {
            lemma_scalar_text_shape(f.value_kind, v);
        }
        lemma_text_element_read(f.ns, name, text, st);
        assert(!end_matches(table.containers[r], tag, own_tag(f)));
        if text.len() == 0 {
            assert(text =~= Seq::<u8>::empty());
            lemma_empty_child_read(table, r, tag, k, rest, slots);
        } else {
            lemma_text_child_read(table, r, tag, k, v, text, rest, slots);
        }
    }
}

proof fn lemma_find_kind(fields: Seq<FieldDescriptor>, kind: EleType, from: int)
    requires
        0 <= from,
    ensures
        match find_kind(fields, kind, from) {
            Some(i) => from <= i < fields.len() && fields[i].ty == kind,
            None => forall|i: int| from <= i < fields.len() ==> (#[trigger] fields[i]).ty != kind,
        },
    decreases fields.len() - from,
{
    if from < fields.len() {
        lemma_find_kind(fields, kind, from + 1);
    }
}

proof fn lemma_no_element_fields(fields: Seq<FieldDescriptor>, from: int)
    requires
        0 <= from,
        !has_element_fields(fields, from),
    ensures
        forall|i: int| from <= i < fields.len() ==> !is_element_field(#[trigger] fields[i]),
    decreases fields.len() - from,
{
    if from < fields.len() {
        lemma_no_element_fields(fields, from + 1);
    }
}

/// Whether the variant holds a text or a number, which is written as text
/// inside its element.
pub open spec fn holds_text(d: VariantDescriptor) -> bool {
    d.payload matches Some(kind) && (kind is String || kind is Number)
}


/// A faithful value of a container is read back from what it is written
/// as, whatever is open around it and whatever follows: its element is decoded
/// to the value, the stream goes on behind the element, and the same elements
/// are open behind it as before it.
pub proof fn lemma_container_read(
    table: &Bindings,
    r: int,
    written: Seq<u8>,
    v: ValueView,
    st: Seq<Scope>,
    rest: Seq<EventView>,
)
    requires
        faithful(table, r, written, v, top(st)),
        table.containers[r] is Enum ==> local_part(written).len() > 0,
        encode_container(table, r, written, v) is Ok,
    ensures
        ({
            let markup = encode_container(table, r, written, v)->Ok_0;
            let events = markup_read(markup, st);
            let open = tag_read(opening(table, r, written, v), top(st));
            &&& events.len() > 0
            &&& events[0] == if opens(table, r) {
                EventView::Start(open)
            } else {
                EventView::Empty(open)
            }
            &&& decode_container(
                table,
                r,
                local_part(written),
                open.attributes,
                !opens(table, r),
                events + rest,
                1,
            ) == (Decoded { outcome: Ok(v), next: events.len() as int })
            &&& open_behind_markup(markup, st) == st
        }),
    decreases v, 0nat, 1nat,
{
    if table.containers[r] is Enum {
        lemma_enum_read(table, r, written, v, st, rest);
    } else {
        lemma_struct_read(table, r, written, v, st, rest);
    }
}

proof fn lemma_struct_read(
    table: &Bindings,
    r: int,
    written: Seq<u8>,
    v: ValueView,
    st: Seq<Scope>,
    rest: Seq<EventView>,
)
    requires
        faithful(table, r, written, v, top(st)),
        table.containers[r] is Struct,
        encode_container(table, r, written, v) is Ok,
    ensures
        ({
            let markup = encode_container(table, r, written, v)->Ok_0;
            let events = markup_read(markup, st);
            let open = tag_read(opening(table, r, written, v), top(st));
            &&& events.len() > 0
            &&& events[0] == if opens(table, r) {
                EventView::Start(open)
            } else {
                EventView::Empty(open)
            }
            &&& decode_container(
                table,
                r,
                local_part(written),
                open.attributes,
                !opens(table, r),
                events + rest,
                1,
            ) == (Decoded { outcome: Ok(v), next: events.len() as int })
            &&& open_behind_markup(markup, st) == st
        }),
    decreases v, 0nat, 0nat,
{
    let fields = table.containers[r]->fields@;
    let tns = table.containers[r]->Struct_tns;
    let tag = local_part(written);
    let values = v->Struct_0;
    let n = fields.len() as int;
    let m = encode_container(table, r, written, v)->Ok_0;
    let e = markup_read(m, st);
    let s = e + rest;
    let open = opening(table, r, written, v);
    let inner = scope_with(top(st), open.attributes);
    let within = st.push(inner);
    assert(top(within) == inner);
    let read = tag_read(open, top(st)).attributes;
    let first = slots_before(fields, values, 0);
    let last = slots_before(fields, values, n);
    let end = end_read(written, inner);
    assert(read.skip(0) =~= read);
    lemma_attributes_read_behind(fields, values, 0, read, 0);
    assert(slots_behind_attributes(fields, values, 0) =~= initial_slots(fields));
    assert(slots_behind_attributes(fields, values, n) =~= first) by {
        assert forall|i: int| 0 <= i < n implies slots_behind_attributes(fields, values, n)[i]
            == first[i] by {
            if is_attribute_field(fields[i]) {
                assert(faithful_attribute(fields, i, values[i]));
            }
        }
    }
    assert(decode_attributes(fields, read, 0, initial_slots(fields)) == Ok::<
        Seq<ValueView>,
        ErrorView,
    >(first));
    lemma_finish(table, fields, tns, tag, values, inner);
    lemma_find_kind(fields, EleType::Text, 0);
    match find_kind(fields, EleType::Text, 0) {
        Some(i) => {
            let f = fields[i];
            let x = values[i];
            assert(faithful_field(table, fields, i, tns, tag, x, inner));
            assert(faithful_text(fields, i, x));
            assert(f.value is None);
            assert(last =~= first.update(i, x)) by {
                assert forall|j: int| 0 <= j < n implies last[j] == first.update(i, x)[j] by {
                    if j != i {
                        assert(is_attribute_field(fields[j]));
                    }
                }
            }
            match text_content(f, x)->Ok_0 {
                None => {
                    assert(m =~= seq![MarkupView::Start(open)] + Seq::<MarkupView>::empty() + seq![
                        MarkupView::End(written),
                    ]);
                    lemma_element_read(open, Seq::empty(), written, st);
                    assert(e =~= seq![
                        EventView::Start(tag_read(open, top(st))),
                        EventView::End(end),
                    ]);
                    assert(s[1] == EventView::End(end));
                    assert(first.update(i, x) =~= first);
                    assert(decode_text_content(f, i, tag, s, 1, first) == Progress {
                        slots: Ok(first),
                        next: 2,
                    });
                },
                Some(text) => {
                    let held = MarkupView::Text(escaped(text));
                    assert(m =~= seq![MarkupView::Start(open)] + seq![held] + seq![
                        MarkupView::End(written),
                    ]);
                    lemma_markup_read_one(held, within);
                    lemma_element_read(open, seq![held], written, st);
                    lemma_scalar_round_trip(f.value_kind, x);
                    if !(f.value_kind is String) {
                        lemma_scalar_text_shape(f.value_kind, x);
                    }
                    lemma_text_read(text);
                    assert(piece_read(held, within) == seq![EventView::Text(Ok(text))]);
                    assert(e =~= seq![
                        EventView::Start(tag_read(open, top(st))),
                        EventView::Text(Ok(text)),
                        EventView::End(end),
                    ]);
                    assert(s[1] == EventView::Text(Ok(text)));
                    assert(s[2] == EventView::End(end));
                    assert(field_scalar(f, Ok(text)) == Ok::<ValueView, ErrorView>(x));
                    assert(assign(first, i, f.cardinality, x) == first.update(i, x));
                    assert(decode_text_content(f, i, tag, s, 2, last) == Progress {
                        slots: Ok(last),
                        next: 3,
                    });
                    assert(decode_text_content(f, i, tag, s, 1, first) == Progress {
                        slots: Ok(last),
                        next: 3,
                    });
                },
            }
        },
        None => {
            if has_element_fields(fields, 0) {
                let held = encode_children(table, fields, values, 0)->Ok_0;
                assert(m == seq![MarkupView::Start(open)] + held + seq![MarkupView::End(written)]);
                assert(end_matches(table.containers[r], tag, end));
                lemma_children_read(table, r, tag, values, 0, within, end, rest);
                lemma_element_read(open, held, written, st);
                let behind = markup_read(held, within) + seq![EventView::End(end)] + rest;
                assert(s.skip(1) =~= behind.skip(0));
                lemma_children_rest(table, r, tag, s, 1, behind, 0, first);
            } else {
                assert(m == seq![MarkupView::Empty(open)]);
                lemma_markup_read_one(MarkupView::Empty(open), st);
                lemma_no_element_fields(fields, 0);
                assert(last =~= first) by {
                    assert forall|j: int| 0 <= j < n implies last[j] == first[j] by {
                        assert(fields[j].name is Some);
                        assert(faithful_field(table, fields, j, tns, tag, values[j], inner));
                        assert(!is_element_field(fields[j]));
                    }
                }
            }
        },
    }
}

proof fn lemma_enum_read(
    table: &Bindings,
    r: int,
    written: Seq<u8>,
    v: ValueView,
    st: Seq<Scope>,
    rest: Seq<EventView>,
)
    requires
        faithful(table, r, written, v, top(st)),
        table.containers[r] is Enum,
        local_part(written).len() > 0,
        encode_container(table, r, written, v) is Ok,
    ensures
        ({
            let markup = encode_container(table, r, written, v)->Ok_0;
            let events = markup_read(markup, st);
            let open = tag_read(opening(table, r, written, v), top(st));
            &&& events.len() > 0
            &&& events[0] == EventView::Start(open)
            &&& decode_container(
                table,
                r,
                local_part(written),
                open.attributes,
                false,
                events + rest,
                1,
            ) == (Decoded { outcome: Ok(v), next: events.len() as int })
            &&& open_behind_markup(markup, st) == st
        }),
    decreases v, 0nat, 0nat,
{
    let variants = table.containers[r]->variants@;
    let tns = table.containers[r]->Enum_tns;
    let tag = local_part(written);
    let j = v->Variant_0;
    let payload = *v->Variant_1;
    let d = variants[j as int];
    let held = encode_variant(table, d, payload)->Ok_0;
    let m = encode_container(table, r, written, v)->Ok_0;
    let open = plain_tag(written);
    assert(m == seq![MarkupView::Start(open)] + held + seq![MarkupView::End(written)]);
    lemma_scope_with_nothing(top(st));
    let within = st.push(top(st));
    assert(top(within) == top(st));
    let end = end_read(written, top(st));
    let front = markup_read(held, within);
    let behind = seq![EventView::End(end)] + rest;
    lemma_variant_read(table, r, tag, j, payload, within, behind);
    lemma_element_read(open, held, written, st);
    let e = markup_read(m, st);
    let s = e + rest;
    let found = decode_variant(table, r, front + behind, 0);
    assert(s.skip(1) =~= (front + behind).skip(0));
    lemma_variant_rest(table, r, s, 1, front + behind, 0);
    let here = decode_variant(table, r, s, 1);
    assert(here.outcome == found.outcome);
    assert(here.next == found.next + 1);
    assert(v == ValueView::Variant(j, Box::new(payload)));
    let c = table.containers[r];
    let last = 1 + front.len() as int;
    assert(s[last] == EventView::End(end));
    assert(end_matches(c, tag, end));
    assert(close_container(c, tag, s, last) == Some(last + 1));
    if holds_text(d) {
        assert(here.next == last - 1);
        assert(s[last - 1] == front.last());
        assert(!end_matches(c, tag, own_tag_of(d.ns, d.name@)));
        assert(close_container(c, tag, s, last - 1) == close_container(c, tag, s, last));
    }
}

/// The element of a variant with a faithful payload is found and decoded
/// as that variant. A variant that holds text leaves its closing tag unread.
proof fn lemma_variant_read(
    table: &Bindings,
    r: int,
    tag: Seq<u8>,
    j: nat,
    payload: ValueView,
    st: Seq<Scope>,
    rest: Seq<EventView>,
)
    requires
        0 <= r < table.containers.len(),
        table.containers[r] is Enum,
        j < table.containers[r]->variants@.len(),
        faithful_variant(
            table,
            table.containers[r]->variants@,
            j as int,
            table.containers[r]->Enum_tns,
            tag,
            payload,
            top(st),
        ),
        encode_variant(table, table.containers[r]->variants@[j as int], payload) is Ok,
    ensures
        ({
            let d = table.containers[r]->variants@[j as int];
            let markup = encode_variant(table, d, payload)->Ok_0;
            let events = markup_read(markup, st);
            let found = decode_variant(table, r, events + rest, 0);
            &&& events.len() > 0
            &&& found.outcome == Ok::<ValueView, ErrorView>(
                ValueView::Variant(j, Box::new(payload)),
            )
            &&& if holds_text(d) {
                found.next == events.len() - 1 && events.last() == EventView::End(
                    own_tag_of(d.ns, d.name@),
                )
            } else {
                found.next == events.len()
            }
            &&& open_behind_markup(markup, st) == st
        }),
    decreases payload, 1nat, 0nat,
{
    let variants = table.containers[r]->variants@;
    let d = variants[j as int];
    let name = d.name@;
    let written = qualified(d.ns, name);
    let m = encode_variant(table, d, payload)->Ok_0;
    let e = markup_read(m, st);
    let s = e + rest;
    let own = own_tag_of(d.ns, name);
    match d.payload {
        None => {
            assert(m == seq![MarkupView::Empty(plain_tag(written))]);
            lemma_empty_element_read(d.ns, name, st);
            assert(s[0] == EventView::Empty(own));
            assert(decode_payload(table, d, j as int, own, true, s, 1) == Dispatched {
                outcome: Ok(Some(ValueView::Variant(j, Box::new(payload)))),
                next: 1,
            });
        },
        Some(ValueKind::NestedBindable(inner)) => {
            lemma_container_read(table, inner as int, written, payload, st, rest);
            let t = tag_read(opening(table, inner as int, written, payload), top(st));
            assert(t.namespace == own.namespace);
            lemma_find_variant_named(variants, t, own, 0);
            let nested = decode_container(
                table,
                inner as int,
                name,
                t.attributes,
                !opens(table, inner as int),
                s,
                1,
            );
            assert(nested == Decoded { outcome: Ok(payload), next: e.len() as int });
            assert(decode_payload(
                table,
                d,
                j as int,
                t,
                !opens(table, inner as int),
                s,
                1,
            ) == Dispatched {
                outcome: Ok(Some(ValueView::Variant(j, Box::new(payload)))),
                next: e.len() as int,
            });
            assert(s[0] == e[0]);
        },
        Some(ValueKind::Bool) => {
            assert(m == seq![MarkupView::Empty(plain_tag(written))]);
            lemma_empty_element_read(d.ns, name, st);
            assert(s[0] == EventView::Empty(own));
            assert(decode_payload(table, d, j as int, own, true, s, 1) == Dispatched {
                outcome: Ok(Some(ValueView::Variant(j, Box::new(payload)))),
                next: 1,
            });
        },
        Some(kind) => {
            let text = scalar_text(kind, payload)->0;
            assert(m == text_element(written, escaped(text)));
            lemma_scalar_round_trip(kind, payload);
            if !(kind is String) {
                lemma_scalar_text_shape(kind, payload);
            }
            lemma_text_element_read(d.ns, name, text, st);
            assert(s[0] == EventView::Start(own));
            assert(s[1] == EventView::Text(Ok(text)));
            assert(payload_scalar(kind, Ok(text)) == Ok::<ValueView, ErrorView>(payload));
            assert(decode_payload(table, d, j as int, own, false, s, 1) == Dispatched {
                outcome: Ok(Some(ValueView::Variant(j, Box::new(payload)))),
                next: 2,
            });
        },
    }
}

proof fn lemma_children_read(
    table: &Bindings,
    r: int,
    tag: Seq<u8>,
    values: Seq<ValueView>,
    k: int,
    st: Seq<Scope>,
    end: TagView,
    rest: Seq<EventView>,
)
    requires
        0 <= r < table.containers.len(),
        table.containers[r] is Struct,
        faithful_attributes(table.containers[r]->fields@, values),
        faithful_fields(
            table,
            table.containers[r]->fields@,
            table.containers[r]->Struct_tns,
            tag,
            values,
            top(st),
        ),
        0 <= k <= values.len(),
        find_kind(table.containers[r]->fields@, EleType::Text, 0) is None,
        encode_children(table, table.containers[r]->fields@, values, k) is Ok,
        end_matches(table.containers[r], tag, end),
    ensures
        ({
            let fields = table.containers[r]->fields@;
            let markup = encode_children(table, fields, values, k)->Ok_0;
            let events = markup_read(markup, st);
            &&& decode_children(
                table,
                r,
                tag,
                events + seq![EventView::End(end)] + rest,
                0,
                slots_before(fields, values, k),
            ) == (Progress {
                slots: Ok(slots_before(fields, values, values.len() as int)),
                next: events.len() as int + 1,
            })
            &&& open_behind_markup(markup, st) == st
        }),
    decreases values, values.len() - k,
{
    let fields = table.containers[r]->fields@;
    let tns = table.containers[r]->Struct_tns;
    let n = fields.len() as int;
    let m = encode_children(table, fields, values, k)->Ok_0;
    let e = markup_read(m, st);
    let s = e + seq![EventView::End(end)] + rest;
    let slots = slots_before(fields, values, k);
    if k >= n {
        assert(m =~= Seq::<MarkupView>::empty());
        assert(e =~= Seq::<EventView>::empty());
        assert(s[0] == EventView::End(end));
    } else {
        let f = fields[k];
        let x = values[k];
        let next = slots_before(fields, values, k + 1);
        assert(f.name is Some);
        assert(faithful_field(table, fields, k, tns, tag, x, top(st)));
        lemma_find_kind(fields, EleType::Text, 0);
        if is_element_field(f) {
            let front = encode_child(table, f, x)->Ok_0;
            let more = encode_children(table, fields, values, k + 1)->Ok_0;
            assert(m == front + more);
            assert(faithful_child(table, f, tns, tag, x, top(st)));
            assert(f.value is None);
            lemma_children_read(table, r, tag, values, k + 1, st, end, rest);
            let behind = markup_read(more, st) + seq![EventView::End(end)] + rest;
            lemma_child_read(table, r, tag, k, x, st, behind, slots);
            lemma_markup_read_concat(front, more, st);
            assert(s =~= markup_read(front, st) + behind);
            assert(slots.update(k, final_slot(f, x)) =~= next);
        } else {
            assert(is_attribute_field(f));
            assert(next =~= slots);
            lemma_children_read(table, r, tag, values, k + 1, st, end, rest);
        }
    }
}

proof fn lemma_child_read(
    table: &Bindings,
    r: int,
    tag: Seq<u8>,
    k: int,
    v: ValueView,
    st: Seq<Scope>,
    rest: Seq<EventView>,
    slots: Seq<ValueView>,
)
    requires
        0 <= r < table.containers.len(),
        table.containers[r] is Struct,
        0 <= k < table.containers[r]->fields@.len(),
        slots.len() == table.containers[r]->fields@.len(),
        slots[k] == initial_slot(table.containers[r]->fields@[k]),
        table.containers[r]->fields@[k].value is None,
        is_element_field(table.containers[r]->fields@[k]),
        find_field(
            table.containers[r]->fields@,
            table.containers[r]->fields@[k].ty,
            own_tag(table.containers[r]->fields@[k]),
            0,
        ) == Some(k),
        faithful_child(
            table,
            table.containers[r]->fields@[k],
            table.containers[r]->Struct_tns,
            tag,
            v,
            top(st),
        ),
        encode_child(table, table.containers[r]->fields@[k], v) is Ok,
    ensures
        reads_on(
            table,
            r,
            tag,
            markup_read(encode_child(table, table.containers[r]->fields@[k], v)->Ok_0, st),
            rest,
            slots,
            slots.update(k, final_slot(table.containers[r]->fields@[k], v)),
        ),
        open_behind_markup(encode_child(table, table.containers[r]->fields@[k], v)->Ok_0, st)
            == st,
    decreases v, 2nat,
{
    let fields = table.containers[r]->fields@;
    let f = fields[k];
    let m = encode_child(table, f, v)->Ok_0;
    let e = markup_read(m, st);
    let after = slots.update(k, final_slot(f, v));
    if f.cardinality == Cardinality::Repeated {
        let items = v->List_0;
        assert(items.take(0) =~= Seq::<ValueView>::empty());
        lemma_items_read(table, r, tag, k, items, 0, st, rest, slots);
    } else if f.cardinality == Cardinality::Optional && v is Absent {
        assert(m =~= Seq::<MarkupView>::empty());
        assert(e =~= Seq::<EventView>::empty());
        assert(e + rest =~= rest);
        assert(after =~= slots);
    } else {
        lemma_one_read(table, r, tag, k, v, st, rest, slots);
        assert(occurred(slots, k, f, v) =~= after);
    }
}

proof fn lemma_items_read(
    table: &Bindings,
    r: int,
    tag: Seq<u8>,
    k: int,
    items: Seq<ValueView>,
    j: int,
    st: Seq<Scope>,
    rest: Seq<EventView>,
    slots: Seq<ValueView>,
)
    requires
        0 <= r < table.containers.len(),
        table.containers[r] is Struct,
        0 <= k < table.containers[r]->fields@.len(),
        0 <= j <= items.len(),
        slots.len() == table.containers[r]->fields@.len(),
        slots[k] == ValueView::List(items.take(j)),
        table.containers[r]->fields@[k].value is None,
        is_element_field(table.containers[r]->fields@[k]),
        table.containers[r]->fields@[k].cardinality == Cardinality::Repeated,
        find_field(
            table.containers[r]->fields@,
            table.containers[r]->fields@[k].ty,
            own_tag(table.containers[r]->fields@[k]),
            0,
        ) == Some(k),
        forall|i: int|
            0 <= i < items.len() ==> faithful_one(
                table,
                table.containers[r]->fields@[k],
                table.containers[r]->Struct_tns,
                tag,
                #[trigger] items[i],
                top(st),
            ),
        encode_items(
            table,
            table.containers[r]->fields@[k],
            qualified(
                table.containers[r]->fields@[k].ns,
                table.containers[r]->fields@[k].name_or_empty(),
            ),
            items,
            j,
        ) is Ok,
    ensures
        reads_on(
            table,
            r,
            tag,
            markup_read(
                encode_items(
                    table,
                    table.containers[r]->fields@[k],
                    qualified(
                        table.containers[r]->fields@[k].ns,
                        table.containers[r]->fields@[k].name_or_empty(),
                    ),
                    items,
                    j,
                )->Ok_0,
                st,
            ),
            rest,
            slots,
            slots.update(k, ValueView::List(items)),
        ),
        open_behind_markup(
            encode_items(
                table,
                table.containers[r]->fields@[k],
                qualified(
                    table.containers[r]->fields@[k].ns,
                    table.containers[r]->fields@[k].name_or_empty(),
                ),
                items,
                j,
            )->Ok_0,
            st,
        ) == st,
    decreases items, items.len() - j,
{
    let fields = table.containers[r]->fields@;
    let f = fields[k];
    let written = qualified(f.ns, f.name_or_empty());
    let m = encode_items(table, f, written, items, j)->Ok_0;
    let e = markup_read(m, st);
    let after = slots.update(k, ValueView::List(items));
    if j >= items.len() {
        assert(m =~= Seq::<MarkupView>::empty());
        assert(e =~= Seq::<EventView>::empty());
        assert(e + rest =~= rest);
        assert(items.take(j) =~= items);
        assert(after =~= slots);
    } else {
        let x = items[j];
        assert(faithful_one(table, f, table.containers[r]->Struct_tns, tag, x, top(st)));
        let front = encode_one(table, f, written, x)->Ok_0;
        let more = encode_items(table, f, written, items, j + 1)->Ok_0;
        assert(m == front + more);
        let behind = markup_read(more, st) + rest;
        lemma_one_read(table, r, tag, k, x, st, behind, slots);
        lemma_markup_read_concat(front, more, st);
        assert(e + rest =~= markup_read(front, st) + behind);
        let mid = occurred(slots, k, f, x);
        assert(items.take(j).push(x) =~= items.take(j + 1));
        assert(mid == slots.update(k, ValueView::List(items.take(j + 1))));
        lemma_items_read(table, r, tag, k, items, j + 1, st, rest, mid);
        assert(mid.update(k, ValueView::List(items)) =~= after);
    }
}

proof fn lemma_one_read(
    table: &Bindings,
    r: int,
    tag: Seq<u8>,
    k: int,
    v: ValueView,
    st: Seq<Scope>,
    rest: Seq<EventView>,
    slots: Seq<ValueView>,
)
    requires
        0 <= r < table.containers.len(),
        table.containers[r] is Struct,
        0 <= k < table.containers[r]->fields@.len(),
        slots.len() == table.containers[r]->fields@.len(),
        is_element_field(table.containers[r]->fields@[k]),
        faithful_one(
            table,
            table.containers[r]->fields@[k],
            table.containers[r]->Struct_tns,
            tag,
            v,
            top(st),
        ),
        find_field(
            table.containers[r]->fields@,
            table.containers[r]->fields@[k].ty,
            own_tag(table.containers[r]->fields@[k]),
            0,
        ) == Some(k),
        encode_one(
            table,
            table.containers[r]->fields@[k],
            qualified(
                table.containers[r]->fields@[k].ns,
                table.containers[r]->fields@[k].name_or_empty(),
            ),
            v,
        ) is Ok,
    ensures
        reads_on(
            table,
            r,
            tag,
            markup_read(
                encode_one(
                    table,
                    table.containers[r]->fields@[k],
                    qualified(
                        table.containers[r]->fields@[k].ns,
                        table.containers[r]->fields@[k].name_or_empty(),
                    ),
                    v,
                )->Ok_0,
                st,
            ),
            rest,
            slots,
            occurred(slots, k, table.containers[r]->fields@[k], v),
        ),
        open_behind_markup(
            encode_one(
                table,
                table.containers[r]->fields@[k],
                qualified(
                    table.containers[r]->fields@[k].ns,
                    table.containers[r]->fields@[k].name_or_empty(),
                ),
                v,
            )->Ok_0,
            st,
        ) == st,
    decreases v, 1nat,
{
    let fields = table.containers[r]->fields@;
    let f = fields[k];
    let name = f.name_or_empty();
    let written = qualified(f.ns, name);
    if f.value_kind is NestedBindable {
        let inner = f.value_kind->NestedBindable_0 as int;
        let m = encode_container(table, inner, written, v)->Ok_0;
        let e = markup_read(m, st);
        let s = e + rest;
        let t = tag_read(opening(table, inner, written, v), top(st));
        let after = occurred(slots, k, f, v);
        lemma_container_read(table, inner, written, v, st, rest);
        assert(s[0] == EventView::Start(t));
        assert(t.namespace == own_tag(f).namespace);
        lemma_find_field_named(fields, EleType::Child, t, own_tag(f), 0);
        assert(decode_field(table, f, t, false, s, 1) == Decoded {
            outcome: Ok(v),
            next: e.len() as int,
        });
        lemma_child_step(table, r, tag, s, k, t, false, v, e.len() as int, slots);
        lemma_reads_behind(table, r, tag, e, rest, after);
    } else {
        lemma_scalar_child_read(table, r, tag, k, v, st, rest, slots);
    }
}

/// The name under which the container `r` is written as a document: its
/// root tag with the prefix of its target namespace for a struct container,
/// none for an enum container.
pub open spec fn document_name(table: &Bindings, r: int) -> Seq<u8> {
    match table.containers[r] {
        ContainerDescriptor::Struct { root: Some(root), tns, .. } => qualified(tns, root@),
        _ => Seq::empty(),
    }
}

/// Round trip: a faithful value is decoded from the events of its own
/// document. The events are those that the markup of the document is read as,
/// followed by the end of the input. The root tag of a struct container has
/// the root's name for its local part.
pub proof fn lemma_round_trip(table: &Bindings, r: int, v: ValueView)
    requires
        0 <= r < table.containers.len(),
        faithful(table, r, document_name(table, r), v, Seq::empty()),
        table.containers[r] is Struct ==> table.containers[r]->root is Some && local_part(
            document_name(table, r),
        ) == table.containers[r]->root->0@,
        encode_document(table, r, v) is Ok,
    ensures
        decode_stream(
            table,
            r,
            markup_read(encode_document(table, r, v)->Ok_0, Seq::empty()) + seq![EventView::Eof],
        ) == Ok::<ValueView, ErrorView>(v),
{
    let st = Seq::<Scope>::empty();
    assert(top(st) =~= Seq::<Binding>::empty());
    let m = encode_document(table, r, v)->Ok_0;
    let e = markup_read(m, st);
    let rest = seq![EventView::Eof];
    let s = e + rest;
    if table.containers[r] is Enum {
        let tag = Seq::<u8>::empty();
        assert(m == encode_container(table, r, tag, v)->Ok_0);
        let j = v->Variant_0;
        let payload = *v->Variant_1;
        assert(m == encode_variant(table, table.containers[r]->variants@[j as int], payload)->Ok_0);
        lemma_variant_read(table, r, local_part(tag), j, payload, st, rest);
        assert(v == ValueView::Variant(j, Box::new(payload)));
    } else {
        let root = table.containers[r]->root->0@;
        let written = document_name(table, r);
        assert(m == encode_container(table, r, written, v)->Ok_0);
        let open = tag_read(opening(table, r, written, v), top(st));
        lemma_container_read(table, r, written, v, st, rest);
        assert(s[0] == e[0]);
        assert(tag_matches(table.containers[r]->Struct_tns, root, open));
        let n = e.len() as int;
        assert(s[n] == EventView::Eof);
        assert(decode_root(table, r, s, n, Some(v)) == Ok::<ValueView, ErrorView>(v));
        assert(decode_container(table, r, root, open.attributes, !opens(table, r), s, 1)
            == Decoded { outcome: Ok(v), next: n });
    }
}

/// A name without a colon is its own local part.
pub proof fn lemma_plain_name(name: Seq<u8>)
    requires
        forall|i: int| 0 <= i < name.len() ==> name[i] != 0x3a,
    ensures
        local_part(name) == name,
{
    lemma_first_index_is(name, |b: u8| b == 0x3a, name.len());
}

/// A name without a colon that is written without a prefix resolves to no
/// namespace where no default namespace is declared.
pub proof fn lemma_unqualified_resolves(scope: Scope, name: Seq<u8>)
    requires
        forall|i: int| 0 <= i < name.len() ==> name[i] != 0x3a,
        bound_to(scope, Seq::empty()) is None,
    ensures
        resolves(scope, None, name),
{
    lemma_plain_name(name);
    lemma_first_index_is(name, |b: u8| b == 0x3a, name.len());
}

proof fn lemma_field_answers_from(fields: Seq<FieldDescriptor>, k: int, from: int)
    requires
        fields_wf(fields),
        0 <= from <= k < fields.len(),
        fields[k].is_child(),
        fields[k].name is Some,
        local_part(own_tag(fields[k]).name) == fields[k].name_or_empty(),
    ensures
        find_field(fields, fields[k].ty, own_tag(fields[k]), from) == Some(k),
    decreases k - from,
{
    let t = own_tag(fields[k]);
    if from < k {
        if field_matches(fields[from], fields[k].ty, t) {
            assert(fields[from].is_child());
            assert(same_name(fields[from].name, fields[k].name));
            assert((fields[from].ns is Some) == (fields[k].ns is Some));
        }
        lemma_field_answers_from(fields, k, from + 1);
    }
}

/// In a container that keeps the rules, a child field is the first to
/// answer to its own tag.
pub proof fn lemma_field_answers(fields: Seq<FieldDescriptor>, k: int)
    requires
        fields_wf(fields),
        0 <= k < fields.len(),
        fields[k].is_child(),
        fields[k].name is Some,
        local_part(own_tag(fields[k]).name) == fields[k].name_or_empty(),
    ensures
        find_field(fields, fields[k].ty, own_tag(fields[k]), 0) == Some(k),
{
    lemma_field_answers_from(fields, k, 0);
}

proof fn lemma_attribute_answers_from(fields: Seq<FieldDescriptor>, k: int, from: int)
    requires
        fields_wf(fields),
        0 <= from <= k < fields.len(),
        fields[k].ty == EleType::Attr,
        fields[k].name is Some,
        fields[k].value is None,
    ensures
        find_attribute(fields, fields[k].name_or_empty(), from) == Some(k),
    decreases k - from,
{
    if from < k {
        if attribute_matches(fields[from], fields[k].name_or_empty()) {
            assert(same_name(fields[from].name, fields[k].name));
        }
        lemma_attribute_answers_from(fields, k, from + 1);
    }
}

/// In a container that keeps the rules, an attribute field that is no
/// constant is the first to answer to its own name.
pub proof fn lemma_attribute_answers(fields: Seq<FieldDescriptor>, k: int)
    requires
        fields_wf(fields),
        0 <= k < fields.len(),
        fields[k].ty == EleType::Attr,
        fields[k].name is Some,
        fields[k].value is None,
    ensures
        find_attribute(fields, fields[k].name_or_empty(), 0) == Some(k),
{
    lemma_attribute_answers_from(fields, k, 0);
}

} // verus!
