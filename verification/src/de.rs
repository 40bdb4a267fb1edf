//! Decoding: from the events of a document to a value.

use crate::container::EleType;
use crate::descriptor::{
    Bindings, Cardinality, ContainerDescriptor, FieldDescriptor, Namespace, ValueKind,
    VariantDescriptor,
};
use crate::decode::{decode_events, outcome_view};
use crate::event::{
    cooked_stream, events_of_document, read_events, settle_reader, settled_events, tokenize,
    AttributeView,
    EventView, NamespaceView, TagView, TextError,
};
use crate::scalar::{bool_of_text, number_of_text};
use crate::text::{local_part, stripped};
use crate::ty::S;
use crate::value::{Value, ValueView};
use quick_xml::NsReader;
use vstd::prelude::*;
use vstd::string::StringSliceAdditionalSpecFns;

verus! {

/// Why a document could not be decoded.
#[derive(Debug, PartialEq, Eq)]
pub enum XmlDeserializeError {
    /// The container is decoded as a document's root and names no root tag.
    MissingRoot,
    /// A required element is not there.
    MissingElement(S),
    /// A required attribute is not there.
    MissingAttribute(S),
    /// No element is a variant of the union; the tags that were expected.
    MissingVariant(S),
    /// An element that is no variant of a strict union: its name and the tags
    /// that were expected.
    UnknownVariant(Vec<u8>, S),
    /// A number or a boolean cannot be read from its text.
    ValueParseError,
    /// The document is not well-formed.
    MalformedInput,
    /// Text that is not UTF-8.
    EncodingError,
}

pub enum ErrorView {
    MissingRoot,
    MissingElement(Seq<u8>),
    MissingAttribute(Seq<u8>),
    MissingVariant(Seq<u8>),
    UnknownVariant(Seq<u8>, Seq<u8>),
    ValueParseError,
    MalformedInput,
    EncodingError,
}

impl DeepView for XmlDeserializeError {
    type V = ErrorView;

    open spec fn deep_view(&self) -> ErrorView {
        match self {
            XmlDeserializeError::MissingRoot => ErrorView::MissingRoot,
            XmlDeserializeError::MissingElement(name) => ErrorView::MissingElement(name@),
            XmlDeserializeError::MissingAttribute(name) => ErrorView::MissingAttribute(name@),
            XmlDeserializeError::MissingVariant(expected) => ErrorView::MissingVariant(expected@),
            XmlDeserializeError::UnknownVariant(name, expected) => ErrorView::UnknownVariant(
                name@,
                expected@,
            ),
            XmlDeserializeError::ValueParseError => ErrorView::ValueParseError,
            XmlDeserializeError::MalformedInput => ErrorView::MalformedInput,
            XmlDeserializeError::EncodingError => ErrorView::EncodingError,
        }
    }
}

/// What decoding gives: a value or the reason there is none.
pub type Outcome = Result<ValueView, ErrorView>;

/// The event at `pos`; behind the last event the stream reads as ended.
pub open spec fn event_at(stream: Seq<EventView>, pos: int) -> EventView {
    if 0 <= pos < stream.len() {
        stream[pos]
    } else {
        EventView::Eof
    }
}

/// Where the stream goes on behind the element that was opened `depth + 1`
/// levels above `pos`; `None` where the stream ends before the element does.
pub open spec fn skip_end(stream: Seq<EventView>, pos: int, depth: nat) -> Option<int>
    decreases stream.len() - pos,
{
    if pos < 0 || pos >= stream.len() {
        None
    } else {
        match stream[pos] {
            EventView::Start(_) => skip_end(stream, pos + 1, depth + 1),
            EventView::End(_) => if depth == 0 {
                Some(pos + 1)
            } else {
                skip_end(stream, pos + 1, (depth - 1) as nat)
            },
            EventView::Eof | EventView::Malformed => None,
            _ => skip_end(stream, pos + 1, depth),
        }
    }
}

/// A descriptor with a namespace matches a name bound to the same URI and no
/// other; one without matches an unbound name and no other.
pub open spec fn ns_matches(ns: Option<Namespace>, resolved: NamespaceView) -> bool {
    match ns {
        Some(n) => resolved == NamespaceView::Bound(n.uri@),
        None => resolved is Unbound,
    }
}

pub open spec fn tag_matches(ns: Option<Namespace>, name: Seq<u8>, tag: TagView) -> bool {
    local_part(tag.name) == name && ns_matches(ns, tag.namespace)
}

pub open spec fn field_matches(f: FieldDescriptor, kind: EleType, tag: TagView) -> bool {
    f.ty == kind && f.name is Some && tag_matches(f.ns, f.name->0@, tag)
}

/// The first field of the given kind at or behind `from` that the tag matches.
pub open spec fn find_field(
    fields: Seq<FieldDescriptor>,
    kind: EleType,
    tag: TagView,
    from: int,
) -> Option<int>
    decreases fields.len() - from,
{
    if from < 0 || from >= fields.len() {
        None
    } else if field_matches(fields[from], kind, tag) {
        Some(from)
    } else {
        find_field(fields, kind, tag, from + 1)
    }
}

pub open spec fn attribute_matches(f: FieldDescriptor, local: Seq<u8>) -> bool {
    f.ty == EleType::Attr && f.value is None && f.name is Some && f.name->0@ == local
}

/// The first attribute field at or behind `from` that is read from an
/// attribute of this local name.
pub open spec fn find_attribute(fields: Seq<FieldDescriptor>, local: Seq<u8>, from: int) -> Option<
    int,
>
    decreases fields.len() - from,
{
    if from < 0 || from >= fields.len() {
        None
    } else if attribute_matches(fields[from], local) {
        Some(from)
    } else {
        find_attribute(fields, local, from + 1)
    }
}

/// The first field of the given kind at or behind `from`.
pub open spec fn find_kind(fields: Seq<FieldDescriptor>, kind: EleType, from: int) -> Option<int>
    decreases fields.len() - from,
{
    if from < 0 || from >= fields.len() {
        None
    } else if fields[from].ty == kind {
        Some(from)
    } else {
        find_kind(fields, kind, from + 1)
    }
}

pub open spec fn variant_matches(v: VariantDescriptor, tag: TagView) -> bool {
    tag_matches(v.ns, v.name@, tag)
}

/// The first variant at or behind `from` that the tag names.
pub open spec fn find_variant(variants: Seq<VariantDescriptor>, tag: TagView, from: int) -> Option<
    int,
>
    decreases variants.len() - from,
{
    if from < 0 || from >= variants.len() {
        None
    } else if variant_matches(variants[from], tag) {
        Some(from)
    } else {
        find_variant(variants, tag, from + 1)
    }
}

/// The tags of the variants in single quotes, with bars between them.
pub open spec fn expected_tags(variants: Seq<VariantDescriptor>) -> Seq<u8>
    decreases variants.len(),
{
    if variants.len() == 0 {
        Seq::empty()
    } else {
        let quoted = seq![0x27u8] + variants.last().name@ + seq![0x27u8];
        if variants.len() == 1 {
            quoted
        } else {
            expected_tags(variants.drop_last()) + seq![0x7cu8] + quoted
        }
    }
}

/// The value that the text of a scalar writes; `None` where the text does not
/// write one. Numbers and booleans are read without the white space around
/// them, by what Unicode calls white space.
pub open spec fn scalar_of_text(kind: ValueKind, text: Seq<u8>) -> Option<ValueView> {
    match kind {
        ValueKind::String => Some(ValueView::Text(text)),
        ValueKind::Bool => match bool_of_text(stripped(text)) {
            Some(b) => Some(ValueView::Bool(b)),
            None => None,
        },
        ValueKind::Number(ty) => match number_of_text(stripped(text), ty) {
            Some(n) => Some(ValueView::Number(n)),
            None => None,
        },
        ValueKind::NestedBindable(_) => None,
    }
}

/// The value a scalar has where its element holds no text.
pub open spec fn scalar_zero(kind: ValueKind) -> ValueView {
    match kind {
        ValueKind::String => ValueView::Text(Seq::empty()),
        ValueKind::Bool => ValueView::Bool(false),
        ValueKind::Number(_) => ValueView::Number(0),
        ValueKind::NestedBindable(_) => ValueView::Absent,
    }
}

/// The zero value of a kind: the empty text, `false`, 0, or the struct
/// container whose fields are all zero. Nesting is followed `fuel` levels
/// deep; below that, and for an enum container, the value is `Absent`.
pub open spec fn zero_value(table: &Bindings, kind: ValueKind, fuel: nat) -> ValueView
    decreases fuel, 0nat,
{
    match kind {
        ValueKind::NestedBindable(r) => {
            if fuel == 0 || r >= table.containers.len() {
                ValueView::Absent
            } else {
                match table.containers[r as int] {
                    ContainerDescriptor::Struct { fields, .. } => ValueView::Struct(
                        Seq::new(
                            fields.len() as nat,
                            |i: int|
                                if 0 <= i < fields.len() {
                                    zero_field(table, fields[i], (fuel - 1) as nat)
                                } else {
                                    ValueView::Absent
                                },
                        ),
                    ),
                    ContainerDescriptor::Enum { .. } => ValueView::Absent,
                }
            }
        },
        _ => scalar_zero(kind),
    }
}

/// The value of a field of which no occurrence was met.
pub open spec fn zero_field(table: &Bindings, f: FieldDescriptor, fuel: nat) -> ValueView
    decreases fuel, 1nat,
{
    if f.value is Some {
        ValueView::Text(f.value->0@)
    } else if f.cardinality == Cardinality::Repeated {
        ValueView::List(Seq::empty())
    } else if f.cardinality == Cardinality::Optional {
        ValueView::Absent
    } else if f.ty == EleType::SelfClosedChild && f.value_kind is Bool {
        ValueView::Bool(false)
    } else {
        zero_value(table, f.value_kind, fuel)
    }
}

/// The zero value of a kind in this table.
pub open spec fn default_value(table: &Bindings, kind: ValueKind) -> ValueView {
    zero_value(table, kind, table.containers.len() as nat)
}

/// The value of a scalar field read from `text`. Text that has no readable
/// form is an error whatever the field says; text that does not write a value
/// of the field's kind is `ValueParseError`, or the zero value where the field
/// asks for that.
pub open spec fn field_scalar(f: FieldDescriptor, text: Result<Seq<u8>, TextError>) -> Outcome {
    match text {
        Err(TextError::NotUtf8) => Err(ErrorView::EncodingError),
        Err(TextError::BadEscape) => Err(ErrorView::MalformedInput),
        Ok(t) => match scalar_of_text(f.value_kind, t) {
            Some(v) => Ok(v),
            None => if f.default {
                Ok(scalar_zero(f.value_kind))
            } else {
                Err(ErrorView::ValueParseError)
            },
        },
    }
}

/// The same for the payload of a variant, which has no zero to fall back on.
pub open spec fn payload_scalar(kind: ValueKind, text: Result<Seq<u8>, TextError>) -> Outcome {
    match text {
        Err(TextError::NotUtf8) => Err(ErrorView::EncodingError),
        Err(TextError::BadEscape) => Err(ErrorView::MalformedInput),
        Ok(t) => match scalar_of_text(kind, t) {
            Some(v) => Ok(v),
            None => Err(ErrorView::ValueParseError),
        },
    }
}

pub open spec fn initial_slot(f: FieldDescriptor) -> ValueView {
    if f.cardinality == Cardinality::Repeated {
        ValueView::List(Seq::empty())
    } else {
        ValueView::Absent
    }
}

/// What is known of each field before anything is read.
pub open spec fn initial_slots(fields: Seq<FieldDescriptor>) -> Seq<ValueView> {
    Seq::new(fields.len(), |i: int| initial_slot(fields[i]))
}

/// Notes an occurrence of field `i`: a repeated field gains an item, any other
/// field takes the new value for the old.
pub open spec fn assign(slots: Seq<ValueView>, i: int, card: Cardinality, v: ValueView) -> Seq<
    ValueView,
> {
    if card == Cardinality::Repeated {
        match slots[i] {
            ValueView::List(items) => slots.update(i, ValueView::List(items.push(v))),
            _ => slots.update(i, ValueView::List(seq![v])),
        }
    } else {
        slots.update(i, v)
    }
}

/// Reads the attributes at and behind `k` into the fields they name.
/// Attributes that no field names are passed over.
pub open spec fn decode_attributes(
    fields: Seq<FieldDescriptor>,
    attributes: Seq<AttributeView>,
    k: int,
    slots: Seq<ValueView>,
) -> Result<Seq<ValueView>, ErrorView>
    decreases attributes.len() - k,
{
    if k < 0 || k >= attributes.len() {
        Ok(slots)
    } else {
        match find_attribute(fields, local_part(attributes[k].key), 0) {
            None => decode_attributes(fields, attributes, k + 1, slots),
            Some(i) => match field_scalar(fields[i], attributes[k].value) {
                Err(e) => Err(e),
                Ok(v) => decode_attributes(
                    fields,
                    attributes,
                    k + 1,
                    assign(slots, i, fields[i].cardinality, v),
                ),
            },
        }
    }
}

/// Whether a required field is still without a value and has none to fall
/// back on. A boolean that stands for the presence of an empty element is
/// never missing: its absence is `false`.
pub open spec fn is_missing(f: FieldDescriptor, slot: ValueView) -> bool {
    &&& f.cardinality == Cardinality::Required
    &&& slot is Absent
    &&& !f.default
    &&& f.value is None
    &&& !(f.ty == EleType::SelfClosedChild && f.value_kind is Bool)
}

/// The first field at or behind `from` that is missing.
pub open spec fn find_missing(fields: Seq<FieldDescriptor>, slots: Seq<ValueView>, from: int) -> Option<
    int,
>
    decreases fields.len() - from,
{
    if from < 0 || from >= fields.len() {
        None
    } else if is_missing(fields[from], slots[from]) {
        Some(from)
    } else {
        find_missing(fields, slots, from + 1)
    }
}

/// The value of a field once its container is read to the end.
pub open spec fn final_value(table: &Bindings, f: FieldDescriptor, slot: ValueView) -> ValueView {
    if f.value is Some {
        ValueView::Text(f.value->0@)
    } else if f.cardinality == Cardinality::Required && slot is Absent {
        zero_field(table, f, table.containers.len() as nat)
    } else {
        slot
    }
}

/// The struct value that the slots make, or the error for the first field
/// that is missing.
pub open spec fn finish(table: &Bindings, fields: Seq<FieldDescriptor>, slots: Seq<ValueView>) -> Outcome {
    match find_missing(fields, slots, 0) {
        Some(i) => if fields[i].ty == EleType::Attr {
            Err(ErrorView::MissingAttribute(fields[i].name_or_empty()))
        } else {
            Err(ErrorView::MissingElement(fields[i].name_or_empty()))
        },
        None => Ok(
            ValueView::Struct(
                Seq::new(fields.len(), |i: int| final_value(table, fields[i], slots[i])),
            ),
        ),
    }
}

/// Whether a closing tag ends a container that was opened under `tag`: the
/// local names are equal and, for a container with a target namespace, the tag
/// is bound to it; for one without, the tag is unbound.
pub open spec fn end_matches(c: ContainerDescriptor, tag: Seq<u8>, end: TagView) -> bool {
    local_part(end.name) == tag && match c {
        ContainerDescriptor::Struct { tns, .. } => ns_matches(tns, end.namespace),
        ContainerDescriptor::Enum { tns, .. } => ns_matches(tns, end.namespace),
    }
}

/// The state of a container that is being read: what its fields hold, or the
/// error that ended the reading, and where the stream goes on.
pub struct Progress {
    pub slots: Result<Seq<ValueView>, ErrorView>,
    pub next: int,
}

/// A value, or the error in its place, and where the stream goes on.
pub struct Decoded {
    pub outcome: Outcome,
    pub next: int,
}

/// Reads the content of a container that holds text, from `pos` to its
/// closing tag or the end of the stream. Each piece of text is an occurrence of
/// the text field `i`; elements in between are skipped whole.
pub open spec fn decode_text_content(
    f: FieldDescriptor,
    i: int,
    tag: Seq<u8>,
    stream: Seq<EventView>,
    pos: int,
    slots: Seq<ValueView>,
) -> Progress
    decreases stream.len() - pos,
{
    if pos < 0 || pos >= stream.len() {
        Progress { slots: Ok(slots), next: pos }
    } else {
        match stream[pos] {
            EventView::Text(text) => match field_scalar(f, text) {
                Err(e) => Progress { slots: Err(e), next: pos + 1 },
                Ok(v) => decode_text_content(
                    f,
                    i,
                    tag,
                    stream,
                    pos + 1,
                    assign(slots, i, f.cardinality, v),
                ),
            },
            EventView::Start(_) => match skip_end(stream, pos + 1, 0) {
                Some(next) => if pos < next <= stream.len() {
                    decode_text_content(f, i, tag, stream, next, slots)
                } else {
                    Progress { slots: Err(ErrorView::MalformedInput), next: pos + 1 }
                },
                None => Progress { slots: Err(ErrorView::MalformedInput), next: pos + 1 },
            },
            EventView::End(end) => if local_part(end.name) == tag {
                Progress { slots: Ok(slots), next: pos + 1 }
            } else {
                decode_text_content(f, i, tag, stream, pos + 1, slots)
            },
            EventView::Eof => Progress { slots: Ok(slots), next: pos },
            EventView::Malformed => Progress { slots: Err(ErrorView::MalformedInput), next: pos },
            _ => decode_text_content(f, i, tag, stream, pos + 1, slots),
        }
    }
}

/// Decodes the container `r` that was opened under `tag` with these
/// attributes; its content, unless the element is empty, starts at `pos`.
pub open spec fn decode_container(
    table: &Bindings,
    r: int,
    tag: Seq<u8>,
    attributes: Seq<AttributeView>,
    is_empty: bool,
    stream: Seq<EventView>,
    pos: int,
) -> Decoded
    decreases stream.len() - pos, 5nat,
{
    if r < 0 || r >= table.containers.len() {
        Decoded { outcome: Err(ErrorView::MalformedInput), next: pos }
    } else {
        match table.containers[r] {
            ContainerDescriptor::Struct { fields, .. } => {
                match decode_attributes(fields@, attributes, 0, initial_slots(fields@)) {
                    Err(e) => Decoded { outcome: Err(e), next: pos },
                    Ok(slots) => {
                        let content = decode_content(table, r, tag, is_empty, stream, pos, slots);
                        match content.slots {
                            Err(e) => Decoded { outcome: Err(e), next: content.next },
                            Ok(done) => Decoded {
                                outcome: finish(table, fields@, done),
                                next: content.next,
                            },
                        }
                    },
                }
            },
            ContainerDescriptor::Enum { variants, .. } => {
                if is_empty {
                    Decoded {
                        outcome: Err(ErrorView::MissingVariant(expected_tags(variants@))),
                        next: pos,
                    }
                } else {
                    let found = decode_variant(table, r, stream, pos);
                    match found.outcome {
                        Err(e) => found,
                        Ok(v) => if tag.len() == 0 {
                            found
                        } else {
                            match close_container(
                                table.containers[r],
                                tag,
                                stream,
                                found.next,
                            ) {
                                Some(next) => Decoded { outcome: Ok(v), next },
                                None => Decoded {
                                    outcome: Err(ErrorView::MalformedInput),
                                    next: found.next,
                                },
                            }
                        },
                    }
                }
            },
        }
    }
}

/// Passes over events up to and including the closing tag of the container,
/// or up to the end of the stream; `None` where the stream is broken first.
pub open spec fn close_container(
    c: ContainerDescriptor,
    tag: Seq<u8>,
    stream: Seq<EventView>,
    pos: int,
) -> Option<int>
    decreases stream.len() - pos,
{
    if pos < 0 || pos >= stream.len() {
        Some(pos)
    } else {
        match stream[pos] {
            EventView::End(end) => if end_matches(c, tag, end) {
                Some(pos + 1)
            } else {
                close_container(c, tag, stream, pos + 1)
            },
            EventView::Eof => Some(pos),
            EventView::Malformed => None,
            _ => close_container(c, tag, stream, pos + 1),
        }
    }
}

/// Reads the content of the struct container `r`: nothing for an empty
/// element, save that a text field of strings holds the empty string; the text
/// for a container with a text field; the child elements for any other.
pub open spec fn decode_content(
    table: &Bindings,
    r: int,
    tag: Seq<u8>,
    is_empty: bool,
    stream: Seq<EventView>,
    pos: int,
    slots: Seq<ValueView>,
) -> Progress
    decreases stream.len() - pos, 4nat,
{
    if r < 0 || r >= table.containers.len() || !(table.containers[r] is Struct) {
        Progress { slots: Ok(slots), next: pos }
    } else {
        let fields = table.containers[r]->fields@;
        match find_kind(fields, EleType::Text, 0) {
            Some(i) => if is_empty {
                if fields[i].value_kind is String {
                    Progress {
                        slots: Ok(
                            assign(slots, i, fields[i].cardinality, ValueView::Text(Seq::empty())),
                        ),
                        next: pos,
                    }
                } else {
                    Progress { slots: Ok(slots), next: pos }
                }
            } else {
                decode_text_content(fields[i], i, tag, stream, pos, slots)
            },
            None => if is_empty {
                Progress { slots: Ok(slots), next: pos }
            } else {
                decode_children(table, r, tag, stream, pos, slots)
            },
        }
    }
}

/// Reads the child elements of the struct container `r` from `pos` to its
/// closing tag or the end of the stream. An opening tag is an occurrence of
/// the first child field it matches, an empty tag of the first self-closed
/// child field it matches. An element that matches none is offered to the
/// fields that take unclaimed elements and else skipped whole.
pub open spec fn decode_children(
    table: &Bindings,
    r: int,
    tag: Seq<u8>,
    stream: Seq<EventView>,
    pos: int,
    slots: Seq<ValueView>,
) -> Progress
    decreases stream.len() - pos, 3nat,
{
    if r < 0 || r >= table.containers.len() || !(table.containers[r] is Struct) || pos < 0 || pos
        >= stream.len() {
        Progress { slots: Ok(slots), next: pos }
    } else {
        let fields = table.containers[r]->fields@;
        match stream[pos] {
            EventView::Start(t) => {
                let step = decode_child(table, fields, t, false, stream, pos + 1, slots);
                match step.slots {
                    Ok(after) => if pos < step.next <= stream.len() {
                        decode_children(table, r, tag, stream, step.next, after)
                    } else {
                        step
                    },
                    Err(_) => step,
                }
            },
            EventView::Empty(t) => {
                let step = decode_child(table, fields, t, true, stream, pos + 1, slots);
                match step.slots {
                    Ok(after) => if pos < step.next <= stream.len() {
                        decode_children(table, r, tag, stream, step.next, after)
                    } else {
                        step
                    },
                    Err(_) => step,
                }
            },
            EventView::End(end) => if end_matches(table.containers[r], tag, end) {
                Progress { slots: Ok(slots), next: pos + 1 }
            } else {
                decode_children(table, r, tag, stream, pos + 1, slots)
            },
            EventView::Eof => Progress { slots: Ok(slots), next: pos },
            EventView::Malformed => Progress { slots: Err(ErrorView::MalformedInput), next: pos },
            _ => decode_children(table, r, tag, stream, pos + 1, slots),
        }
    }
}

/// Reads one child element, whose tag `t` stands just before `pos`.
pub open spec fn decode_child(
    table: &Bindings,
    fields: Seq<FieldDescriptor>,
    t: TagView,
    is_empty: bool,
    stream: Seq<EventView>,
    pos: int,
    slots: Seq<ValueView>,
) -> Progress
    decreases stream.len() - pos, 8nat,
{
    let kind = if is_empty {
        EleType::SelfClosedChild
    } else {
        EleType::Child
    };
    match find_field(fields, kind, t, 0) {
        Some(i) => {
            let value = decode_field(table, fields[i], t, is_empty, stream, pos);
            match value.outcome {
                Err(e) => Progress { slots: Err(e), next: value.next },
                Ok(ValueView::Absent) => Progress { slots: Ok(slots), next: value.next },
                Ok(v) => Progress {
                    slots: Ok(assign(slots, i, fields[i].cardinality, v)),
                    next: value.next,
                },
            }
        },
        None => decode_unclaimed(table, fields, t, is_empty, stream, pos, slots, 0),
    }
}

/// Offers an element that no child field claims to the fields at and behind
/// `from` that take such elements: to a field of kind `Untag` where the tag
/// names a variant of its union, to a field of kind `Any` in any case, which
/// then holds the element's name. Where no field takes it the element is
/// skipped whole.
pub open spec fn decode_unclaimed(
    table: &Bindings,
    fields: Seq<FieldDescriptor>,
    t: TagView,
    is_empty: bool,
    stream: Seq<EventView>,
    pos: int,
    slots: Seq<ValueView>,
    from: int,
) -> Progress
    decreases stream.len() - pos, 7nat, fields.len() - from,
{
    if from < 0 || from >= fields.len() {
        skip_unclaimed(is_empty, stream, pos, slots)
    } else {
        let f = fields[from];
        if f.ty == EleType::Any {
            let skipped = skip_unclaimed(is_empty, stream, pos, slots);
            match skipped.slots {
                Err(e) => skipped,
                Ok(_) => Progress {
                    slots: Ok(assign(slots, from, f.cardinality, ValueView::Text(t.name))),
                    next: skipped.next,
                },
            }
        } else if f.ty == EleType::Untag && f.value_kind is NestedBindable && untag_claims(
            table,
            f.value_kind->NestedBindable_0 as int,
            t,
        ) {
            let r = f.value_kind->NestedBindable_0 as int;
            let variants = table.containers[r]->variants@;
            let j = find_variant(variants, t, 0)->0;
            let value = decode_payload(table, variants[j], j, t, is_empty, stream, pos);
            match value.outcome {
                Err(e) => Progress { slots: Err(e), next: value.next },
                Ok(None) => Progress { slots: Ok(slots), next: value.next },
                Ok(Some(v)) => Progress {
                    slots: Ok(assign(slots, from, f.cardinality, v)),
                    next: value.next,
                },
            }
        } else {
            decode_unclaimed(table, fields, t, is_empty, stream, pos, slots, from + 1)
        }
    }
}

/// Whether the tag names a variant of the enum container `r`.
pub open spec fn untag_claims(table: &Bindings, r: int, t: TagView) -> bool {
    0 <= r < table.containers.len() && table.containers[r] is Enum && find_variant(
        table.containers[r]->variants@,
        t,
        0,
    ) is Some
}

/// Passes over an element that nothing claims: an empty element is behind
/// us already, an opened one is skipped to its end.
pub open spec fn skip_unclaimed(
    is_empty: bool,
    stream: Seq<EventView>,
    pos: int,
    slots: Seq<ValueView>,
) -> Progress {
    if is_empty {
        Progress { slots: Ok(slots), next: pos }
    } else {
        match skip_end(stream, pos, 0) {
            Some(next) => Progress { slots: Ok(slots), next },
            None => Progress { slots: Err(ErrorView::MalformedInput), next: pos },
        }
    }
}

/// The value of one occurrence of the child field `f`, whose tag `t` stands
/// just before `pos`. `Absent` says that the occurrence gives no value.
///
/// An empty tag gives `true` to a boolean and the container read from its
/// attributes to a nested container. An opening tag gives a nested container
/// read from `pos`, and gives a scalar the text that follows at once: the
/// event at `pos` is consumed, and any event but text leaves the scalar at zero.
pub open spec fn decode_field(
    table: &Bindings,
    f: FieldDescriptor,
    t: TagView,
    is_empty: bool,
    stream: Seq<EventView>,
    pos: int,
) -> Decoded
    decreases stream.len() - pos, 6nat,
{
    match f.value_kind {
        ValueKind::NestedBindable(r) => {
            let nested = decode_container(
                table,
                r as int,
                f.name_or_empty(),
                t.attributes,
                is_empty,
                stream,
                pos,
            );
            if nested.outcome is Err && f.default {
                Decoded { outcome: Ok(default_value(table, f.value_kind)), next: nested.next }
            } else {
                nested
            }
        },
        kind => if is_empty {
            if kind is Bool {
                Decoded { outcome: Ok(ValueView::Bool(true)), next: pos }
            } else {
                Decoded { outcome: Ok(ValueView::Absent), next: pos }
            }
        } else {
            match event_at(stream, pos) {
                EventView::Text(text) => Decoded { outcome: field_scalar(f, text), next: pos + 1 },
                EventView::Malformed => Decoded {
                    outcome: Err(ErrorView::MalformedInput),
                    next: pos,
                },
                EventView::Eof => Decoded { outcome: Ok(scalar_zero(kind)), next: pos },
                _ => Decoded { outcome: Ok(scalar_zero(kind)), next: pos + 1 },
            }
        },
    }
}

/// A variant, or nothing, or the error in its place, and where the stream
/// goes on.
pub struct Dispatched {
    pub outcome: Result<Option<ValueView>, ErrorView>,
    pub next: int,
}

/// The value of the variant `v` at position `j` of its union, whose tag `t`
/// stands just before `pos`. `None` says that the element gives no value.
///
/// A variant without payload is there with its tag. An empty tag gives `true`
/// to a boolean payload and the container read from its attributes to a nested
/// one, and nothing to text or a number. An opening tag gives a nested
/// container read from `pos`, and gives a scalar the text that follows at
/// once; where no text follows there is no value.
pub open spec fn decode_payload(
    table: &Bindings,
    v: VariantDescriptor,
    j: int,
    t: TagView,
    is_empty: bool,
    stream: Seq<EventView>,
    pos: int,
) -> Dispatched
    decreases stream.len() - pos, 6nat,
{
    match v.payload {
        None => Dispatched {
            outcome: Ok(Some(ValueView::Variant(j as nat, Box::new(ValueView::Absent)))),
            next: pos,
        },
        Some(ValueKind::NestedBindable(r)) => {
            let nested = decode_container(table, r as int, v.name@, t.attributes, is_empty, stream, pos);
            match nested.outcome {
                Err(e) => Dispatched { outcome: Err(e), next: nested.next },
                Ok(value) => Dispatched {
                    outcome: Ok(Some(ValueView::Variant(j as nat, Box::new(value)))),
                    next: nested.next,
                },
            }
        },
        Some(kind) => if is_empty {
            if kind is Bool {
                Dispatched {
                    outcome: Ok(
                        Some(ValueView::Variant(j as nat, Box::new(ValueView::Bool(true)))),
                    ),
                    next: pos,
                }
            } else {
                Dispatched { outcome: Ok(None), next: pos }
            }
        } else {
            match event_at(stream, pos) {
                EventView::Text(text) => match payload_scalar(kind, text) {
                    Err(e) => Dispatched { outcome: Err(e), next: pos + 1 },
                    Ok(value) => Dispatched {
                        outcome: Ok(Some(ValueView::Variant(j as nat, Box::new(value)))),
                        next: pos + 1,
                    },
                },
                EventView::Malformed => Dispatched {
                    outcome: Err(ErrorView::MalformedInput),
                    next: pos,
                },
                EventView::Eof => Dispatched { outcome: Ok(None), next: pos },
                _ => Dispatched { outcome: Ok(None), next: pos + 1 },
            }
        },
    }
}

/// Whether an element that is no variant of a union with this target
/// namespace is one of the union's own kind, and skipped whole: its name is
/// unbound, or bound to the target namespace. An element of any other kind is
/// passed over, and what it holds is looked through.
pub open spec fn variant_partition(tns: Option<Namespace>, resolved: NamespaceView) -> bool {
    resolved is Unbound || match tns {
        Some(n) => resolved == NamespaceView::Bound(n.uri@),
        None => false,
    }
}

/// Whether an element that is not the root of a container with this target
/// namespace is of the root's own kind, and skipped whole: with a target
/// namespace the elements whose names are bound, without one those whose names
/// are unbound. An element of the other kind is passed over, and what it
/// holds is looked through.
pub open spec fn root_partition(tns: Option<Namespace>, resolved: NamespaceView) -> bool {
    match tns {
        Some(_) => resolved is Bound,
        None => resolved is Unbound,
    }
}

/// Looks from `pos` on for the first element that is a variant of the enum
/// container `r` and decodes it. An element that is no variant is an error
/// where the union is strict; else it is skipped whole where it is of the
/// union's own kind, and passed over where it is not. The first variant that
/// an element names decides, be its tag opening or empty: where the element
/// gives no value, none is looked for further, and the outcome is
/// `MissingVariant`.
pub open spec fn decode_variant(table: &Bindings, r: int, stream: Seq<EventView>, pos: int) -> Decoded
    decreases stream.len() - pos, 3nat,
{
    if r < 0 || r >= table.containers.len() || !(table.containers[r] is Enum) {
        Decoded { outcome: Err(ErrorView::MalformedInput), next: pos }
    } else {
        let variants = table.containers[r]->variants@;
        let strict = table.containers[r]->strict;
        let missing = Err(ErrorView::MissingVariant(expected_tags(variants)));
        if pos < 0 || pos >= stream.len() {
            Decoded { outcome: missing, next: pos }
        } else {
            match stream[pos] {
                EventView::Start(t) => match find_variant(variants, t, 0) {
                    Some(j) => {
                        let found = decode_payload(table, variants[j], j, t, false, stream, pos + 1);
                        match found.outcome {
                            Err(e) => Decoded { outcome: Err(e), next: found.next },
                            Ok(Some(v)) => Decoded { outcome: Ok(v), next: found.next },
                            Ok(None) => Decoded { outcome: missing, next: found.next },
                        }
                    },
                    None => if strict {
                        Decoded {
                            outcome: Err(ErrorView::UnknownVariant(t.name, expected_tags(variants))),
                            next: pos,
                        }
                    } else if !variant_partition(table.containers[r]->Enum_tns, t.namespace) {
                        decode_variant(table, r, stream, pos + 1)
                    } else {
                        match skip_end(stream, pos + 1, 0) {
                            Some(next) => if pos < next <= stream.len() {
                                decode_variant(table, r, stream, next)
                            } else {
                                Decoded { outcome: Err(ErrorView::MalformedInput), next: pos + 1 }
                            },
                            None => Decoded {
                                outcome: Err(ErrorView::MalformedInput),
                                next: pos + 1,
                            },
                        }
                    },
                },
                EventView::Empty(t) => match find_variant(variants, t, 0) {
                    Some(j) => {
                        let found = decode_payload(table, variants[j], j, t, true, stream, pos + 1);
                        match found.outcome {
                            Err(e) => Decoded { outcome: Err(e), next: found.next },
                            Ok(Some(v)) => Decoded { outcome: Ok(v), next: found.next },
                            Ok(None) => Decoded { outcome: missing, next: found.next },
                        }
                    },
                    None => if strict {
                        Decoded {
                            outcome: Err(ErrorView::UnknownVariant(t.name, expected_tags(variants))),
                            next: pos,
                        }
                    } else {
                        decode_variant(table, r, stream, pos + 1)
                    },
                },
                EventView::Eof => Decoded { outcome: missing, next: pos },
                EventView::Malformed => Decoded {
                    outcome: Err(ErrorView::MalformedInput),
                    next: pos,
                },
                _ => decode_variant(table, r, stream, pos + 1),
            }
        }
    }
}

/// Looks from `pos` on for the root element of the struct container `r` and
/// decodes it; the last root element that is met counts. Another element of
/// the root's own kind is skipped whole; one of the other kind is passed over,
/// so that a root inside it is found.
pub open spec fn decode_root(
    table: &Bindings,
    r: int,
    stream: Seq<EventView>,
    pos: int,
    found: Option<ValueView>,
) -> Outcome
    decreases stream.len() - pos,
{
    if r < 0 || r >= table.containers.len() || !(table.containers[r] is Struct)
        || table.containers[r]->root is None {
        Err(ErrorView::MissingRoot)
    } else {
        let root = table.containers[r]->root->0@;
        let tns = table.containers[r]->Struct_tns;
        let at_end = match found {
            Some(v) => Ok(v),
            None => Err(ErrorView::MissingElement(root)),
        };
        if pos < 0 || pos >= stream.len() {
            at_end
        } else {
            match stream[pos] {
                EventView::Start(t) => if tag_matches(tns, root, t) {
                    let value = decode_container(table, r, root, t.attributes, false, stream, pos + 1);
                    match value.outcome {
                        Ok(v) => if pos < value.next <= stream.len() {
                            decode_root(table, r, stream, value.next, Some(v))
                        } else {
                            Err(ErrorView::MalformedInput)
                        },
                        Err(e) => Err(e),
                    }
                } else if !root_partition(tns, t.namespace) {
                    decode_root(table, r, stream, pos + 1, found)
                } else {
                    match skip_end(stream, pos + 1, 0) {
                        Some(next) => if pos < next <= stream.len() {
                            decode_root(table, r, stream, next, found)
                        } else {
                            Err(ErrorView::MalformedInput)
                        },
                        None => Err(ErrorView::MalformedInput),
                    }
                },
                EventView::Empty(t) => if tag_matches(tns, root, t) {
                    let value = decode_container(table, r, root, t.attributes, true, stream, pos + 1);
                    match value.outcome {
                        Ok(v) => if pos < value.next <= stream.len() {
                            decode_root(table, r, stream, value.next, Some(v))
                        } else {
                            Err(ErrorView::MalformedInput)
                        },
                        Err(e) => Err(e),
                    }
                } else {
                    decode_root(table, r, stream, pos + 1, found)
                },
                EventView::Eof => at_end,
                EventView::Malformed => Err(ErrorView::MalformedInput),
                _ => decode_root(table, r, stream, pos + 1, found),
            }
        }
    }
}

/// The value that a stream of events decodes to as a document whose root is
/// the container `r`. An enum container is looked for from the first event
/// on; a struct container must name its root tag.
pub open spec fn decode_stream(table: &Bindings, r: int, stream: Seq<EventView>) -> Outcome {
    if 0 <= r < table.containers.len() && table.containers[r] is Enum {
        decode_variant(table, r, stream, 0).outcome
    } else {
        decode_root(table, r, stream, 0, None)
    }
}


pub type XmlDeserializeResult<T> = Result<T, XmlDeserializeError>;

/// Decodes what a reader still holds as a document whose root is the
/// container `r` of `table`. The reader is first set up for decoding: it
/// trims text, does not check comments, and leaves empty elements as they
/// stand.
pub fn deserialize_with_reader(table: &Bindings, r: usize, reader: NsReader<&[u8]>) -> (value:
    XmlDeserializeResult<Value>)
    ensures
        outcome_view(value) == decode_stream(table, r as int, cooked_stream(settled_events(reader))),
{
    let events = read_events(settle_reader(reader));
    decode_events(table, r, &events)
}

/// Decodes a document given as text.
pub fn from_str(table: &Bindings, r: usize, s: &str) -> (value: XmlDeserializeResult<Value>)
    ensures
        outcome_view(value) == decode_stream(table, r as int, events_of_document(s.spec_bytes())),
{
    from_reader(table, r, s.as_bytes())
}

/// Decodes a document given as bytes.
pub fn from_reader(table: &Bindings, r: usize, doc: &[u8]) -> (value: XmlDeserializeResult<Value>)
    ensures
        outcome_view(value) == decode_stream(table, r as int, events_of_document(doc@)),
{
    let events = tokenize(doc);
    decode_events(table, r, &events)
}

} // verus!
