//! The decoder: the functions that walk a stream of events.

use crate::container::EleType;
use crate::de::{
    assign, close_container, tag_matches, decode_attributes, decode_child, decode_children,
    decode_container, decode_content, decode_field, decode_payload, decode_root, decode_stream,
    decode_text_content, decode_unclaimed, decode_variant, default_value, end_matches,
    expected_tags, field_scalar, final_value, find_attribute, find_field, find_kind, find_missing,
    find_variant, finish, initial_slot, initial_slots, ns_matches, payload_scalar,
    root_partition, scalar_of_text, scalar_zero, skip_end, skip_unclaimed, variant_partition,
    zero_field, zero_value, Decoded, Dispatched, ErrorView, Outcome, Progress,
    XmlDeserializeError,
};
use crate::descriptor::{
    Bindings, Cardinality, ContainerDescriptor, FieldDescriptor, Namespace, ValueKind,
    VariantDescriptor,
};
use crate::event::{text_view, ResolvedNamespace, TextError, XmlAttribute, XmlEvent, XmlTag};
use crate::scalar::{parse_bool, parse_number};
use crate::text::{append_bytes, bytes_eq, copy_bytes, local_name, local_part, strip};
use crate::ty::S;
use crate::value::{lemma_list_view, value_view, values_view, Value, ValueView};
use vstd::prelude::*;

verus! {

pub open spec fn outcome_view(r: Result<Value, XmlDeserializeError>) -> Outcome {
    match r {
        Ok(v) => Ok(v.deep_view()),
        Err(e) => Err(e.deep_view()),
    }
}

pub open spec fn slots_view(r: Result<Vec<Value>, XmlDeserializeError>) -> Result<
    Seq<ValueView>,
    ErrorView,
> {
    match r {
        Ok(slots) => Ok(values_view(slots@)),
        Err(e) => Err(e.deep_view()),
    }
}

pub fn kind_eq(a: EleType, b: EleType) -> (equal: bool)
    ensures
        equal == (a == b),
{
    match (a, b) {
        (EleType::Attr, EleType::Attr) => true,
        (EleType::Child, EleType::Child) => true,
        (EleType::Text, EleType::Text) => true,
        (EleType::SelfClosedChild, EleType::SelfClosedChild) => true,
        (EleType::Untag, EleType::Untag) => true,
        (EleType::Any, EleType::Any) => true,
        (EleType::XmlNs, EleType::XmlNs) => true,
        _ => false,
    }
}

/// Passes over the rest of an element whose opening tag stands just before
/// `pos`.
pub fn skip_subtree(events: &Vec<XmlEvent>, pos: usize) -> (next: Option<usize>)
    requires
        pos <= events.len(),
    ensures
        match next {
            Some(n) => skip_end(events.deep_view(), pos as int, 0) == Some(n as int) && pos < n
                <= events.len(),
            None => skip_end(events.deep_view(), pos as int, 0) is None,
        },
{
    let mut i: usize = pos;
    let mut depth: usize = 0;
    while i < events.len()
        invariant
            pos <= i <= events.len(),
            depth <= i - pos,
            skip_end(events.deep_view(), pos as int, 0) == skip_end(
                events.deep_view(),
                i as int,
                depth as nat,
            ),
        decreases events.len() - i,
    {
        match &events[i] {
            XmlEvent::Start(_) => {
                depth += 1;
            },
            XmlEvent::End(_) => {
                if depth == 0 {
                    return Some(i + 1);
                }
                depth -= 1;
            },
            XmlEvent::Eof => {
                return None;
            },
            XmlEvent::Malformed => {
                return None;
            },
            _ => {},
        }
        i += 1;
    }
    None
}

pub fn namespace_matches(ns: &Option<Namespace>, resolved: &ResolvedNamespace) -> (matches: bool)
    ensures
        matches == ns_matches(*ns, resolved.deep_view()),
{
    match ns {
        Some(n) => match resolved {
            ResolvedNamespace::Bound(uri) => bytes_eq(uri.as_slice(), n.uri.as_slice()),
            _ => false,
        },
        None => matches!(resolved, ResolvedNamespace::Unbound),
    }
}

fn variant_partition_exec(tns: &Option<Namespace>, resolved: &ResolvedNamespace) -> (own: bool)
    ensures
        own == variant_partition(*tns, resolved.deep_view()),
{
    match resolved {
        ResolvedNamespace::Unbound => true,
        ResolvedNamespace::Bound(uri) => match tns {
            Some(n) => bytes_eq(uri.as_slice(), n.uri.as_slice()),
            None => false,
        },
        ResolvedNamespace::Unknown => false,
    }
}

fn root_partition_exec(tns: &Option<Namespace>, resolved: &ResolvedNamespace) -> (own: bool)
    ensures
        own == root_partition(*tns, resolved.deep_view()),
{
    match tns {
        Some(_) => matches!(resolved, ResolvedNamespace::Bound(_)),
        None => matches!(resolved, ResolvedNamespace::Unbound),
    }
}

/// The first field of the given kind that the tag matches; `local` is the
/// local part of the tag's name.
fn find_field_exec(fields: &Vec<FieldDescriptor>, kind: EleType, tag: &XmlTag, local: &[u8]) -> (found:
    Option<usize>)
    requires
        local@ == local_part(tag.name@),
    ensures
        match found {
            Some(i) => find_field(fields@, kind, tag.deep_view(), 0) == Some(i as int) && i
                < fields.len(),
            None => find_field(fields@, kind, tag.deep_view(), 0) is None,
        },
{
    let mut i: usize = 0;
    while i < fields.len()
        invariant
            i <= fields.len(),
            local@ == local_part(tag.name@),
            find_field(fields@, kind, tag.deep_view(), 0) == find_field(
                fields@,
                kind,
                tag.deep_view(),
                i as int,
            ),
        decreases fields.len() - i,
    {
        let f = &fields[i];
        if kind_eq(f.ty, kind) {
            match &f.name {
                Some(name) => {
                    if bytes_eq(local, name.as_slice()) && namespace_matches(&f.ns, &tag.namespace) {
                        return Some(i);
                    }
                },
                None => {},
            }
        }
        i += 1;
    }
    None
}

fn find_attribute_exec(fields: &Vec<FieldDescriptor>, local: &[u8]) -> (found: Option<usize>)
    ensures
        match found {
            Some(i) => find_attribute(fields@, local@, 0) == Some(i as int) && i < fields.len(),
            None => find_attribute(fields@, local@, 0) is None,
        },
{
    let mut i: usize = 0;
    while i < fields.len()
        invariant
            i <= fields.len(),
            find_attribute(fields@, local@, 0) == find_attribute(fields@, local@, i as int),
        decreases fields.len() - i,
    {
        let f = &fields[i];
        if kind_eq(f.ty, EleType::Attr) && f.value.is_none() {
            match &f.name {
                Some(name) => {
                    if bytes_eq(name.as_slice(), local) {
                        return Some(i);
                    }
                },
                None => {},
            }
        }
        i += 1;
    }
    None
}

pub fn find_kind_exec(fields: &Vec<FieldDescriptor>, kind: EleType) -> (found: Option<usize>)
    ensures
        match found {
            Some(i) => find_kind(fields@, kind, 0) == Some(i as int) && i < fields.len(),
            None => find_kind(fields@, kind, 0) is None,
        },
{
    let mut i: usize = 0;
    while i < fields.len()
        invariant
            i <= fields.len(),
            find_kind(fields@, kind, 0) == find_kind(fields@, kind, i as int),
        decreases fields.len() - i,
    {
        if kind_eq(fields[i].ty, kind) {
            return Some(i);
        }
        i += 1;
    }
    None
}

fn find_variant_exec(variants: &Vec<VariantDescriptor>, tag: &XmlTag, local: &[u8]) -> (found:
    Option<usize>)
    requires
        local@ == local_part(tag.name@),
    ensures
        match found {
            Some(i) => find_variant(variants@, tag.deep_view(), 0) == Some(i as int) && i
                < variants.len(),
            None => find_variant(variants@, tag.deep_view(), 0) is None,
        },
{
    let mut i: usize = 0;
    while i < variants.len()
        invariant
            i <= variants.len(),
            local@ == local_part(tag.name@),
            find_variant(variants@, tag.deep_view(), 0) == find_variant(
                variants@,
                tag.deep_view(),
                i as int,
            ),
        decreases variants.len() - i,
    {
        let v = &variants[i];
        if bytes_eq(local, v.name.as_slice()) && namespace_matches(&v.ns, &tag.namespace) {
            return Some(i);
        }
        i += 1;
    }
    None
}

/// The tags of the variants in single quotes, with bars between them.
pub fn expected_tags_exec(variants: &Vec<VariantDescriptor>) -> (tags: Vec<u8>)
    ensures
        tags@ == expected_tags(variants@),
{
    let mut tags: Vec<u8> = Vec::new();
    let mut i: usize = 0;
    assert(variants@.take(0) =~= Seq::empty());
    while i < variants.len()
        invariant
            i <= variants.len(),
            tags@ == expected_tags(variants@.take(i as int)),
        decreases variants.len() - i,
    {
        proof {
            let longer = variants@.take(i + 1);
            assert(longer.drop_last() =~= variants@.take(i as int));
            assert(longer.last() == variants@[i as int]);
        }
        let ghost before = tags@;
        if i > 0 {
            tags.push(0x7c);
        }
        tags.push(0x27);
        append_bytes(&mut tags, variants[i].name.as_slice());
        tags.push(0x27);
        proof {
            let quoted = seq![0x27u8] + variants@[i as int].name@ + seq![0x27u8];
            if i > 0 {
                assert(tags@ =~= before + seq![0x7cu8] + quoted);
            } else {
                assert(tags@ =~= quoted);
            }
        }
        i += 1;
    }
    assert(variants@.take(variants.len() as int) =~= variants@);
    tags
}

fn scalar_of_text_exec(kind: ValueKind, text: &[u8]) -> (value: Option<Value>)
    ensures
        match value {
            Some(v) => scalar_of_text(kind, text@) == Some(v.deep_view()),
            None => scalar_of_text(kind, text@) is None,
        },
{
    match kind {
        ValueKind::String => Some(Value::Text(copy_bytes(text))),
        ValueKind::Bool => {
            let inner = strip(text);
            match parse_bool(inner.as_slice()) {
                Some(b) => Some(Value::Bool(b)),
                None => None,
            }
        },
        ValueKind::Number(ty) => {
            let inner = strip(text);
            match parse_number(inner.as_slice(), ty) {
                Some(n) => Some(Value::Number(n)),
                None => None,
            }
        },
        ValueKind::NestedBindable(_) => None,
    }
}

fn scalar_zero_exec(kind: ValueKind) -> (value: Value)
    ensures
        value.deep_view() == scalar_zero(kind),
{
    match kind {
        ValueKind::String => Value::Text(Vec::new()),
        ValueKind::Bool => Value::Bool(false),
        ValueKind::Number(_) => Value::Number(0),
        ValueKind::NestedBindable(_) => Value::Absent,
    }
}

fn zero_value_exec(table: &Bindings, kind: ValueKind, fuel: usize) -> (value: Value)
    ensures
        value.deep_view() == zero_value(table, kind, fuel as nat),
    decreases fuel, 0nat,
{
    match kind {
        ValueKind::NestedBindable(r) => {
            if fuel == 0 || r >= table.containers.len() {
                Value::Absent
            } else {
                match &table.containers[r] {
                    ContainerDescriptor::Struct { fields, .. } => {
                        let mut items: Vec<Value> = Vec::new();
                        let mut i: usize = 0;
                        while i < fields.len()
                            invariant
                                i <= fields.len(),
                                fuel > 0,
                                items.len() == i,
                                forall|j: int|
                                    0 <= j < i ==> value_view(#[trigger] items@[j]) == zero_field(
                                        table,
                                        fields@[j],
                                        (fuel - 1) as nat,
                                    ),
                            decreases fields.len() - i,
                        {
                            let item = zero_field_exec(table, &fields[i], fuel - 1);
                            items.push(item);
                            i += 1;
                        }
                        proof {
                            lemma_list_view(items);
                            assert(values_view(items@) =~= zero_value(
                                table,
                                kind,
                                fuel as nat,
                            )->Struct_0);
                        }
                        Value::Struct(items)
                    },
                    ContainerDescriptor::Enum { .. } => Value::Absent,
                }
            }
        },
        _ => scalar_zero_exec(kind),
    }
}

fn zero_field_exec(table: &Bindings, f: &FieldDescriptor, fuel: usize) -> (value: Value)
    ensures
        value.deep_view() == zero_field(table, *f, fuel as nat),
    decreases fuel, 1nat,
{
    match &f.value {
        Some(constant) => Value::Text(copy_bytes(constant.as_slice())),
        None => {
            match f.cardinality {
                Cardinality::Repeated => {
                    let items: Vec<Value> = Vec::new();
                    proof {
                        lemma_list_view(items);
                        assert(values_view(items@) =~= Seq::empty());
                    }
                    Value::List(items)
                },
                Cardinality::Optional => Value::Absent,
                Cardinality::Required => {
                    if kind_eq(f.ty, EleType::SelfClosedChild) && matches!(
                        f.value_kind,
                        ValueKind::Bool
                    ) {
                        Value::Bool(false)
                    } else {
                        zero_value_exec(table, f.value_kind, fuel)
                    }
                },
            }
        },
    }
}

/// The zero value of a kind in this table.
pub fn default_value_exec(table: &Bindings, kind: ValueKind) -> (value: Value)
    ensures
        value.deep_view() == default_value(table, kind),
{
    zero_value_exec(table, kind, table.containers.len())
}

fn text_error(e: TextError) -> (error: XmlDeserializeError)
    ensures
        error.deep_view() == match e {
            TextError::NotUtf8 => ErrorView::EncodingError,
            TextError::BadEscape => ErrorView::MalformedInput,
        },
{
    match e {
        TextError::NotUtf8 => XmlDeserializeError::EncodingError,
        TextError::BadEscape => XmlDeserializeError::MalformedInput,
    }
}

fn field_scalar_exec(f: &FieldDescriptor, text: &Result<Vec<u8>, TextError>) -> (value: Result<
    Value,
    XmlDeserializeError,
>)
    ensures
        outcome_view(value) == field_scalar(*f, text_view(*text)),
{
    match text {
        Err(e) => Err(text_error(*e)),
        Ok(t) => match scalar_of_text_exec(f.value_kind, t.as_slice()) {
            Some(v) => Ok(v),
            None => if f.default {
                Ok(scalar_zero_exec(f.value_kind))
            } else {
                Err(XmlDeserializeError::ValueParseError)
            },
        },
    }
}

fn payload_scalar_exec(kind: ValueKind, text: &Result<Vec<u8>, TextError>) -> (value: Result<
    Value,
    XmlDeserializeError,
>)
    ensures
        outcome_view(value) == payload_scalar(kind, text_view(*text)),
{
    match text {
        Err(e) => Err(text_error(*e)),
        Ok(t) => match scalar_of_text_exec(kind, t.as_slice()) {
            Some(v) => Ok(v),
            None => Err(XmlDeserializeError::ValueParseError),
        },
    }
}

fn initial_slots_exec(fields: &Vec<FieldDescriptor>) -> (slots: Vec<Value>)
    ensures
        values_view(slots@) == initial_slots(fields@),
        slots.len() == fields.len(),
{
    let mut slots: Vec<Value> = Vec::new();
    let mut i: usize = 0;
    while i < fields.len()
        invariant
            i <= fields.len(),
            slots.len() == i,
            forall|j: int| 0 <= j < i ==> value_view(#[trigger] slots@[j]) == initial_slot(fields@[j]),
        decreases fields.len() - i,
    {
        match fields[i].cardinality {
            Cardinality::Repeated => {
                let items: Vec<Value> = Vec::new();
                proof {
                    lemma_list_view(items);
                    assert(values_view(items@) =~= Seq::empty());
                }
                slots.push(Value::List(items));
            },
            _ => {
                slots.push(Value::Absent);
            },
        }
        i += 1;
    }
    assert(values_view(slots@) =~= initial_slots(fields@));
    slots
}

/// Notes an occurrence of field `i`.
fn assign_exec(slots: &mut Vec<Value>, i: usize, card: Cardinality, v: Value)
    requires
        i < old(slots).len(),
    ensures
        final(slots).len() == old(slots).len(),
        values_view(final(slots)@) == assign(
            values_view(old(slots)@),
            i as int,
            card,
            v.deep_view(),
        ),
{
    let ghost before = slots@;
    let ghost value = v.deep_view();
    let mut taken = Value::Absent;
    std::mem::swap(&mut slots[i], &mut taken);
    let stored = match card {
        Cardinality::Repeated => match taken {
            Value::List(mut items) => {
                proof {
                    lemma_list_view(items);
                    crate::value::lemma_values_view_push(items@, v);
                }
                items.push(v);
                proof {
                    lemma_list_view(items);
                }
                Value::List(items)
            },
            _ => {
                let mut items: Vec<Value> = Vec::new();
                items.push(v);
                proof {
                    lemma_list_view(items);
                    assert(values_view(items@) =~= seq![value]);
                }
                Value::List(items)
            },
        },
        _ => v,
    };
    slots[i] = stored;
    assert(values_view(slots@) =~= assign(values_view(before), i as int, card, value));
}

/// Reads the attributes of a tag into the fields they name.
fn decode_attributes_exec(
    fields: &Vec<FieldDescriptor>,
    attributes: &Vec<XmlAttribute>,
    initial: Vec<Value>,
) -> (after: Result<Vec<Value>, XmlDeserializeError>)
    requires
        initial.len() == fields.len(),
    ensures
        slots_view(after) == decode_attributes(
            fields@,
            attributes.deep_view(),
            0,
            values_view(initial@),
        ),
        after matches Ok(s) ==> s.len() == fields.len(),
{
    let ghost whole = decode_attributes(fields@, attributes.deep_view(), 0, values_view(initial@));
    let mut slots = initial;
    let mut k: usize = 0;
    while k < attributes.len()
        invariant
            k <= attributes.len(),
            slots.len() == fields.len(),
            whole == decode_attributes(fields@, attributes.deep_view(), 0, values_view(initial@)),
            whole == decode_attributes(
                fields@,
                attributes.deep_view(),
                k as int,
                values_view(slots@),
            ),
        decreases attributes.len() - k,
    {
        let attribute = &attributes[k];
        let local = local_name(attribute.key.as_slice());
        match find_attribute_exec(fields, local.as_slice()) {
            None => {},
            Some(i) => {
                match field_scalar_exec(&fields[i], &attribute.value) {
                    Err(e) => {
                        return Err(e);
                    },
                    Ok(v) => {
                        assign_exec(&mut slots, i, fields[i].cardinality, v);
                    },
                }
            },
        }
        k += 1;
    }
    Ok(slots)
}


pub open spec fn progress_view(p: (Result<Vec<Value>, XmlDeserializeError>, usize)) -> Progress {
    Progress { slots: slots_view(p.0), next: p.1 as int }
}

pub open spec fn decoded_view(d: (Result<Value, XmlDeserializeError>, usize)) -> Decoded {
    Decoded { outcome: outcome_view(d.0), next: d.1 as int }
}

pub open spec fn dispatched_view(d: (Result<Option<Value>, XmlDeserializeError>, usize)) -> Dispatched {
    Dispatched {
        outcome: match d.0 {
            Ok(Some(v)) => Ok(Some(v.deep_view())),
            Ok(None) => Ok(None),
            Err(e) => Err(e.deep_view()),
        },
        next: d.1 as int,
    }
}

fn name_or_empty_exec(f: &FieldDescriptor) -> (name: Vec<u8>)
    ensures
        name@ == f.name_or_empty(),
{
    match &f.name {
        Some(name) => copy_bytes(name.as_slice()),
        None => Vec::new(),
    }
}

fn find_missing_exec(fields: &Vec<FieldDescriptor>, slots: &Vec<Value>) -> (found: Option<usize>)
    requires
        slots.len() == fields.len(),
    ensures
        match found {
            Some(i) => find_missing(fields@, values_view(slots@), 0) == Some(i as int) && i
                < fields.len(),
            None => find_missing(fields@, values_view(slots@), 0) is None,
        },
{
    let mut i: usize = 0;
    while i < fields.len()
        invariant
            i <= fields.len(),
            slots.len() == fields.len(),
            find_missing(fields@, values_view(slots@), 0) == find_missing(
                fields@,
                values_view(slots@),
                i as int,
            ),
        decreases fields.len() - i,
    {
        let f = &fields[i];
        let required = matches!(f.cardinality, Cardinality::Required);
        let flag = kind_eq(f.ty, EleType::SelfClosedChild) && matches!(f.value_kind, ValueKind::Bool);
        if required && slots[i].is_absent() && !f.default && f.value.is_none() && !flag {
            return Some(i);
        }
        i += 1;
    }
    None
}

/// Makes the struct value of what was read, or names the first field that
/// is missing.
fn finish_exec(table: &Bindings, fields: &Vec<FieldDescriptor>, slots: Vec<Value>) -> (value: Result<
    Value,
    XmlDeserializeError,
>)
    requires
        slots.len() == fields.len(),
    ensures
        outcome_view(value) == finish(table, fields@, values_view(slots@)),
{
    match find_missing_exec(fields, &slots) {
        Some(i) => {
            let name = S(name_or_empty_exec(&fields[i]));
            if kind_eq(fields[i].ty, EleType::Attr) {
                Err(XmlDeserializeError::MissingAttribute(name))
            } else {
                Err(XmlDeserializeError::MissingElement(name))
            }
        },
        None => {
            let ghost read = values_view(slots@);
            let mut slots = slots;
            let mut values: Vec<Value> = Vec::new();
            let mut i: usize = 0;
            while i < fields.len()
                invariant
                    i <= fields.len(),
                    slots.len() == fields.len(),
                    read.len() == fields.len(),
                    values.len() == i,
                    forall|j: int| i <= j < fields.len() ==> value_view(#[trigger] slots@[j]) == read[j],
                    forall|j: int|
                        0 <= j < i ==> value_view(#[trigger] values@[j]) == final_value(
                            table,
                            fields@[j],
                            read[j],
                        ),
                decreases fields.len() - i,
            {
                let f = &fields[i];
                let mut taken = Value::Absent;
                std::mem::swap(&mut slots[i], &mut taken);
                let value = match &f.value {
                    Some(constant) => Value::Text(copy_bytes(constant.as_slice())),
                    None => {
                        if matches!(f.cardinality, Cardinality::Required) && taken.is_absent() {
                            zero_field_exec(table, f, table.containers.len())
                        } else {
                            taken
                        }
                    },
                };
                values.push(value);
                i += 1;
            }
            proof {
                lemma_list_view(values);
                assert(values_view(values@) =~= finish(table, fields@, read)->Ok_0->Struct_0);
            }
            Ok(Value::Struct(values))
        },
    }
}

fn end_matches_exec(c: &ContainerDescriptor, tag: &[u8], end: &XmlTag) -> (matches: bool)
    ensures
        matches == end_matches(*c, tag@, end.deep_view()),
{
    let local = local_name(end.name.as_slice());
    if !bytes_eq(local.as_slice(), tag) {
        return false;
    }
    match c {
        ContainerDescriptor::Struct { tns, .. } => namespace_matches(tns, &end.namespace),
        ContainerDescriptor::Enum { tns, .. } => namespace_matches(tns, &end.namespace),
    }
}

/// Reads the content of a container that holds text.
fn decode_text_content_exec(
    f: &FieldDescriptor,
    i: usize,
    tag: &[u8],
    events: &Vec<XmlEvent>,
    pos: usize,
    initial: Vec<Value>,
) -> (p: (Result<Vec<Value>, XmlDeserializeError>, usize))
    requires
        pos <= events.len(),
        i < initial.len(),
    ensures
        progress_view(p) == decode_text_content(
            *f,
            i as int,
            tag@,
            events.deep_view(),
            pos as int,
            values_view(initial@),
        ),
        pos <= p.1 <= events.len(),
        p.0 matches Ok(s) ==> s.len() == initial.len(),
{
    let ghost whole = decode_text_content(
        *f,
        i as int,
        tag@,
        events.deep_view(),
        pos as int,
        values_view(initial@),
    );
    let ghost width = initial.len();
    let mut slots = initial;
    let mut at: usize = pos;
    while at < events.len()
        invariant
            pos <= at <= events.len(),
            slots.len() == width,
            width == initial.len(),
            i < width,
            whole == decode_text_content(
                *f,
                i as int,
                tag@,
                events.deep_view(),
                pos as int,
                values_view(initial@),
            ),
            whole == decode_text_content(
                *f,
                i as int,
                tag@,
                events.deep_view(),
                at as int,
                values_view(slots@),
            ),
        decreases events.len() - at,
    {
        match &events[at] {
            XmlEvent::Text(text) => {
                match field_scalar_exec(f, text) {
                    Err(e) => {
                        return (Err(e), at + 1);
                    },
                    Ok(v) => {
                        assign_exec(&mut slots, i, f.cardinality, v);
                        at += 1;
                    },
                }
            },
            XmlEvent::Start(_) => {
                match skip_subtree(events, at + 1) {
                    Some(next) => {
                        at = next;
                    },
                    None => {
                        return (Err(XmlDeserializeError::MalformedInput), at + 1);
                    },
                }
            },
            XmlEvent::End(end) => {
                let local = local_name(end.name.as_slice());
                if bytes_eq(local.as_slice(), tag) {
                    return (Ok(slots), at + 1);
                }
                at += 1;
            },
            XmlEvent::Eof => {
                return (Ok(slots), at);
            },
            XmlEvent::Malformed => {
                return (Err(XmlDeserializeError::MalformedInput), at);
            },
            _ => {
                at += 1;
            },
        }
    }
    (Ok(slots), at)
}

/// Passes over events up to and including the closing tag of a container.
fn close_container_exec(c: &ContainerDescriptor, tag: &[u8], events: &Vec<XmlEvent>, pos: usize) -> (next:
    Option<usize>)
    requires
        pos <= events.len(),
    ensures
        match next {
            Some(n) => close_container(*c, tag@, events.deep_view(), pos as int) == Some(n as int)
                && pos <= n <= events.len(),
            None => close_container(*c, tag@, events.deep_view(), pos as int) is None,
        },
{
    let mut at: usize = pos;
    while at < events.len()
        invariant
            pos <= at <= events.len(),
            close_container(*c, tag@, events.deep_view(), pos as int) == close_container(
                *c,
                tag@,
                events.deep_view(),
                at as int,
            ),
        decreases events.len() - at,
    {
        match &events[at] {
            XmlEvent::End(end) => {
                if end_matches_exec(c, tag, end) {
                    return Some(at + 1);
                }
            },
            XmlEvent::Eof => {
                return Some(at);
            },
            XmlEvent::Malformed => {
                return None;
            },
            _ => {},
        }
        at += 1;
    }
    Some(at)
}


/// Decodes the container `r`, opened under `tag` with these attributes.
pub fn decode_container_exec(
    table: &Bindings,
    r: usize,
    tag: &[u8],
    attributes: &Vec<XmlAttribute>,
    is_empty: bool,
    events: &Vec<XmlEvent>,
    pos: usize,
) -> (d: (Result<Value, XmlDeserializeError>, usize))
    requires
        pos <= events.len(),
    ensures
        decoded_view(d) == decode_container(
            table,
            r as int,
            tag@,
            attributes.deep_view(),
            is_empty,
            events.deep_view(),
            pos as int,
        ),
        pos <= d.1 <= events.len(),
    decreases events.len() - pos, 5nat,
{
    if r >= table.containers.len() {
        return (Err(XmlDeserializeError::MalformedInput), pos);
    }
    match &table.containers[r] {
        ContainerDescriptor::Struct { fields, .. } => {
            let slots = initial_slots_exec(fields);
            match decode_attributes_exec(fields, attributes, slots) {
                Err(e) => (Err(e), pos),
                Ok(slots) => {
                    let content = decode_content_exec(table, r, tag, is_empty, events, pos, slots);
                    match content.0 {
                        Err(e) => (Err(e), content.1),
                        Ok(done) => (finish_exec(table, fields, done), content.1),
                    }
                },
            }
        },
        ContainerDescriptor::Enum { variants, .. } => {
            if is_empty {
                (Err(XmlDeserializeError::MissingVariant(S(expected_tags_exec(variants)))), pos)
            } else {
                let found = decode_variant_exec(table, r, events, pos);
                match found.0 {
                    Err(e) => (Err(e), found.1),
                    Ok(v) => {
                        if tag.len() == 0 {
                            (Ok(v), found.1)
                        } else {
                            match close_container_exec(&table.containers[r], tag, events, found.1) {
                                Some(next) => (Ok(v), next),
                                None => (Err(XmlDeserializeError::MalformedInput), found.1),
                            }
                        }
                    },
                }
            }
        },
    }
}

/// Reads the content of the struct container `r`.
fn decode_content_exec(
    table: &Bindings,
    r: usize,
    tag: &[u8],
    is_empty: bool,
    events: &Vec<XmlEvent>,
    pos: usize,
    slots: Vec<Value>,
) -> (p: (Result<Vec<Value>, XmlDeserializeError>, usize))
    requires
        r < table.containers.len(),
        table.containers[r as int] is Struct,
        slots.len() == table.containers[r as int]->fields.len(),
        pos <= events.len(),
    ensures
        progress_view(p) == decode_content(
            table,
            r as int,
            tag@,
            is_empty,
            events.deep_view(),
            pos as int,
            values_view(slots@),
        ),
        pos <= p.1 <= events.len(),
        p.0 matches Ok(s) ==> s.len() == slots.len(),
    decreases events.len() - pos, 4nat,
{
    match &table.containers[r] {
        ContainerDescriptor::Struct { fields, .. } => {
            match find_kind_exec(fields, EleType::Text) {
                Some(i) => {
                    if is_empty {
                        if matches!(fields[i].value_kind, ValueKind::String) {
                            let mut slots = slots;
                            assign_exec(&mut slots, i, fields[i].cardinality, Value::Text(Vec::new()));
                            (Ok(slots), pos)
                        } else {
                            (Ok(slots), pos)
                        }
                    } else {
                        decode_text_content_exec(&fields[i], i, tag, events, pos, slots)
                    }
                },
                None => {
                    if is_empty {
                        (Ok(slots), pos)
                    } else {
                        decode_children_exec(table, r, tag, events, pos, slots)
                    }
                },
            }
        },
        ContainerDescriptor::Enum { .. } => (Ok(slots), pos),
    }
}

/// Reads the child elements of the struct container `r`.
fn decode_children_exec(
    table: &Bindings,
    r: usize,
    tag: &[u8],
    events: &Vec<XmlEvent>,
    pos: usize,
    initial: Vec<Value>,
) -> (p: (Result<Vec<Value>, XmlDeserializeError>, usize))
    requires
        r < table.containers.len(),
        table.containers[r as int] is Struct,
        initial.len() == table.containers[r as int]->fields.len(),
        pos <= events.len(),
    ensures
        progress_view(p) == decode_children(
            table,
            r as int,
            tag@,
            events.deep_view(),
            pos as int,
            values_view(initial@),
        ),
        pos <= p.1 <= events.len(),
        p.0 matches Ok(s) ==> s.len() == initial.len(),
    decreases events.len() - pos, 3nat,
{
    let ghost whole = decode_children(
        table,
        r as int,
        tag@,
        events.deep_view(),
        pos as int,
        values_view(initial@),
    );
    let container = &table.containers[r];
    match container {
        ContainerDescriptor::Struct { fields, .. } => {
            let mut slots = initial;
            let mut at: usize = pos;
            while at < events.len()
                invariant
                                r < table.containers.len(),
                    *container == table.containers[r as int],
                    table.containers[r as int] is Struct,
                    *fields == table.containers[r as int]->fields,
                                pos <= at <= events.len(),
                    slots.len() == fields.len(),
                    initial.len() == fields.len(),
                    whole == decode_children(
                        table,
                        r as int,
                        tag@,
                        events.deep_view(),
                        pos as int,
                        values_view(initial@),
                    ),
                    whole == decode_children(
                        table,
                        r as int,
                        tag@,
                        events.deep_view(),
                        at as int,
                        values_view(slots@),
                    ),
                decreases events.len() - at,
            {
                match &events[at] {
                    XmlEvent::Start(t) => {
                        let step = decode_child_exec(table, fields, t, false, events, at + 1, slots);
                        match step.0 {
                            Ok(after) => {
                                slots = after;
                                at = step.1;
                            },
                            Err(e) => {
                                return (Err(e), step.1);
                            },
                        }
                    },
                    XmlEvent::Empty(t) => {
                        let step = decode_child_exec(table, fields, t, true, events, at + 1, slots);
                        match step.0 {
                            Ok(after) => {
                                slots = after;
                                at = step.1;
                            },
                            Err(e) => {
                                return (Err(e), step.1);
                            },
                        }
                    },
                    XmlEvent::End(end) => {
                        if end_matches_exec(container, tag, end) {
                            return (Ok(slots), at + 1);
                        }
                        at += 1;
                    },
                    XmlEvent::Eof => {
                        return (Ok(slots), at);
                    },
                    XmlEvent::Malformed => {
                        return (Err(XmlDeserializeError::MalformedInput), at);
                    },
                    _ => {
                        at += 1;
                    },
                }
            }
            (Ok(slots), at)
        },
        ContainerDescriptor::Enum { .. } => (Ok(initial), pos),
    }
}

/// Reads one child element, whose tag stands just before `pos`.
fn decode_child_exec(
    table: &Bindings,
    fields: &Vec<FieldDescriptor>,
    t: &XmlTag,
    is_empty: bool,
    events: &Vec<XmlEvent>,
    pos: usize,
    slots: Vec<Value>,
) -> (p: (Result<Vec<Value>, XmlDeserializeError>, usize))
    requires
        slots.len() == fields.len(),
        pos <= events.len(),
    ensures
        progress_view(p) == decode_child(
            table,
            fields@,
            t.deep_view(),
            is_empty,
            events.deep_view(),
            pos as int,
            values_view(slots@),
        ),
        pos <= p.1 <= events.len(),
        p.0 matches Ok(s) ==> s.len() == slots.len(),
    decreases events.len() - pos, 8nat,
{
    let kind = if is_empty {
        EleType::SelfClosedChild
    } else {
        EleType::Child
    };
    let local = local_name(t.name.as_slice());
    match find_field_exec(fields, kind, t, local.as_slice()) {
        Some(i) => {
            let value = decode_field_exec(table, &fields[i], t, is_empty, events, pos);
            match value.0 {
                Err(e) => (Err(e), value.1),
                Ok(v) => {
                    if v.is_absent() {
                        (Ok(slots), value.1)
                    } else {
                        let mut slots = slots;
                        assign_exec(&mut slots, i, fields[i].cardinality, v);
                        (Ok(slots), value.1)
                    }
                },
            }
        },
        None => decode_unclaimed_exec(table, fields, t, local.as_slice(), is_empty, events, pos, slots),
    }
}

fn skip_unclaimed_exec(is_empty: bool, events: &Vec<XmlEvent>, pos: usize, slots: Vec<Value>) -> (p: (
    Result<Vec<Value>, XmlDeserializeError>,
    usize,
))
    requires
        pos <= events.len(),
    ensures
        progress_view(p) == skip_unclaimed(
            is_empty,
            events.deep_view(),
            pos as int,
            values_view(slots@),
        ),
        pos <= p.1 <= events.len(),
        p.0 matches Ok(s) ==> s == slots,
{
    if is_empty {
        (Ok(slots), pos)
    } else {
        match skip_subtree(events, pos) {
            Some(next) => (Ok(slots), next),
            None => (Err(XmlDeserializeError::MalformedInput), pos),
        }
    }
}

/// Offers an element that no child field claims to the fields that take such
/// elements.
fn decode_unclaimed_exec(
    table: &Bindings,
    fields: &Vec<FieldDescriptor>,
    t: &XmlTag,
    local: &[u8],
    is_empty: bool,
    events: &Vec<XmlEvent>,
    pos: usize,
    slots: Vec<Value>,
) -> (p: (Result<Vec<Value>, XmlDeserializeError>, usize))
    requires
        slots.len() == fields.len(),
        local@ == local_part(t.name@),
        pos <= events.len(),
    ensures
        progress_view(p) == decode_unclaimed(
            table,
            fields@,
            t.deep_view(),
            is_empty,
            events.deep_view(),
            pos as int,
            values_view(slots@),
            0,
        ),
        pos <= p.1 <= events.len(),
        p.0 matches Ok(s) ==> s.len() == slots.len(),
    decreases events.len() - pos, 7nat,
{
    let mut from: usize = 0;
    while from < fields.len()
        invariant
                    slots.len() == fields.len(),
            local@ == local_part(t.name@),
            pos <= events.len(),
            from <= fields.len(),
            decode_unclaimed(
                table,
                fields@,
                t.deep_view(),
                is_empty,
                events.deep_view(),
                pos as int,
                values_view(slots@),
                0,
            ) == decode_unclaimed(
                table,
                fields@,
                t.deep_view(),
                is_empty,
                events.deep_view(),
                pos as int,
                values_view(slots@),
                from as int,
            ),
        decreases fields.len() - from,
    {
        let f = &fields[from];
        if kind_eq(f.ty, EleType::Any) {
            let skipped = skip_unclaimed_exec(is_empty, events, pos, slots);
            return match skipped.0 {
                Err(e) => (Err(e), skipped.1),
                Ok(kept) => {
                    let mut kept = kept;
                    assign_exec(&mut kept, from, f.cardinality, Value::Text(copy_bytes(t.name.as_slice())));
                    (Ok(kept), skipped.1)
                },
            };
        }
        if kind_eq(f.ty, EleType::Untag) {
            match f.value_kind {
                ValueKind::NestedBindable(r) if r < table.containers.len() => {
                    match &table.containers[r] {
                        ContainerDescriptor::Enum { variants, .. } => {
                            match find_variant_exec(variants, t, local) {
                                Some(j) => {
                                    let value = decode_payload_exec(
                                        table,
                                        &variants[j],
                                        j,
                                        t,
                                        is_empty,
                                        events,
                                        pos,
                                    );
                                    return match value.0 {
                                        Err(e) => (Err(e), value.1),
                                        Ok(None) => (Ok(slots), value.1),
                                        Ok(Some(v)) => {
                                            let mut slots = slots;
                                            assign_exec(&mut slots, from, f.cardinality, v);
                                            (Ok(slots), value.1)
                                        },
                                    };
                                },
                                None => {},
                            }
                        },
                        ContainerDescriptor::Struct { .. } => {},
                    }
                },
                _ => {},
            }
        }
        from += 1;
    }
    skip_unclaimed_exec(is_empty, events, pos, slots)
}

/// The value of one occurrence of a child field, whose tag stands just
/// before `pos`.
fn decode_field_exec(
    table: &Bindings,
    f: &FieldDescriptor,
    t: &XmlTag,
    is_empty: bool,
    events: &Vec<XmlEvent>,
    pos: usize,
) -> (d: (Result<Value, XmlDeserializeError>, usize))
    requires
        pos <= events.len(),
    ensures
        decoded_view(d) == decode_field(
            table,
            *f,
            t.deep_view(),
            is_empty,
            events.deep_view(),
            pos as int,
        ),
        pos <= d.1 <= events.len(),
    decreases events.len() - pos, 6nat,
{
    match f.value_kind {
        ValueKind::NestedBindable(r) => {
            let name = name_or_empty_exec(f);
            let nested = decode_container_exec(
                table,
                r,
                name.as_slice(),
                &t.attributes,
                is_empty,
                events,
                pos,
            );
            if nested.0.is_err() && f.default {
                (Ok(default_value_exec(table, f.value_kind)), nested.1)
            } else {
                nested
            }
        },
        kind => {
            if is_empty {
                if matches!(kind, ValueKind::Bool) {
                    (Ok(Value::Bool(true)), pos)
                } else {
                    (Ok(Value::Absent), pos)
                }
            } else if pos < events.len() {
                match &events[pos] {
                    XmlEvent::Text(text) => (field_scalar_exec(f, text), pos + 1),
                    XmlEvent::Malformed => (Err(XmlDeserializeError::MalformedInput), pos),
                    XmlEvent::Eof => (Ok(scalar_zero_exec(kind)), pos),
                    _ => (Ok(scalar_zero_exec(kind)), pos + 1),
                }
            } else {
                (Ok(scalar_zero_exec(kind)), pos)
            }
        },
    }
}

/// The value of a variant, whose tag stands just before `pos`.
fn decode_payload_exec(
    table: &Bindings,
    v: &VariantDescriptor,
    j: usize,
    t: &XmlTag,
    is_empty: bool,
    events: &Vec<XmlEvent>,
    pos: usize,
) -> (d: (Result<Option<Value>, XmlDeserializeError>, usize))
    requires
        pos <= events.len(),
    ensures
        dispatched_view(d) == decode_payload(
            table,
            *v,
            j as int,
            t.deep_view(),
            is_empty,
            events.deep_view(),
            pos as int,
        ),
        pos <= d.1 <= events.len(),
    decreases events.len() - pos, 6nat,
{
    proof {
        reveal_with_fuel(value_view, 2);
    }
    match v.payload {
        None => (Ok(Some(Value::Variant(j, Box::new(Value::Absent)))), pos),
        Some(ValueKind::NestedBindable(r)) => {
            let nested = decode_container_exec(
                table,
                r,
                v.name.as_slice(),
                &t.attributes,
                is_empty,
                events,
                pos,
            );
            match nested.0 {
                Err(e) => (Err(e), nested.1),
                Ok(value) => (Ok(Some(Value::Variant(j, Box::new(value)))), nested.1),
            }
        },
        Some(kind) => {
            if is_empty {
                if matches!(kind, ValueKind::Bool) {
                    (Ok(Some(Value::Variant(j, Box::new(Value::Bool(true))))), pos)
                } else {
                    (Ok(None), pos)
                }
            } else if pos < events.len() {
                match &events[pos] {
                    XmlEvent::Text(text) => match payload_scalar_exec(kind, text) {
                        Err(e) => (Err(e), pos + 1),
                        Ok(value) => (Ok(Some(Value::Variant(j, Box::new(value)))), pos + 1),
                    },
                    XmlEvent::Malformed => (Err(XmlDeserializeError::MalformedInput), pos),
                    XmlEvent::Eof => (Ok(None), pos),
                    _ => (Ok(None), pos + 1),
                }
            } else {
                (Ok(None), pos)
            }
        },
    }
}

/// Looks from `pos` on for the first element that is a variant of the enum
/// container `r` and decodes it.
pub fn decode_variant_exec(table: &Bindings, r: usize, events: &Vec<XmlEvent>, pos: usize) -> (d: (
    Result<Value, XmlDeserializeError>,
    usize,
))
    requires
        r < table.containers.len(),
        table.containers[r as int] is Enum,
        pos <= events.len(),
    ensures
        decoded_view(d) == decode_variant(table, r as int, events.deep_view(), pos as int),
        pos <= d.1 <= events.len(),
    decreases events.len() - pos, 3nat,
{
    let ghost whole = decode_variant(table, r as int, events.deep_view(), pos as int);
    match &table.containers[r] {
        ContainerDescriptor::Enum { variants, strict, tns } => {
            let mut at: usize = pos;
            while at < events.len()
                invariant
                    r < table.containers.len(),
                    table.containers[r as int] is Enum,
                    *tns == table.containers[r as int]->Enum_tns,
                    *variants == table.containers[r as int]->variants,
                    *strict == table.containers[r as int]->strict,
                    pos <= at <= events.len(),
                    whole == decode_variant(table, r as int, events.deep_view(), pos as int),
                    whole == decode_variant(table, r as int, events.deep_view(), at as int),
                decreases events.len() - at,
            {
                match &events[at] {
                    XmlEvent::Start(t) => {
                        let local = local_name(t.name.as_slice());
                        match find_variant_exec(variants, t, local.as_slice()) {
                            Some(j) => {
                                let found = decode_payload_exec(
                                    table,
                                    &variants[j],
                                    j,
                                    t,
                                    false,
                                    events,
                                    at + 1,
                                );
                                return match found.0 {
                                    Err(e) => (Err(e), found.1),
                                    Ok(Some(v)) => (Ok(v), found.1),
                                    Ok(None) => (
                                        Err(
                                            XmlDeserializeError::MissingVariant(
                                                S(expected_tags_exec(variants)),
                                            ),
                                        ),
                                        found.1,
                                    ),
                                };
                            },
                            None => {
                                if *strict {
                                    return (
                                        Err(
                                            XmlDeserializeError::UnknownVariant(
                                                copy_bytes(t.name.as_slice()),
                                                S(expected_tags_exec(variants)),
                                            ),
                                        ),
                                        at,
                                    );
                                }
                                if !variant_partition_exec(tns, &t.namespace) {
                                    at += 1;
                                } else {
                                    match skip_subtree(events, at + 1) {
                                        Some(next) => {
                                            at = next;
                                        },
                                        None => {
                                            return (
                                                Err(XmlDeserializeError::MalformedInput),
                                                at + 1,
                                            );
                                        },
                                    }
                                }
                            },
                        }
                    },
                    XmlEvent::Empty(t) => {
                        let local = local_name(t.name.as_slice());
                        match find_variant_exec(variants, t, local.as_slice()) {
                            Some(j) => {
                                let found = decode_payload_exec(
                                    table,
                                    &variants[j],
                                    j,
                                    t,
                                    true,
                                    events,
                                    at + 1,
                                );
                                return match found.0 {
                                    Err(e) => (Err(e), found.1),
                                    Ok(Some(v)) => (Ok(v), found.1),
                                    Ok(None) => (
                                        Err(
                                            XmlDeserializeError::MissingVariant(
                                                S(expected_tags_exec(variants)),
                                            ),
                                        ),
                                        found.1,
                                    ),
                                };
                            },
                            None => {
                                if *strict {
                                    return (
                                        Err(
                                            XmlDeserializeError::UnknownVariant(
                                                copy_bytes(t.name.as_slice()),
                                                S(expected_tags_exec(variants)),
                                            ),
                                        ),
                                        at,
                                    );
                                }
                                at += 1;
                            },
                        }
                    },
                    XmlEvent::Eof => {
                        return (
                            Err(XmlDeserializeError::MissingVariant(S(expected_tags_exec(variants)))),
                            at,
                        );
                    },
                    XmlEvent::Malformed => {
                        return (Err(XmlDeserializeError::MalformedInput), at);
                    },
                    _ => {
                        at += 1;
                    },
                }
            }
            (Err(XmlDeserializeError::MissingVariant(S(expected_tags_exec(variants)))), at)
        },
        ContainerDescriptor::Struct { .. } => (Err(XmlDeserializeError::MalformedInput), pos),
    }
}


fn tag_matches_exec(ns: &Option<Namespace>, name: &[u8], tag: &XmlTag) -> (matches: bool)
    ensures
        matches == tag_matches(*ns, name@, tag.deep_view()),
{
    let local = local_name(tag.name.as_slice());
    bytes_eq(local.as_slice(), name) && namespace_matches(ns, &tag.namespace)
}

/// Looks for the root element of the struct container `r` and decodes it.
fn decode_root_exec(table: &Bindings, r: usize, events: &Vec<XmlEvent>) -> (value: Result<
    Value,
    XmlDeserializeError,
>)
    ensures
        outcome_view(value) == decode_root(table, r as int, events.deep_view(), 0, None),
{
    if r >= table.containers.len() {
        return Err(XmlDeserializeError::MissingRoot);
    }
    match &table.containers[r] {
        ContainerDescriptor::Struct { root: Some(root), tns, .. } => {
            let ghost whole = decode_root(table, r as int, events.deep_view(), 0, None);
            let mut found: Option<Value> = None;
            let mut at: usize = 0;
            while at < events.len()
                invariant
                    r < table.containers.len(),
                    table.containers[r as int] is Struct,
                    table.containers[r as int]->root == Some(*root),
                    table.containers[r as int]->Struct_tns == *tns,
                    at <= events.len(),
                    whole == decode_root(table, r as int, events.deep_view(), 0, None),
                    whole == decode_root(
                        table,
                        r as int,
                        events.deep_view(),
                        at as int,
                        match found {
                            Some(v) => Some(v.deep_view()),
                            None => None,
                        },
                    ),
                decreases events.len() - at,
            {
                match &events[at] {
                    XmlEvent::Start(t) => {
                        if tag_matches_exec(tns, root.as_slice(), t) {
                            let value = decode_container_exec(
                                table,
                                r,
                                root.as_slice(),
                                &t.attributes,
                                false,
                                events,
                                at + 1,
                            );
                            match value.0 {
                                Ok(v) => {
                                    found = Some(v);
                                    at = value.1;
                                },
                                Err(e) => {
                                    return Err(e);
                                },
                            }
                        } else if !root_partition_exec(tns, &t.namespace) {
                            at += 1;
                        } else {
                            match skip_subtree(events, at + 1) {
                                Some(next) => {
                                    at = next;
                                },
                                None => {
                                    return Err(XmlDeserializeError::MalformedInput);
                                },
                            }
                        }
                    },
                    XmlEvent::Empty(t) => {
                        if tag_matches_exec(tns, root.as_slice(), t) {
                            let value = decode_container_exec(
                                table,
                                r,
                                root.as_slice(),
                                &t.attributes,
                                true,
                                events,
                                at + 1,
                            );
                            match value.0 {
                                Ok(v) => {
                                    found = Some(v);
                                    at = value.1;
                                },
                                Err(e) => {
                                    return Err(e);
                                },
                            }
                        } else {
                            at += 1;
                        }
                    },
                    XmlEvent::Eof => {
                        return match found {
                            Some(v) => Ok(v),
                            None => Err(
                                XmlDeserializeError::MissingElement(S(copy_bytes(root.as_slice()))),
                            ),
                        };
                    },
                    XmlEvent::Malformed => {
                        return Err(XmlDeserializeError::MalformedInput);
                    },
                    _ => {
                        at += 1;
                    },
                }
            }
            match found {
                Some(v) => Ok(v),
                None => Err(XmlDeserializeError::MissingElement(S(copy_bytes(root.as_slice())))),
            }
        },
        _ => Err(XmlDeserializeError::MissingRoot),
    }
}

/// Decodes a stream of events as a document whose root is the container `r`.
pub fn decode_events(table: &Bindings, r: usize, events: &Vec<XmlEvent>) -> (value: Result<
    Value,
    XmlDeserializeError,
>)
    ensures
        outcome_view(value) == decode_stream(table, r as int, events.deep_view()),
{
    if r < table.containers.len() && table.containers[r].is_enum() {
        decode_variant_exec(table, r, events, 0).0
    } else {
        decode_root_exec(table, r, events)
    }
}

} // verus!
