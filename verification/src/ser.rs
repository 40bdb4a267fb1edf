//! Encoding: from a value to markup, and from markup to text.

use crate::container::EleType;
use crate::de::find_kind;
use crate::decode::{find_kind_exec, kind_eq};
use crate::descriptor::{
    Bindings, Cardinality, ContainerDescriptor, FieldDescriptor, Namespace, ValueKind,
    VariantDescriptor,
};
use crate::event::is_utf8;
use crate::scalar::{format_bool, format_number, text_of_bool, text_of_integer};
use crate::text::{append_bytes, copy_bytes};
use crate::value::{lemma_list_view, values_view, Value, ValueView};
use quick_xml::events::{BytesDecl, BytesEnd, BytesStart, BytesText, Event};
use quick_xml::Writer;
use vstd::prelude::*;
use vstd::utf8::{decode_utf8, valid_utf8};

verus! {

/// Why a value could not be encoded.
#[derive(Debug, Clone, Copy, PartialEq, Eq, Structural)]
pub enum XmlSerializeError {
    /// The container is encoded as a document's root and names no root tag.
    MissingRoot,
    /// A name or a text that is not UTF-8.
    EncodingError,
    /// A value that is not of the shape its descriptor gives it.
    UnexpectedValue,
}

pub type XmlSerializeResult<T> = Result<T, XmlSerializeError>;

/// An attribute as it is written: the value is escaped.
#[derive(Debug, PartialEq, Eq)]
pub struct MarkupAttribute {
    pub key: Vec<u8>,
    pub value: Vec<u8>,
}

pub struct MarkupAttributeView {
    pub key: Seq<u8>,
    pub value: Seq<u8>,
}

impl DeepView for MarkupAttribute {
    type V = MarkupAttributeView;

    open spec fn deep_view(&self) -> MarkupAttributeView {
        MarkupAttributeView { key: self.key@, value: self.value@ }
    }
}

/// A tag as it is written: its qualified name and its attributes.
#[derive(Debug, PartialEq, Eq)]
pub struct MarkupTag {
    pub name: Vec<u8>,
    pub attributes: Vec<MarkupAttribute>,
}

pub struct MarkupTagView {
    pub name: Seq<u8>,
    pub attributes: Seq<MarkupAttributeView>,
}

impl DeepView for MarkupTag {
    type V = MarkupTagView;

    open spec fn deep_view(&self) -> MarkupTagView {
        MarkupTagView { name: self.name@, attributes: self.attributes.deep_view() }
    }
}

/// One piece of markup that the encoder hands to the writer.
#[derive(Debug, PartialEq, Eq)]
pub enum Markup {
    Start(MarkupTag),
    Empty(MarkupTag),
    /// A closing tag, by its qualified name.
    End(Vec<u8>),
    /// Text, escaped.
    Text(Vec<u8>),
}

pub enum MarkupView {
    Start(MarkupTagView),
    Empty(MarkupTagView),
    End(Seq<u8>),
    Text(Seq<u8>),
}

impl DeepView for Markup {
    type V = MarkupView;

    open spec fn deep_view(&self) -> MarkupView {
        match self {
            Markup::Start(tag) => MarkupView::Start(tag.deep_view()),
            Markup::Empty(tag) => MarkupView::Empty(tag.deep_view()),
            Markup::End(name) => MarkupView::End(name@),
            Markup::Text(text) => MarkupView::Text(text@),
        }
    }
}

/// What a byte is written as in text and in attribute values.
pub open spec fn escape_byte(b: u8) -> Seq<u8> {
    if b == 0x3c {
        seq![0x26u8, 0x6cu8, 0x74u8, 0x3bu8]
    } else if b == 0x3e {
        seq![0x26u8, 0x67u8, 0x74u8, 0x3bu8]
    } else if b == 0x26 {
        seq![0x26u8, 0x61u8, 0x6du8, 0x70u8, 0x3bu8]
    } else if b == 0x27 {
        seq![0x26u8, 0x61u8, 0x70u8, 0x6fu8, 0x73u8, 0x3bu8]
    } else if b == 0x22 {
        seq![0x26u8, 0x71u8, 0x75u8, 0x6fu8, 0x74u8, 0x3bu8]
    } else {
        seq![b]
    }
}

/// Text with `<`, `>`, `&`, `'` and `"` written as entity references.
pub open spec fn escaped(raw: Seq<u8>) -> Seq<u8>
    decreases raw.len(),
{
    if raw.len() == 0 {
        Seq::empty()
    } else {
        escaped(raw.drop_last()) + escape_byte(raw.last())
    }
}

/// Escaped text, for text that is UTF-8.
pub open spec fn escaped_text(raw: Seq<u8>) -> Result<Seq<u8>, XmlSerializeError> {
    if valid_utf8(raw) {
        Ok(escaped(raw))
    } else {
        Err(XmlSerializeError::EncodingError)
    }
}

/// A name with the prefix of its namespace, if it has one.
pub open spec fn qualified(ns: Option<Namespace>, name: Seq<u8>) -> Seq<u8> {
    match ns {
        Some(n) => n.prefix@ + seq![0x3au8] + name,
        None => name,
    }
}

/// The text of a scalar of the given kind; `None` for a value of another kind.
pub open spec fn scalar_text(kind: ValueKind, v: ValueView) -> Option<Seq<u8>> {
    match (kind, v) {
        (ValueKind::String, ValueView::Text(t)) => Some(t),
        (ValueKind::Bool, ValueView::Bool(b)) => Some(text_of_bool(b)),
        (ValueKind::Number(_), ValueView::Number(n)) => Some(text_of_integer(n)),
        _ => None,
    }
}

/// The name under which a field is written as an attribute: a namespace
/// declaration under `xmlns:` and its name, an attribute under its qualified name.
pub open spec fn attribute_key(f: FieldDescriptor) -> Seq<u8> {
    if f.ty == EleType::XmlNs {
        seq![0x78u8, 0x6du8, 0x6cu8, 0x6eu8, 0x73u8, 0x3au8] + f.name_or_empty()
    } else {
        qualified(f.ns, f.name_or_empty())
    }
}

/// The attribute that a field is written as, if it is written as one: a
/// constant always, an optional attribute where it is there, a repeated one never.
pub open spec fn attribute_of(f: FieldDescriptor, v: ValueView) -> Result<
    Option<MarkupAttributeView>,
    XmlSerializeError,
> {
    if !(f.ty == EleType::Attr || f.ty == EleType::XmlNs) || f.name is None {
        Ok(None)
    } else if f.value is Some {
        match escaped_text(f.value->0@) {
            Ok(value) => Ok(Some(MarkupAttributeView { key: attribute_key(f), value })),
            Err(e) => Err(e),
        }
    } else if f.cardinality == Cardinality::Repeated || (f.cardinality == Cardinality::Optional
        && v is Absent) {
        Ok(None)
    } else {
        match scalar_text(f.value_kind, v) {
            None => Err(XmlSerializeError::UnexpectedValue),
            Some(text) => match escaped_text(text) {
                Ok(value) => Ok(Some(MarkupAttributeView { key: attribute_key(f), value })),
                Err(e) => Err(e),
            },
        }
    }
}

/// The attributes of the fields at and behind `k`, in descriptor order.
pub open spec fn attributes_from(fields: Seq<FieldDescriptor>, values: Seq<ValueView>, k: int) -> Result<
    Seq<MarkupAttributeView>,
    XmlSerializeError,
>
    decreases fields.len() - k,
{
    if k < 0 || k >= fields.len() {
        Ok(Seq::empty())
    } else {
        match attribute_of(fields[k], values[k]) {
            Err(e) => Err(e),
            Ok(first) => match attributes_from(fields, values, k + 1) {
                Err(e) => Err(e),
                Ok(rest) => Ok(
                    match first {
                        Some(a) => seq![a] + rest,
                        None => rest,
                    },
                ),
            },
        }
    }
}

/// The texts of the items at and behind `k`, with commas between them.
pub open spec fn joined_text(kind: ValueKind, items: Seq<ValueView>, k: int) -> Option<Seq<u8>>
    decreases items.len() - k,
{
    if k < 0 || k >= items.len() {
        Some(Seq::empty())
    } else {
        match scalar_text(kind, items[k]) {
            None => None,
            Some(first) => match joined_text(kind, items, k + 1) {
                None => None,
                Some(rest) => Some(
                    if k + 1 < items.len() {
                        first + seq![0x2cu8] + rest
                    } else {
                        first
                    },
                ),
            },
        }
    }
}

/// The text that a text field is written as, not yet escaped; `None` for an
/// optional field that is not there.
pub open spec fn text_content(f: FieldDescriptor, v: ValueView) -> Result<
    Option<Seq<u8>>,
    XmlSerializeError,
> {
    if f.cardinality == Cardinality::Repeated {
        match v {
            ValueView::List(items) => match joined_text(f.value_kind, items, 0) {
                Some(text) => Ok(Some(text)),
                None => Err(XmlSerializeError::UnexpectedValue),
            },
            _ => Err(XmlSerializeError::UnexpectedValue),
        }
    } else if f.cardinality == Cardinality::Optional && v is Absent {
        Ok(None)
    } else {
        match scalar_text(f.value_kind, v) {
            Some(text) => Ok(Some(text)),
            None => Err(XmlSerializeError::UnexpectedValue),
        }
    }
}

pub open spec fn plain_tag(name: Seq<u8>) -> MarkupTagView {
    MarkupTagView { name, attributes: Seq::empty() }
}

/// An element that holds text.
pub open spec fn text_element(name: Seq<u8>, text: Seq<u8>) -> Seq<MarkupView> {
    seq![MarkupView::Start(plain_tag(name)), MarkupView::Text(text), MarkupView::End(name)]
}

/// `rest` behind `front`, where there is a rest.
pub open spec fn behind(front: Seq<MarkupView>, rest: Result<Seq<MarkupView>, XmlSerializeError>) -> Result<
    Seq<MarkupView>,
    XmlSerializeError,
> {
    match rest {
        Ok(more) => Ok(front + more),
        Err(e) => Err(e),
    }
}

/// Whether the field is written among the child elements.
pub open spec fn is_element_field(f: FieldDescriptor) -> bool {
    (f.is_child() && f.name is Some) || f.ty == EleType::Untag || f.ty == EleType::Any
}

/// Whether any field at or behind `k` is written among the child elements.
pub open spec fn has_element_fields(fields: Seq<FieldDescriptor>, k: int) -> bool
    decreases fields.len() - k,
{
    if k < 0 || k >= fields.len() {
        false
    } else {
        is_element_field(fields[k]) || has_element_fields(fields, k + 1)
    }
}

/// The markup of one value of an element field under the given name.
///
/// A nested container is written under the name. A boolean that stands for
/// the presence of an empty element is that element where it is `true` and
/// nothing where it is `false`. A catch-all writes the name it holds as an
/// empty element. Any other scalar is an element that holds its text.
pub open spec fn encode_one(table: &Bindings, f: FieldDescriptor, name: Seq<u8>, v: ValueView) -> Result<
    Seq<MarkupView>,
    XmlSerializeError,
>
    decreases v, 1nat,
{
    if f.ty == EleType::Any {
        match v {
            ValueView::Text(held) => Ok(seq![MarkupView::Empty(plain_tag(held))]),
            _ => Err(XmlSerializeError::UnexpectedValue),
        }
    } else {
        match f.value_kind {
            ValueKind::NestedBindable(r) => encode_container(table, r as int, name, v),
            ValueKind::Bool if f.ty == EleType::SelfClosedChild => match v {
                ValueView::Bool(b) => Ok(
                    if b {
                        seq![MarkupView::Empty(plain_tag(name))]
                    } else {
                        Seq::empty()
                    },
                ),
                _ => Err(XmlSerializeError::UnexpectedValue),
            },
            kind => match scalar_text(kind, v) {
                None => Err(XmlSerializeError::UnexpectedValue),
                Some(text) => match escaped_text(text) {
                    Ok(t) => Ok(text_element(name, t)),
                    Err(e) => Err(e),
                },
            },
        }
    }
}

/// The markup of the items at and behind `k` of a repeated field, one
/// element for each.
pub open spec fn encode_items(
    table: &Bindings,
    f: FieldDescriptor,
    name: Seq<u8>,
    items: Seq<ValueView>,
    k: int,
) -> Result<Seq<MarkupView>, XmlSerializeError>
    decreases items, items.len() - k,
{
    if k < 0 || k >= items.len() {
        Ok(Seq::empty())
    } else {
        match encode_one(table, f, name, items[k]) {
            Err(e) => Err(e),
            Ok(first) => behind(first, encode_items(table, f, name, items, k + 1)),
        }
    }
}

/// The markup of an element field: nothing for an optional field that is not
/// there, one element for each item of a repeated field.
pub open spec fn encode_child(table: &Bindings, f: FieldDescriptor, v: ValueView) -> Result<
    Seq<MarkupView>,
    XmlSerializeError,
>
    decreases v, 2nat,
{
    let name = qualified(f.ns, f.name_or_empty());
    if f.cardinality == Cardinality::Repeated {
        match v {
            ValueView::List(items) => encode_items(table, f, name, items, 0),
            _ => Err(XmlSerializeError::UnexpectedValue),
        }
    } else if f.cardinality == Cardinality::Optional && v is Absent {
        Ok(Seq::empty())
    } else {
        encode_one(table, f, name, v)
    }
}

/// The markup of the element fields at and behind `k`, in descriptor order.
pub open spec fn encode_children(
    table: &Bindings,
    fields: Seq<FieldDescriptor>,
    values: Seq<ValueView>,
    k: int,
) -> Result<Seq<MarkupView>, XmlSerializeError>
    decreases values, fields.len() - k,
{
    if k < 0 || k >= fields.len() || k >= values.len() {
        Ok(Seq::empty())
    } else if is_element_field(fields[k]) {
        match encode_child(table, fields[k], values[k]) {
            Err(e) => Err(e),
            Ok(first) => behind(first, encode_children(table, fields, values, k + 1)),
        }
    } else {
        encode_children(table, fields, values, k + 1)
    }
}

/// The markup of the variant `v` with payload `payload`.
pub open spec fn encode_variant(table: &Bindings, v: VariantDescriptor, payload: ValueView) -> Result<
    Seq<MarkupView>,
    XmlSerializeError,
>
    decreases payload, 1nat,
{
    let name = qualified(v.ns, v.name@);
    match v.payload {
        None => Ok(seq![MarkupView::Empty(plain_tag(name))]),
        Some(ValueKind::NestedBindable(r)) => encode_container(table, r as int, name, payload),
        Some(ValueKind::Bool) => match payload {
            ValueView::Bool(b) => Ok(
                if b {
                    seq![MarkupView::Empty(plain_tag(name))]
                } else {
                    Seq::empty()
                },
            ),
            _ => Err(XmlSerializeError::UnexpectedValue),
        },
        Some(kind) => match scalar_text(kind, payload) {
            None => Err(XmlSerializeError::UnexpectedValue),
            Some(text) => match escaped_text(text) {
                Ok(t) => Ok(text_element(name, t)),
                Err(e) => Err(e),
            },
        },
    }
}

/// The markup of the value `v` of the container `r`, written under `tag`.
///
/// A struct container writes its attributes into its tag, in descriptor
/// order. A container with a text field holds that text; one with element
/// fields holds their markup; one with neither is an empty element. An enum
/// container writes the element of its variant, inside an element named `tag`
/// unless `tag` is empty.
pub open spec fn encode_container(table: &Bindings, r: int, tag: Seq<u8>, v: ValueView) -> Result<
    Seq<MarkupView>,
    XmlSerializeError,
>
    decreases v, 0nat,
{
    if r < 0 || r >= table.containers.len() {
        Err(XmlSerializeError::UnexpectedValue)
    } else {
        match (table.containers[r], v) {
            (ContainerDescriptor::Struct { fields, .. }, ValueView::Struct(values)) => {
                if values.len() != fields.len() {
                    Err(XmlSerializeError::UnexpectedValue)
                } else {
                    match attributes_from(fields@, values, 0) {
                        Err(e) => Err(e),
                        Ok(attributes) => {
                            let open = MarkupTagView { name: tag, attributes };
                            match find_kind(fields@, EleType::Text, 0) {
                                Some(i) => match text_content(fields[i], values[i]) {
                                    Err(e) => Err(e),
                                    Ok(None) => Ok(
                                        seq![MarkupView::Start(open), MarkupView::End(tag)],
                                    ),
                                    Ok(Some(text)) => match escaped_text(text) {
                                        Err(e) => Err(e),
                                        Ok(t) => Ok(
                                            seq![
                                                MarkupView::Start(open),
                                                MarkupView::Text(t),
                                                MarkupView::End(tag),
                                            ],
                                        ),
                                    },
                                },
                                None => if has_element_fields(fields@, 0) {
                                    match encode_children(table, fields@, values, 0) {
                                        Err(e) => Err(e),
                                        Ok(inner) => Ok(
                                            seq![MarkupView::Start(open)] + inner
                                                + seq![MarkupView::End(tag)],
                                        ),
                                    }
                                } else {
                                    Ok(seq![MarkupView::Empty(open)])
                                },
                            }
                        },
                    }
                }
            },
            (ContainerDescriptor::Enum { variants, .. }, ValueView::Variant(j, payload)) => {
                if j >= variants.len() {
                    Err(XmlSerializeError::UnexpectedValue)
                } else {
                    match encode_variant(table, variants[j as int], *payload) {
                        Err(e) => Err(e),
                        Ok(inner) => if tag.len() == 0 {
                            Ok(inner)
                        } else {
                            Ok(
                                seq![MarkupView::Start(plain_tag(tag))] + inner
                                    + seq![MarkupView::End(tag)],
                            )
                        },
                    }
                }
            },
            _ => Err(XmlSerializeError::UnexpectedValue),
        }
    }
}

/// The markup of a document whose root is the value `v` of the container
/// `r`. A struct container is written under its root tag, with the prefix of
/// its target namespace; an enum container is written as its variant.
pub open spec fn encode_document(table: &Bindings, r: int, v: ValueView) -> Result<
    Seq<MarkupView>,
    XmlSerializeError,
> {
    if r < 0 || r >= table.containers.len() {
        Err(XmlSerializeError::MissingRoot)
    } else {
        match table.containers[r] {
            ContainerDescriptor::Enum { .. } => encode_container(table, r, Seq::empty(), v),
            ContainerDescriptor::Struct { root: None, .. } => Err(XmlSerializeError::MissingRoot),
            ContainerDescriptor::Struct { root: Some(root), tns, .. } => encode_container(
                table,
                r,
                qualified(tns, root@),
                v,
            ),
        }
    }
}


/// Escapes text with `quick_xml::escape::escape`, which writes `<`, `>`, `&`,
/// `'` and `"` as entity references and leaves every other byte as it is.
#[verifier::external_body]
fn escape_utf8(raw: &[u8]) -> (text: Vec<u8>)
    requires
        valid_utf8(raw@),
    ensures
        text@ == escaped(raw@),
{
    let text = std::str::from_utf8(raw).unwrap();
    quick_xml::escape::escape(text).into_owned().into_bytes()
}

fn escape_text(raw: &[u8]) -> (text: Result<Vec<u8>, XmlSerializeError>)
    ensures
        match escaped_text(raw@) {
            Ok(t) => text matches Ok(got) && got@ == t,
            Err(e) => text == Err::<Vec<u8>, XmlSerializeError>(e),
        },
{
    if is_utf8(raw) {
        Ok(escape_utf8(raw))
    } else {
        Err(XmlSerializeError::EncodingError)
    }
}

fn qualified_exec(ns: &Option<Namespace>, name: &[u8]) -> (full: Vec<u8>)
    ensures
        full@ == qualified(*ns, name@),
{
    let mut full: Vec<u8> = Vec::new();
    match ns {
        Some(n) => {
            append_bytes(&mut full, n.prefix.as_slice());
            full.push(0x3a);
            append_bytes(&mut full, name);
            assert(full@ =~= qualified(*ns, name@));
        },
        None => {
            append_bytes(&mut full, name);
            assert(full@ =~= name@);
        },
    }
    full
}

fn scalar_text_exec(kind: ValueKind, v: &Value) -> (text: Option<Vec<u8>>)
    ensures
        match scalar_text(kind, v.deep_view()) {
            Some(t) => text matches Some(got) && got@ == t,
            None => text is None,
        },
{
    match kind {
        ValueKind::String => match v {
            Value::Text(t) => Some(copy_bytes(t.as_slice())),
            _ => None,
        },
        ValueKind::Bool => match v {
            Value::Bool(b) => Some(format_bool(*b)),
            _ => None,
        },
        ValueKind::Number(_) => match v {
            Value::Number(n) => Some(format_number(*n)),
            _ => None,
        },
        ValueKind::NestedBindable(_) => None,
    }
}

fn field_name(f: &FieldDescriptor) -> (name: Vec<u8>)
    ensures
        name@ == f.name_or_empty(),
{
    match &f.name {
        Some(name) => copy_bytes(name.as_slice()),
        None => Vec::new(),
    }
}

fn attribute_key_exec(f: &FieldDescriptor) -> (key: Vec<u8>)
    ensures
        key@ == attribute_key(*f),
{
    let name = field_name(f);
    if kind_eq(f.ty, EleType::XmlNs) {
        let mut key: Vec<u8> = Vec::new();
        key.push(0x78);
        key.push(0x6d);
        key.push(0x6c);
        key.push(0x6e);
        key.push(0x73);
        key.push(0x3a);
        append_bytes(&mut key, name.as_slice());
        assert(key@ =~= attribute_key(*f));
        key
    } else {
        qualified_exec(&f.ns, name.as_slice())
    }
}

pub open spec fn attribute_view(a: Option<MarkupAttribute>) -> Option<MarkupAttributeView> {
    match a {
        Some(a) => Some(a.deep_view()),
        None => None,
    }
}

fn attribute_of_exec(f: &FieldDescriptor, v: &Value) -> (a: Result<
    Option<MarkupAttribute>,
    XmlSerializeError,
>)
    ensures
        match attribute_of(*f, v.deep_view()) {
            Ok(expected) => a matches Ok(got) && attribute_view(got) == expected,
            Err(e) => a == Err::<Option<MarkupAttribute>, XmlSerializeError>(e),
        },
{
    if !(kind_eq(f.ty, EleType::Attr) || kind_eq(f.ty, EleType::XmlNs)) || f.name.is_none() {
        return Ok(None);
    }
    match &f.value {
        Some(constant) => {
            match escape_text(constant.as_slice()) {
                Ok(value) => Ok(Some(MarkupAttribute { key: attribute_key_exec(f), value })),
                Err(e) => Err(e),
            }
        },
        None => {
            let repeated = matches!(f.cardinality, Cardinality::Repeated);
            let optional = matches!(f.cardinality, Cardinality::Optional);
            if repeated || (optional && v.is_absent()) {
                Ok(None)
            } else {
                match scalar_text_exec(f.value_kind, v) {
                    None => Err(XmlSerializeError::UnexpectedValue),
                    Some(text) => match escape_text(text.as_slice()) {
                        Ok(value) => Ok(Some(MarkupAttribute { key: attribute_key_exec(f), value })),
                        Err(e) => Err(e),
                    },
                }
            }
        },
    }
}

/// `rest` behind `front`, where there is a rest.
pub open spec fn attributes_behind(
    front: Seq<MarkupAttributeView>,
    rest: Result<Seq<MarkupAttributeView>, XmlSerializeError>,
) -> Result<Seq<MarkupAttributeView>, XmlSerializeError> {
    match rest {
        Ok(more) => Ok(front + more),
        Err(e) => Err(e),
    }
}

fn attributes_exec(fields: &Vec<FieldDescriptor>, values: &Vec<Value>) -> (attributes: Result<
    Vec<MarkupAttribute>,
    XmlSerializeError,
>)
    requires
        values.len() == fields.len(),
    ensures
        match attributes_from(fields@, values_view(values@), 0) {
            Ok(expected) => attributes matches Ok(got) && got.deep_view() == expected,
            Err(e) => attributes == Err::<Vec<MarkupAttribute>, XmlSerializeError>(e),
        },
{
    let ghost whole = attributes_from(fields@, values_view(values@), 0);
    let mut attributes: Vec<MarkupAttribute> = Vec::new();
    let mut k: usize = 0;
    assert(attributes.deep_view() =~= Seq::empty());
    assert(Seq::<MarkupAttributeView>::empty() + whole->Ok_0 =~= whole->Ok_0);
    while k < fields.len()
        invariant
            k <= fields.len(),
            values.len() == fields.len(),
            whole == attributes_from(fields@, values_view(values@), 0),
            whole == attributes_behind(
                attributes.deep_view(),
                attributes_from(fields@, values_view(values@), k as int),
            ),
        decreases fields.len() - k,
    {
        let ghost before = attributes.deep_view();
        match attribute_of_exec(&fields[k], &values[k]) {
            Err(e) => {
                return Err(e);
            },
            Ok(Some(a)) => {
                attributes.push(a);
                proof {
                    assert(attributes.deep_view() =~= before.push(a.deep_view()));
                    let rest = attributes_from(fields@, values_view(values@), k + 1);
                    if rest is Ok {
                        assert(before + (seq![a.deep_view()] + rest->Ok_0) =~= before.push(
                            a.deep_view(),
                        ) + rest->Ok_0);
                    }
                }
            },
            Ok(None) => {},
        }
        k += 1;
    }
    proof {
        assert(attributes.deep_view() + Seq::<MarkupAttributeView>::empty()
            =~= attributes.deep_view());
    }
    Ok(attributes)
}

fn joined_text_exec(kind: ValueKind, items: &Vec<Value>) -> (text: Option<Vec<u8>>)
    ensures
        match joined_text(kind, values_view(items@), 0) {
            Some(t) => text matches Some(got) && got@ == t,
            None => text is None,
        },
{
    let ghost whole = joined_text(kind, values_view(items@), 0);
    let mut text: Vec<u8> = Vec::new();
    let mut k: usize = 0;
    while k < items.len()
        invariant
            k <= items.len(),
            whole == joined_text(kind, values_view(items@), 0),
            whole == match joined_text(kind, values_view(items@), k as int) {
                Some(rest) => Some(text@ + rest),
                None => None,
            },
        decreases items.len() - k,
    {
        let ghost before = text@;
        match scalar_text_exec(kind, &items[k]) {
            None => {
                return None;
            },
            Some(first) => {
                append_bytes(&mut text, first.as_slice());
                if k + 1 < items.len() {
                    text.push(0x2c);
                }
                proof {
                    let rest = joined_text(kind, values_view(items@), k + 1);
                    if rest is Some {
                        if k + 1 < items.len() {
                            assert(before + (first@ + seq![0x2cu8] + rest->0) =~= text@ + rest->0);
                        } else {
                            assert(rest->0 =~= Seq::<u8>::empty());
                            assert(before + first@ =~= text@ + rest->0);
                        }
                    }
                }
            },
        }
        k += 1;
    }
    assert(text@ + Seq::<u8>::empty() =~= text@);
    Some(text)
}

fn text_content_exec(f: &FieldDescriptor, v: &Value) -> (text: Result<
    Option<Vec<u8>>,
    XmlSerializeError,
>)
    ensures
        match text_content(*f, v.deep_view()) {
            Ok(Some(t)) => text matches Ok(Some(got)) && got@ == t,
            Ok(None) => text matches Ok(None),
            Err(e) => text == Err::<Option<Vec<u8>>, XmlSerializeError>(e),
        },
{
    match f.cardinality {
        Cardinality::Repeated => match v {
            Value::List(items) => {
                proof {
                    lemma_list_view(*items);
                }
                match joined_text_exec(f.value_kind, items) {
                    Some(text) => Ok(Some(text)),
                    None => Err(XmlSerializeError::UnexpectedValue),
                }
            },
            _ => Err(XmlSerializeError::UnexpectedValue),
        },
        Cardinality::Optional => {
            if v.is_absent() {
                Ok(None)
            } else {
                match scalar_text_exec(f.value_kind, v) {
                    Some(text) => Ok(Some(text)),
                    None => Err(XmlSerializeError::UnexpectedValue),
                }
            }
        },
        Cardinality::Required => match scalar_text_exec(f.value_kind, v) {
            Some(text) => Ok(Some(text)),
            None => Err(XmlSerializeError::UnexpectedValue),
        },
    }
}

fn is_element_field_exec(f: &FieldDescriptor) -> (is: bool)
    ensures
        is == is_element_field(*f),
{
    ((kind_eq(f.ty, EleType::Child) || kind_eq(f.ty, EleType::SelfClosedChild)) && f.name.is_some())
        || kind_eq(f.ty, EleType::Untag) || kind_eq(f.ty, EleType::Any)
}

fn has_element_fields_exec(fields: &Vec<FieldDescriptor>) -> (has: bool)
    ensures
        has == has_element_fields(fields@, 0),
{
    let mut k: usize = 0;
    while k < fields.len()
        invariant
            k <= fields.len(),
            has_element_fields(fields@, 0) == has_element_fields(fields@, k as int),
        decreases fields.len() - k,
    {
        if is_element_field_exec(&fields[k]) {
            return true;
        }
        k += 1;
    }
    false
}


/// What `out` holds once `more` is written behind what it held, or the error
/// in place of it.
pub open spec fn appended(
    before: Seq<MarkupView>,
    more: Result<Seq<MarkupView>, XmlSerializeError>,
    done: Result<(), XmlSerializeError>,
    after: Seq<MarkupView>,
) -> bool {
    match more {
        Ok(m) => done is Ok && after == before + m,
        Err(e) => done == Err::<(), XmlSerializeError>(e),
    }
}

fn push_markup(out: &mut Vec<Markup>, m: Markup)
    ensures
        final(out).deep_view() == old(out).deep_view().push(m.deep_view()),
{
    out.push(m);
    assert(out.deep_view() =~= old(out).deep_view().push(m.deep_view()));
}

fn plain_tag_exec(name: Vec<u8>) -> (tag: MarkupTag)
    ensures
        tag.deep_view() == plain_tag(name@),
{
    let tag = MarkupTag { name, attributes: Vec::new() };
    assert(tag.attributes.deep_view() =~= Seq::empty());
    tag
}

fn push_text_element(out: &mut Vec<Markup>, name: &[u8], text: Vec<u8>)
    ensures
        final(out).deep_view() == old(out).deep_view() + text_element(name@, text@),
{
    push_markup(out, Markup::Start(plain_tag_exec(copy_bytes(name))));
    push_markup(out, Markup::Text(text));
    push_markup(out, Markup::End(copy_bytes(name)));
    assert(out.deep_view() =~= old(out).deep_view() + text_element(name@, text@));
}

/// Writes one value of an element field under the given name.
fn encode_one_exec(table: &Bindings, f: &FieldDescriptor, name: &[u8], v: &Value, out: &mut Vec<Markup>) -> (done:
    Result<(), XmlSerializeError>)
    ensures
        appended(
            old(out).deep_view(),
            encode_one(table, *f, name@, v.deep_view()),
            done,
            final(out).deep_view(),
        ),
    decreases *v, 1nat,
{
    let ghost before = out.deep_view();
    if kind_eq(f.ty, EleType::Any) {
        return match v {
            Value::Text(held) => {
                push_markup(out, Markup::Empty(plain_tag_exec(copy_bytes(held.as_slice()))));
                assert(out.deep_view() =~= before + seq![MarkupView::Empty(plain_tag(held@))]);
                Ok(())
            },
            _ => Err(XmlSerializeError::UnexpectedValue),
        };
    }
    match f.value_kind {
        ValueKind::NestedBindable(r) => encode_container_exec(table, r, name, v, out),
        kind => {
            if matches!(kind, ValueKind::Bool) && kind_eq(f.ty, EleType::SelfClosedChild) {
                match v {
                    Value::Bool(b) => {
                        if *b {
                            push_markup(out, Markup::Empty(plain_tag_exec(copy_bytes(name))));
                            assert(out.deep_view() =~= before + seq![
                                MarkupView::Empty(plain_tag(name@)),
                            ]);
                        } else {
                            assert(out.deep_view() =~= before + Seq::<MarkupView>::empty());
                        }
                        Ok(())
                    },
                    _ => Err(XmlSerializeError::UnexpectedValue),
                }
            } else {
                match scalar_text_exec(kind, v) {
                    None => Err(XmlSerializeError::UnexpectedValue),
                    Some(text) => match escape_text(text.as_slice()) {
                        Ok(t) => {
                            push_text_element(out, name, t);
                            Ok(())
                        },
                        Err(e) => Err(e),
                    },
                }
            }
        },
    }
}

/// Writes an element field.
fn encode_child_exec(table: &Bindings, f: &FieldDescriptor, v: &Value, out: &mut Vec<Markup>) -> (done:
    Result<(), XmlSerializeError>)
    ensures
        appended(
            old(out).deep_view(),
            encode_child(table, *f, v.deep_view()),
            done,
            final(out).deep_view(),
        ),
    decreases *v, 2nat,
{
    let ghost before = out.deep_view();
    let local = field_name(f);
    let name = qualified_exec(&f.ns, local.as_slice());
    match f.cardinality {
        Cardinality::Repeated => match v {
            Value::List(items) => {
                proof {
                    lemma_list_view(*items);
                }
                let ghost whole = encode_items(table, *f, name@, values_view(items@), 0);
                let mut k: usize = 0;
                assert(out.deep_view() =~= before + Seq::<MarkupView>::empty());
                while k < items.len()
                    invariant
                        k <= items.len(),
                        *v == Value::List(*items),
                        whole == encode_items(table, *f, name@, values_view(items@), 0),
                        whole == encode_child(table, *f, v.deep_view()),
                        exists|sofar: Seq<MarkupView>|
                            out.deep_view() == before + sofar && whole == behind(
                                sofar,
                                encode_items(table, *f, name@, values_view(items@), k as int),
                            ),
                    decreases items.len() - k,
                {
                    let ghost sofar = choose|sofar: Seq<MarkupView>|
                        out.deep_view() == before + sofar && whole == behind(
                            sofar,
                            encode_items(table, *f, name@, values_view(items@), k as int),
                        );
                    let ghost held = out.deep_view();
                    match encode_one_exec(table, f, name.as_slice(), &items[k], out) {
                        Err(e) => {
                            return Err(e);
                        },
                        Ok(()) => {
                            proof {
                                let first = encode_one(
                                    table,
                                    *f,
                                    name@,
                                    values_view(items@)[k as int],
                                )->Ok_0;
                                let rest = encode_items(
                                    table,
                                    *f,
                                    name@,
                                    values_view(items@),
                                    k + 1,
                                );
                                assert(out.deep_view() =~= before + (sofar + first));
                                if rest is Ok {
                                    assert(sofar + (first + rest->Ok_0) =~= (sofar + first)
                                        + rest->Ok_0);
                                }
                            }
                        },
                    }
                    k += 1;
                }
                proof {
                    let sofar = choose|sofar: Seq<MarkupView>|
                        out.deep_view() == before + sofar && whole == behind(
                            sofar,
                            encode_items(table, *f, name@, values_view(items@), k as int),
                        );
                    assert(sofar + Seq::<MarkupView>::empty() =~= sofar);
                }
                Ok(())
            },
            _ => Err(XmlSerializeError::UnexpectedValue),
        },
        Cardinality::Optional => {
            if v.is_absent() {
                assert(out.deep_view() =~= before + Seq::<MarkupView>::empty());
                Ok(())
            } else {
                encode_one_exec(table, f, name.as_slice(), v, out)
            }
        },
        Cardinality::Required => encode_one_exec(table, f, name.as_slice(), v, out),
    }
}

/// Writes a variant with its payload.
fn encode_variant_exec(table: &Bindings, variant: &VariantDescriptor, payload: &Value, out: &mut Vec<Markup>) -> (done:
    Result<(), XmlSerializeError>)
    ensures
        appended(
            old(out).deep_view(),
            encode_variant(table, *variant, payload.deep_view()),
            done,
            final(out).deep_view(),
        ),
    decreases *payload, 1nat,
{
    let ghost before = out.deep_view();
    let name = qualified_exec(&variant.ns, variant.name.as_slice());
    match variant.payload {
        None => {
            push_markup(out, Markup::Empty(plain_tag_exec(name)));
            assert(out.deep_view() =~= before + seq![MarkupView::Empty(plain_tag(name@))]);
            Ok(())
        },
        Some(ValueKind::NestedBindable(r)) => encode_container_exec(
            table,
            r,
            name.as_slice(),
            payload,
            out,
        ),
        Some(ValueKind::Bool) => match payload {
            Value::Bool(b) => {
                if *b {
                    push_markup(out, Markup::Empty(plain_tag_exec(name)));
                    assert(out.deep_view() =~= before + seq![MarkupView::Empty(plain_tag(name@))]);
                } else {
                    assert(out.deep_view() =~= before + Seq::<MarkupView>::empty());
                }
                Ok(())
            },
            _ => Err(XmlSerializeError::UnexpectedValue),
        },
        Some(kind) => match scalar_text_exec(kind, payload) {
            None => Err(XmlSerializeError::UnexpectedValue),
            Some(text) => match escape_text(text.as_slice()) {
                Ok(t) => {
                    push_text_element(out, name.as_slice(), t);
                    Ok(())
                },
                Err(e) => Err(e),
            },
        },
    }
}

/// Writes the value `v` of the container `r` under `tag`.
pub fn encode_container_exec(table: &Bindings, r: usize, tag: &[u8], v: &Value, out: &mut Vec<Markup>) -> (done:
    Result<(), XmlSerializeError>)
    ensures
        appended(
            old(out).deep_view(),
            encode_container(table, r as int, tag@, v.deep_view()),
            done,
            final(out).deep_view(),
        ),
    decreases *v, 0nat,
{
    let ghost before = out.deep_view();
    if r >= table.containers.len() {
        return Err(XmlSerializeError::UnexpectedValue);
    }
    match &table.containers[r] {
        ContainerDescriptor::Struct { fields, .. } => match v {
            Value::Struct(values) => {
                proof {
                    lemma_list_view(*values);
                }
                if values.len() != fields.len() {
                    return Err(XmlSerializeError::UnexpectedValue);
                }
                let attributes = match attributes_exec(fields, values) {
                    Err(e) => {
                        return Err(e);
                    },
                    Ok(attributes) => attributes,
                };
                let open = MarkupTag { name: copy_bytes(tag), attributes };
                match find_kind_exec(fields, EleType::Text) {
                    Some(i) => {
                        match text_content_exec(&fields[i], &values[i]) {
                            Err(e) => Err(e),
                            Ok(None) => {
                                push_markup(out, Markup::Start(open));
                                push_markup(out, Markup::End(copy_bytes(tag)));
                                assert(out.deep_view() =~= before + seq![
                                    MarkupView::Start(open.deep_view()),
                                    MarkupView::End(tag@),
                                ]);
                                Ok(())
                            },
                            Ok(Some(text)) => match escape_text(text.as_slice()) {
                                Err(e) => Err(e),
                                Ok(t) => {
                                    push_markup(out, Markup::Start(open));
                                    push_markup(out, Markup::Text(t));
                                    push_markup(out, Markup::End(copy_bytes(tag)));
                                    assert(out.deep_view() =~= before + seq![
                                        MarkupView::Start(open.deep_view()),
                                        MarkupView::Text(t@),
                                        MarkupView::End(tag@),
                                    ]);
                                    Ok(())
                                },
                            },
                        }
                    },
                    None => {
                        if has_element_fields_exec(fields) {
                            let ghost whole = encode_children(
                                table,
                                fields@,
                                values_view(values@),
                                0,
                            );
                            push_markup(out, Markup::Start(open));
                            let ghost opened = out.deep_view();
                            let mut k: usize = 0;
                            assert(out.deep_view() =~= opened + Seq::<MarkupView>::empty());
                            while k < fields.len()
                                invariant
                                    k <= fields.len(),
                                    values.len() == fields.len(),
                                    *v == Value::Struct(*values),
                                    whole is Err ==> encode_container(
                                        table,
                                        r as int,
                                        tag@,
                                        v.deep_view(),
                                    ) == Err::<Seq<MarkupView>, XmlSerializeError>(whole->Err_0),
                                    whole == encode_children(
                                        table,
                                        fields@,
                                        values_view(values@),
                                        0,
                                    ),
                                    exists|sofar: Seq<MarkupView>|
                                        out.deep_view() == opened + sofar && whole == behind(
                                            sofar,
                                            encode_children(
                                                table,
                                                fields@,
                                                values_view(values@),
                                                k as int,
                                            ),
                                        ),
                                decreases fields.len() - k,
                            {
                                let ghost sofar = choose|sofar: Seq<MarkupView>|
                                    out.deep_view() == opened + sofar && whole == behind(
                                        sofar,
                                        encode_children(
                                            table,
                                            fields@,
                                            values_view(values@),
                                            k as int,
                                        ),
                                    );
                                if is_element_field_exec(&fields[k]) {
                                    match encode_child_exec(table, &fields[k], &values[k], out) {
                                        Err(e) => {
                                            return Err(e);
                                        },
                                        Ok(()) => {
                                            proof {
                                                let first = encode_child(
                                                    table,
                                                    fields@[k as int],
                                                    values_view(values@)[k as int],
                                                )->Ok_0;
                                                let rest = encode_children(
                                                    table,
                                                    fields@,
                                                    values_view(values@),
                                                    k + 1,
                                                );
                                                assert(out.deep_view() =~= opened + (sofar
                                                    + first));
                                                if rest is Ok {
                                                    assert(sofar + (first + rest->Ok_0) =~= (
                                                    sofar + first) + rest->Ok_0);
                                                }
                                            }
                                        },
                                    }
                                }
                                k += 1;
                            }
                            let ghost inner = choose|sofar: Seq<MarkupView>|
                                out.deep_view() == opened + sofar && whole == behind(
                                    sofar,
                                    encode_children(
                                        table,
                                        fields@,
                                        values_view(values@),
                                        k as int,
                                    ),
                                );
                            push_markup(out, Markup::End(copy_bytes(tag)));
                            proof {
                                assert(inner + Seq::<MarkupView>::empty() =~= inner);
                                assert(out.deep_view() =~= before + (seq![
                                    MarkupView::Start(open.deep_view()),
                                ] + inner + seq![MarkupView::End(tag@)]));
                            }
                            Ok(())
                        } else {
                            push_markup(out, Markup::Empty(open));
                            assert(out.deep_view() =~= before + seq![
                                MarkupView::Empty(open.deep_view()),
                            ]);
                            Ok(())
                        }
                    },
                }
            },
            _ => Err(XmlSerializeError::UnexpectedValue),
        },
        ContainerDescriptor::Enum { variants, .. } => match v {
            Value::Variant(j, payload) => {
                if *j >= variants.len() {
                    return Err(XmlSerializeError::UnexpectedValue);
                }
                if tag.len() == 0 {
                    encode_variant_exec(table, &variants[*j], payload, out)
                } else {
                    push_markup(out, Markup::Start(plain_tag_exec(copy_bytes(tag))));
                    let ghost opened = out.deep_view();
                    match encode_variant_exec(table, &variants[*j], payload, out) {
                        Err(e) => Err(e),
                        Ok(()) => {
                            let ghost inner = encode_variant(
                                table,
                                variants@[*j as int],
                                payload.deep_view(),
                            )->Ok_0;
                            push_markup(out, Markup::End(copy_bytes(tag)));
                            assert(out.deep_view() =~= before + (seq![
                                MarkupView::Start(plain_tag(tag@)),
                            ] + inner + seq![MarkupView::End(tag@)]));
                            Ok(())
                        },
                    }
                }
            },
            _ => Err(XmlSerializeError::UnexpectedValue),
        },
    }
}

/// Encodes a value as the markup of a document whose root is the container `r`.
pub fn to_markup(table: &Bindings, r: usize, v: &Value) -> (markup: XmlSerializeResult<Vec<Markup>>)
    ensures
        match encode_document(table, r as int, v.deep_view()) {
            Ok(expected) => markup matches Ok(got) && got.deep_view() == expected,
            Err(e) => markup == Err::<Vec<Markup>, XmlSerializeError>(e),
        },
{
    if r >= table.containers.len() {
        return Err(XmlSerializeError::MissingRoot);
    }
    let mut out: Vec<Markup> = Vec::new();
    assert(out.deep_view() =~= Seq::empty());
    let done = match &table.containers[r] {
        ContainerDescriptor::Enum { .. } => {
            let empty: Vec<u8> = Vec::new();
            encode_container_exec(table, r, empty.as_slice(), v, &mut out)
        },
        ContainerDescriptor::Struct { root: None, .. } => Err(XmlSerializeError::MissingRoot),
        ContainerDescriptor::Struct { root: Some(root), tns, .. } => {
            let tag = qualified_exec(tns, root.as_slice());
            encode_container_exec(table, r, tag.as_slice(), v, &mut out)
        },
    };
    match done {
        Ok(()) => {
            proof {
                let expected = encode_document(table, r as int, v.deep_view())->Ok_0;
                assert(Seq::<MarkupView>::empty() + expected =~= expected);
            }
            Ok(out)
        },
        Err(e) => Err(e),
    }
}


#[verifier::external_type_specification]
#[verifier::external_body]
#[verifier::reject_recursive_types(W)]
pub struct ExWriter<W>(Writer<W>);

/// The bytes that a writer has written so far.
pub uninterp spec fn writer_bytes(writer: Writer<Vec<u8>>) -> Seq<u8>;

/// Whether a writer breaks lines and indents.
pub uninterp spec fn writer_indents(writer: Writer<Vec<u8>>) -> bool;

/// How many elements a writer that indents has opened and not closed.
pub uninterp spec fn writer_depth(writer: Writer<Vec<u8>>) -> nat;

/// Whether a writer that indents begins a new line before the next tag: it
/// does behind anything but text.
pub uninterp spec fn writer_breaks(writer: Writer<Vec<u8>>) -> bool;

/// The indentation at a depth: two spaces a level.
pub open spec fn indent_of(depth: nat) -> Seq<u8> {
    Seq::new(2 * depth, |i: int| 0x20u8)
}

/// What stands before a tag: a line break and the indentation where the
/// layout indents and a line is due, and nothing else.
pub open spec fn lead(indents: bool, breaks: bool, depth: nat) -> Seq<u8> {
    if indents && breaks {
        seq![0x0au8] + indent_of(depth)
    } else {
        Seq::empty()
    }
}

/// The depth behind a closing tag.
pub open spec fn shrunk(depth: nat) -> nat {
    if depth > 0 {
        (depth - 1) as nat
    } else {
        0
    }
}

/// What a writer puts before a tag at its depth.
pub open spec fn writer_lead(writer: Writer<Vec<u8>>) -> Seq<u8> {
    lead(writer_indents(writer), writer_breaks(writer), writer_depth(writer))
}

/// What a writer puts before a closing tag, which stands one level higher.
pub open spec fn writer_closing_lead(writer: Writer<Vec<u8>>) -> Seq<u8> {
    lead(writer_indents(writer), writer_breaks(writer), shrunk(writer_depth(writer)))
}

/// The value that bytes decode to as text, by `String::from_utf8`.
#[verifier::external_body]
pub(crate) fn string_from_utf8(bytes: Vec<u8>) -> (text: Option<String>)
    ensures
        match text {
            Some(s) => valid_utf8(bytes@) && s@ == decode_utf8(bytes@),
            None => !valid_utf8(bytes@),
        },
{
    String::from_utf8(bytes).ok()
}

/// A writer into a vector that writes markup as it stands, made by `Writer::new`.
#[verifier::external_body]
fn compact_writer() -> (writer: Writer<Vec<u8>>)
    ensures
        writer_bytes(writer) == Seq::<u8>::empty(),
        !writer_indents(writer),
{
    Writer::new(Vec::new())
}

/// A writer into a vector that indents by two spaces, made by
/// `Writer::new_with_indent`. It starts at depth 0 with no line due.
#[verifier::external_body]
fn indenting_writer() -> (writer: Writer<Vec<u8>>)
    ensures
        writer_bytes(writer) == Seq::<u8>::empty(),
        writer_indents(writer),
        writer_depth(writer) == 0,
        !writer_breaks(writer),
{
    Writer::new_with_indent(Vec::new(), b' ', 2)
}

/// Writes an opening tag with `Writer::write_event`: `<`, the name, each
/// attribute as a space, the key, `="`, the value and `"`, and `>`. A writer
/// that indents begins a new line first where one is due, is one level deeper
/// afterwards, and a line is due then. Writing into a vector does not fail.
#[verifier::external_body]
fn write_start(writer: &mut Writer<Vec<u8>>, tag: &MarkupTag)
    requires
        valid_utf8(tag.name@),
    ensures
        writer_indents(*final(writer)) == writer_indents(*old(writer)),
        writer_bytes(*final(writer)) == writer_bytes(*old(writer)) + writer_lead(*old(writer))
            + markup_bytes(MarkupView::Start(tag.deep_view())),
        writer_indents(*old(writer)) ==> writer_breaks(*final(writer)) && writer_depth(
            *final(writer),
        ) == writer_depth(*old(writer)) + 1,
{
    let name = std::str::from_utf8(&tag.name).unwrap();
    let attributes = tag.attributes.iter().map(|a| (a.key.as_slice(), a.value.as_slice()));
    writer.write_event(Event::Start(BytesStart::new(name).with_attributes(attributes))).unwrap();
}

/// Writes an empty element with `Writer::write_event`, as an opening tag
/// that ends in `/>`. A writer that indents begins a new line first where one
/// is due, stays at its depth, and a line is due afterwards.
#[verifier::external_body]
fn write_empty(writer: &mut Writer<Vec<u8>>, tag: &MarkupTag)
    requires
        valid_utf8(tag.name@),
    ensures
        writer_indents(*final(writer)) == writer_indents(*old(writer)),
        writer_bytes(*final(writer)) == writer_bytes(*old(writer)) + writer_lead(*old(writer))
            + markup_bytes(MarkupView::Empty(tag.deep_view())),
        writer_indents(*old(writer)) ==> writer_breaks(*final(writer)) && writer_depth(
            *final(writer),
        ) == writer_depth(*old(writer)),
{
    let name = std::str::from_utf8(&tag.name).unwrap();
    let attributes = tag.attributes.iter().map(|a| (a.key.as_slice(), a.value.as_slice()));
    writer.write_event(Event::Empty(BytesStart::new(name).with_attributes(attributes))).unwrap();
}

/// Writes a closing tag with `Writer::write_event`: `</`, the name and `>`.
/// A writer that indents first goes up one level, unless it is at depth 0,
/// then begins a new line where one is due; a line is due afterwards.
#[verifier::external_body]
fn write_end(writer: &mut Writer<Vec<u8>>, name: &[u8])
    requires
        valid_utf8(name@),
    ensures
        writer_indents(*final(writer)) == writer_indents(*old(writer)),
        writer_bytes(*final(writer)) == writer_bytes(*old(writer)) + writer_closing_lead(
            *old(writer),
        ) + markup_bytes(MarkupView::End(name@)),
        writer_indents(*old(writer)) ==> writer_breaks(*final(writer)) && writer_depth(
            *final(writer),
        ) == shrunk(writer_depth(*old(writer))),
{
    let name = std::str::from_utf8(name).unwrap();
    writer.write_event(Event::End(BytesEnd::new(name))).unwrap();
}

/// Writes escaped text with `Writer::write_event`, as it stands. A writer
/// that indents stays at its depth, and no line is due behind text.
#[verifier::external_body]
fn write_text(writer: &mut Writer<Vec<u8>>, text: &[u8])
    requires
        valid_utf8(text@),
    ensures
        writer_indents(*final(writer)) == writer_indents(*old(writer)),
        writer_bytes(*final(writer)) == writer_bytes(*old(writer)) + markup_bytes(
            MarkupView::Text(text@),
        ),
        writer_indents(*old(writer)) ==> !writer_breaks(*final(writer)) && writer_depth(
            *final(writer),
        ) == writer_depth(*old(writer)),
{
    let text = std::str::from_utf8(text).unwrap();
    writer.write_event(Event::Text(BytesText::from_escaped(text))).unwrap();
}

/// Writes the XML declaration for version 1.0, UTF-8, standalone, made by
/// `BytesDecl::new`, with `Writer::write_event`. A writer that indents begins
/// a new line first where one is due, stays at its depth, and a line is due
/// afterwards.
#[verifier::external_body]
fn write_declaration(writer: &mut Writer<Vec<u8>>)
    ensures
        writer_indents(*final(writer)) == writer_indents(*old(writer)),
        writer_bytes(*final(writer)) == writer_bytes(*old(writer)) + writer_lead(*old(writer))
            + declaration(),
        writer_indents(*old(writer)) ==> writer_breaks(*final(writer)) && writer_depth(
            *final(writer),
        ) == writer_depth(*old(writer)),
{
    writer.write_event(Event::Decl(BytesDecl::new("1.0", Some("UTF-8"), Some("yes")))).unwrap();
}

/// Takes the bytes out of a writer with `Writer::into_inner`.
#[verifier::external_body]
fn into_bytes(writer: Writer<Vec<u8>>) -> (bytes: Vec<u8>)
    ensures
        bytes@ == writer_bytes(writer),
{
    writer.into_inner()
}

/// The declaration `<?xml version="1.0" encoding="UTF-8" standalone="yes"?>`.
pub open spec fn declaration() -> Seq<u8> {
    seq![
        0x3cu8, 0x3fu8, 0x78u8, 0x6du8, 0x6cu8, 0x20u8, 0x76u8, 0x65u8,
        0x72u8, 0x73u8, 0x69u8, 0x6fu8, 0x6eu8, 0x3du8, 0x22u8, 0x31u8,
        0x2eu8, 0x30u8, 0x22u8, 0x20u8, 0x65u8, 0x6eu8, 0x63u8, 0x6fu8,
        0x64u8, 0x69u8, 0x6eu8, 0x67u8, 0x3du8, 0x22u8, 0x55u8, 0x54u8,
        0x46u8, 0x2du8, 0x38u8, 0x22u8, 0x20u8, 0x73u8, 0x74u8, 0x61u8,
        0x6eu8, 0x64u8, 0x61u8, 0x6cu8, 0x6fu8, 0x6eu8, 0x65u8, 0x3du8,
        0x22u8, 0x79u8, 0x65u8, 0x73u8, 0x22u8, 0x3fu8, 0x3eu8,
    ]
}

pub open spec fn attribute_bytes(a: MarkupAttributeView) -> Seq<u8> {
    seq![0x20u8] + a.key + seq![0x3du8, 0x22u8] + a.value + seq![0x22u8]
}

pub open spec fn attributes_bytes(attributes: Seq<MarkupAttributeView>) -> Seq<u8>
    decreases attributes.len(),
{
    if attributes.len() == 0 {
        Seq::empty()
    } else {
        attributes_bytes(attributes.drop_last()) + attribute_bytes(attributes.last())
    }
}

pub open spec fn tag_bytes(tag: MarkupTagView) -> Seq<u8> {
    tag.name + attributes_bytes(tag.attributes)
}

/// The bytes that one piece of markup is written as, without indentation.
pub open spec fn markup_bytes(m: MarkupView) -> Seq<u8> {
    match m {
        MarkupView::Start(tag) => seq![0x3cu8] + tag_bytes(tag) + seq![0x3eu8],
        MarkupView::Empty(tag) => seq![0x3cu8] + tag_bytes(tag) + seq![0x2fu8, 0x3eu8],
        MarkupView::End(name) => seq![0x3cu8, 0x2fu8] + name + seq![0x3eu8],
        MarkupView::Text(text) => text,
    }
}

/// The bytes that markup is written as, without indentation.
pub open spec fn rendered(markup: Seq<MarkupView>) -> Seq<u8>
    decreases markup.len(),
{
    if markup.len() == 0 {
        Seq::empty()
    } else {
        rendered(markup.drop_last()) + markup_bytes(markup.last())
    }
}

/// Where a layout stands: how deep, and whether a line is due.
pub struct Place {
    pub depth: nat,
    pub breaks: bool,
}

/// Where the layout stands behind one piece of markup.
pub open spec fn place_behind(m: MarkupView, at: Place) -> Place {
    match m {
        MarkupView::Start(_) => Place { depth: at.depth + 1, breaks: true },
        MarkupView::Empty(_) => Place { depth: at.depth, breaks: true },
        MarkupView::End(_) => Place { depth: shrunk(at.depth), breaks: true },
        MarkupView::Text(_) => Place { depth: at.depth, breaks: false },
    }
}

/// Where the layout stands behind markup that begins at `start`.
pub open spec fn place_after(markup: Seq<MarkupView>, start: Place) -> Place
    decreases markup.len(),
{
    if markup.len() == 0 {
        start
    } else {
        place_behind(markup.last(), place_after(markup.drop_last(), start))
    }
}

/// The bytes that one piece of markup is written as in a layout that
/// indents: a tag begins a new line where one is due, indented by its depth,
/// and a closing tag stands one level above what it closes.
pub open spec fn indented_bytes(m: MarkupView, at: Place) -> Seq<u8> {
    match m {
        MarkupView::End(_) => lead(true, at.breaks, shrunk(at.depth)) + markup_bytes(m),
        MarkupView::Text(_) => markup_bytes(m),
        _ => lead(true, at.breaks, at.depth) + markup_bytes(m),
    }
}

/// The bytes that markup is written as in a layout that indents, from
/// `start` on.
pub open spec fn indented(markup: Seq<MarkupView>, start: Place) -> Seq<u8>
    decreases markup.len(),
{
    if markup.len() == 0 {
        Seq::empty()
    } else {
        indented(markup.drop_last(), start) + indented_bytes(
            markup.last(),
            place_after(markup.drop_last(), start),
        )
    }
}

/// Whether a piece of markup can be handed to the writer: its name, or its
/// text, is UTF-8.
pub open spec fn writable(m: MarkupView) -> bool {
    match m {
        MarkupView::Start(tag) => valid_utf8(tag.name),
        MarkupView::Empty(tag) => valid_utf8(tag.name),
        MarkupView::End(name) => valid_utf8(name),
        MarkupView::Text(text) => valid_utf8(text),
    }
}

pub open spec fn all_writable(markup: Seq<MarkupView>) -> bool {
    forall|i: int| 0 <= i < markup.len() ==> writable(#[trigger] markup[i])
}

/// Where a writer stands.
pub open spec fn writer_place(writer: Writer<Vec<u8>>) -> Place {
    Place { depth: writer_depth(writer), breaks: writer_breaks(writer) }
}

/// Hands markup to a writer, piece by piece, as far as it can be written.
fn write_markup(markup: &Vec<Markup>, writer: &mut Writer<Vec<u8>>) -> (ok: bool)
    ensures
        writer_indents(*final(writer)) == writer_indents(*old(writer)),
        ok == all_writable(markup.deep_view()),
        ok && !writer_indents(*old(writer)) ==> writer_bytes(*final(writer)) == writer_bytes(
            *old(writer),
        ) + rendered(markup.deep_view()),
        ok && writer_indents(*old(writer)) ==> writer_bytes(*final(writer)) == writer_bytes(
            *old(writer),
        ) + indented(markup.deep_view(), writer_place(*old(writer))),
{
    let ghost start = writer_bytes(*writer);
    let ghost indents = writer_indents(*writer);
    let ghost from = writer_place(*writer);
    let mut k: usize = 0;
    assert(markup.deep_view().take(0) =~= Seq::empty());
    assert(start + Seq::<u8>::empty() =~= start);
    while k < markup.len()
        invariant
            k <= markup.len(),
            indents == writer_indents(*old(writer)),
            start == writer_bytes(*old(writer)),
            from == writer_place(*old(writer)),
            writer_indents(*writer) == indents,
            all_writable(markup.deep_view().take(k as int)),
            !indents ==> writer_bytes(*writer) == start + rendered(
                markup.deep_view().take(k as int),
            ),
            indents ==> writer_bytes(*writer) == start + indented(
                markup.deep_view().take(k as int),
                from,
            ),
            indents ==> writer_place(*writer) == place_after(
                markup.deep_view().take(k as int),
                from,
            ),
        decreases markup.len() - k,
    {
        let ghost held = writer_bytes(*writer);
        let ghost at = writer_place(*writer);
        proof {
            let longer = markup.deep_view().take(k + 1);
            assert(longer.drop_last() =~= markup.deep_view().take(k as int));
            assert(longer.last() == markup[k as int].deep_view());
        }
        let ok = match &markup[k] {
            Markup::Start(tag) => {
                if is_utf8(tag.name.as_slice()) {
                    write_start(writer, tag);
                    true
                } else {
                    false
                }
            },
            Markup::Empty(tag) => {
                if is_utf8(tag.name.as_slice()) {
                    write_empty(writer, tag);
                    true
                } else {
                    false
                }
            },
            Markup::End(name) => {
                if is_utf8(name.as_slice()) {
                    write_end(writer, name.as_slice());
                    true
                } else {
                    false
                }
            },
            Markup::Text(text) => {
                if is_utf8(text.as_slice()) {
                    write_text(writer, text.as_slice());
                    true
                } else {
                    false
                }
            },
        };
        if !ok {
            assert(!writable(markup.deep_view()[k as int]));
            return false;
        }
        proof {
            let longer = markup.deep_view().take(k + 1);
            let piece = markup[k as int].deep_view();
            assert forall|i: int| 0 <= i < longer.len() implies writable(#[trigger] longer[i]) by {
                if i < k {
                    assert(longer[i] == markup.deep_view().take(k as int)[i]);
                }
            }
            if indents {
                assert(writer_bytes(*writer) =~= held + indented_bytes(piece, at));
                assert(writer_place(*writer) == place_behind(piece, at));
                assert(writer_bytes(*writer) =~= start + indented(longer, from));
            } else {
                assert(writer_bytes(*writer) =~= held + markup_bytes(piece));
                assert(writer_bytes(*writer) =~= start + rendered(longer));
            }
        }
        k += 1;
    }
    assert(markup.deep_view().take(markup.len() as int) =~= markup.deep_view());
    true
}

/// How a document is laid out.
#[derive(Debug, Clone, Copy, PartialEq, Eq, Structural)]
pub struct Layout {
    /// Whether the document begins with the XML declaration.
    pub declaration: bool,
    /// Whether each element begins a line, indented by two spaces a level.
    pub pretty: bool,
}

/// The bytes of a document in a layout: the declaration, where the layout
/// has one, and the markup, indented where the layout indents. Behind the
/// declaration a line is due.
pub open spec fn laid_out(markup: Seq<MarkupView>, layout: Layout) -> Seq<u8> {
    let head = if layout.declaration {
        declaration()
    } else {
        Seq::empty()
    };
    if layout.pretty {
        head + indented(markup, Place { depth: 0, breaks: layout.declaration })
    } else {
        head + rendered(markup)
    }
}

/// The text that a value is written as, or the error in its place.
pub open spec fn document_text(
    table: &Bindings,
    r: int,
    v: ValueView,
    layout: Layout,
    text: XmlSerializeResult<String>,
) -> bool {
    match encode_document(table, r, v) {
        Err(e) => text == Err::<String, XmlSerializeError>(e),
        Ok(markup) => {
            if all_writable(markup) && valid_utf8(laid_out(markup, layout)) {
                text matches Ok(s) && s@ == decode_utf8(laid_out(markup, layout))
            } else {
                text == Err::<String, XmlSerializeError>(XmlSerializeError::EncodingError)
            }
        },
    }
}

/// Writes a value as a document in the given layout.
pub fn to_string_with(table: &Bindings, r: usize, v: &Value, layout: Layout) -> (text:
    XmlSerializeResult<String>)
    ensures
        document_text(table, r as int, v.deep_view(), layout, text),
{
    let markup = match to_markup(table, r, v) {
        Ok(markup) => markup,
        Err(e) => {
            return Err(e);
        },
    };
    let mut writer = if layout.pretty {
        indenting_writer()
    } else {
        compact_writer()
    };
    if layout.declaration {
        write_declaration(&mut writer);
    }
    proof {
        let head = if layout.declaration {
            declaration()
        } else {
            Seq::empty()
        };
        assert(writer_bytes(writer) =~= head);
        assert(layout.pretty ==> writer_place(writer) == Place {
            depth: 0,
            breaks: layout.declaration,
        });
    }
    if !write_markup(&markup, &mut writer) {
        return Err(XmlSerializeError::EncodingError);
    }
    assert(writer_bytes(writer) == laid_out(markup.deep_view(), layout));
    match string_from_utf8(into_bytes(writer)) {
        Some(s) => Ok(s),
        None => Err(XmlSerializeError::EncodingError),
    }
}

/// Writes a value as a document, without line breaks.
pub fn to_string(table: &Bindings, r: usize, v: &Value) -> (text: XmlSerializeResult<String>)
    ensures
        document_text(
            table,
            r as int,
            v.deep_view(),
            Layout { declaration: false, pretty: false },
            text,
        ),
{
    to_string_with(table, r, v, Layout { declaration: false, pretty: false })
}

/// Writes a value as a document that begins with the XML declaration.
pub fn to_string_with_decl(table: &Bindings, r: usize, v: &Value) -> (text: XmlSerializeResult<
    String,
>)
    ensures
        document_text(
            table,
            r as int,
            v.deep_view(),
            Layout { declaration: true, pretty: false },
            text,
        ),
{
    to_string_with(table, r, v, Layout { declaration: true, pretty: false })
}

/// Writes a value as a document with line breaks and indentation.
pub fn to_string_pretty(table: &Bindings, r: usize, v: &Value) -> (text: XmlSerializeResult<String>)
    ensures
        document_text(
            table,
            r as int,
            v.deep_view(),
            Layout { declaration: false, pretty: true },
            text,
        ),
{
    to_string_with(table, r, v, Layout { declaration: false, pretty: true })
}

/// Writes a value as a document with line breaks and indentation that
/// begins with the XML declaration.
pub fn to_string_pretty_with_decl(table: &Bindings, r: usize, v: &Value) -> (text:
    XmlSerializeResult<String>)
    ensures
        document_text(
            table,
            r as int,
            v.deep_view(),
            Layout { declaration: true, pretty: true },
            text,
        ),
{
    to_string_with(table, r, v, Layout { declaration: true, pretty: true })
}

} // verus!
