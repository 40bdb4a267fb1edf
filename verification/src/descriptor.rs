//! Descriptors: how the fields of a container map onto markup.

use crate::container::{BuiltInType, EleType};
use crate::text::copy_bytes;
use vstd::prelude::*;

verus! {

/// A namespace as a descriptor names it: the prefix it is written with and
/// the URI it is matched by.
#[derive(Debug, PartialEq, Eq)]
pub struct Namespace {
    pub prefix: Vec<u8>,
    pub uri: Vec<u8>,
}

/// How often a field occurs.
#[derive(Debug, Clone, Copy, PartialEq, Eq, Structural)]
pub enum Cardinality {
    /// Exactly once: the value itself.
    Required,
    /// At most once: the value or `Absent`; the last occurrence counts.
    Optional,
    /// Any number of times: a `List` in the order met.
    Repeated,
}

/// What a field, or the payload of a variant, holds.
#[derive(Debug, Clone, Copy, PartialEq, Eq, Structural)]
pub enum ValueKind {
    String,
    Bool,
    /// An integer of the given type. The type must be one of the integer
    /// types: the library holds no floating-point values, so a table with a
    /// number of another type is refused by `Bindings::validate`, and where
    /// such a kind is decoded all the same, its text reads as no number.
    Number(BuiltInType),
    /// A container, by its position in the table of bindings.
    NestedBindable(usize),
}

/// One bindable field of a struct container.
#[derive(Debug, PartialEq, Eq)]
pub struct FieldDescriptor {
    pub ty: EleType,
    /// The local name of the attribute or tag.
    pub name: Option<Vec<u8>>,
    /// Matching is qualified where this is present: the element must be bound
    /// to this URI. Where it is absent the element must be unbound.
    pub ns: Option<Namespace>,
    pub cardinality: Cardinality,
    pub value_kind: ValueKind,
    /// A missing or unreadable value becomes the zero value of its kind.
    pub default: bool,
    /// A constant, written out on encoding and never read.
    pub value: Option<Vec<u8>>,
}

/// One variant of an enum container.
#[derive(Debug, PartialEq, Eq)]
pub struct VariantDescriptor {
    pub ns: Option<Namespace>,
    pub name: Vec<u8>,
    /// What the variant carries, if anything.
    pub payload: Option<ValueKind>,
}

/// The binding rules of one type.
#[derive(Debug, PartialEq, Eq)]
pub enum ContainerDescriptor {
    Struct {
        fields: Vec<FieldDescriptor>,
        /// The tag of the element when the container is the document's root.
        root: Option<Vec<u8>>,
        tns: Option<Namespace>,
    },
    Enum {
        variants: Vec<VariantDescriptor>,
        tns: Option<Namespace>,
        /// Whether an element that is no variant is an error rather than skipped.
        strict: bool,
    },
}

/// The descriptors of all bindable types; a nested container is named by its
/// position here.
#[derive(Debug, PartialEq, Eq)]
pub struct Bindings {
    pub containers: Vec<ContainerDescriptor>,
}

pub open spec fn same_name(a: Option<Vec<u8>>, b: Option<Vec<u8>>) -> bool {
    match (a, b) {
        (Some(x), Some(y)) => x@ == y@,
        _ => false,
    }
}

impl FieldDescriptor {
    pub open spec fn is_child(&self) -> bool {
        self.ty == EleType::Child || self.ty == EleType::SelfClosedChild
    }

    /// The name, or the empty string for a field without one.
    pub open spec fn name_or_empty(&self) -> Seq<u8> {
        match self.name {
            Some(name) => name@,
            None => Seq::empty(),
        }
    }

    /// Whether the field alone keeps the rules of its kind, in a table of
    /// `len` containers.
    pub open spec fn wf(&self, table: &Bindings) -> bool {
        &&& self.name is None ==> self.ty == EleType::Text || self.ty == EleType::Untag || self.ty
            == EleType::Any
        &&& ValueKind::wf(self.value_kind, table)
        &&& self.ty == EleType::Attr ==> !(self.value_kind is NestedBindable) && self.cardinality
            != Cardinality::Repeated
        &&& self.ty == EleType::Text ==> !(self.value_kind is NestedBindable)
        &&& self.ty == EleType::SelfClosedChild ==> self.value_kind is Bool
            || self.value_kind is NestedBindable
        &&& self.ty == EleType::Untag ==> (self.value_kind matches ValueKind::NestedBindable(r)
            && table.containers[r as int] is Enum)
        &&& self.ty == EleType::Any ==> self.value_kind is String
        &&& self.ty == EleType::XmlNs ==> self.value is Some
        &&& self.value is Some ==> (self.ty == EleType::Attr || self.ty == EleType::XmlNs)
            && self.value_kind is String && self.cardinality == Cardinality::Required
    }
}

impl ValueKind {
    /// Whether the kind can be bound: a number is of an integer type, and a
    /// nested container is in the table.
    pub open spec fn wf(kind: ValueKind, table: &Bindings) -> bool {
        match kind {
            ValueKind::Number(ty) => ty.spec_is_integer(),
            ValueKind::NestedBindable(r) => r < table.containers.len(),
            _ => true,
        }
    }
}

/// Whether the fields of one struct container keep the rules among them:
/// attribute names are unique; child tags are unique among the qualified and
/// among the unqualified fields; text and child elements exclude each other;
/// there is at most one text field and at most one catch-all.
pub open spec fn fields_wf(fields: Seq<FieldDescriptor>) -> bool {
    &&& forall|i: int, j: int|
        0 <= i < j < fields.len() && fields[i].ty == EleType::Attr && fields[j].ty
            == EleType::Attr ==> !same_name(#[trigger] fields[i].name, #[trigger] fields[j].name)
    &&& forall|i: int, j: int|
        0 <= i < j < fields.len() && fields[i].is_child() && fields[j].is_child() && (
        fields[i].ns is Some) == (fields[j].ns is Some) ==> !same_name(
            #[trigger] fields[i].name,
            #[trigger] fields[j].name,
        )
    &&& forall|i: int, j: int|
        0 <= i < fields.len() && 0 <= j < fields.len() && #[trigger] fields[i].ty == EleType::Text
            ==> !#[trigger] fields[j].is_child()
    &&& forall|i: int, j: int|
        0 <= i < j < fields.len() && #[trigger] fields[i].ty == EleType::Text ==> #[trigger] fields[j].ty
            != EleType::Text
    &&& forall|i: int, j: int|
        0 <= i < j < fields.len() && #[trigger] fields[i].ty == EleType::Any ==> #[trigger] fields[j].ty
            != EleType::Any
}

impl ContainerDescriptor {
    pub open spec fn wf(&self, table: &Bindings) -> bool {
        match self {
            ContainerDescriptor::Struct { fields, root, tns } => {
                &&& forall|i: int| 0 <= i < fields.len() ==> (#[trigger] fields[i]).wf(table)
                &&& fields_wf(fields@)
            },
            ContainerDescriptor::Enum { variants, tns, strict } => {
                forall|i: int|
                    0 <= i < variants.len() ==> match (#[trigger] variants[i]).payload {
                        Some(kind) => ValueKind::wf(kind, table),
                        None => true,
                    }
            },
        }
    }

    pub open spec fn spec_is_enum(&self) -> bool {
        self is Enum
    }

    /// Whether the container is a tagged union.
    #[verifier::when_used_as_spec(spec_is_enum)]
    pub fn is_enum(&self) -> (is_enum: bool)
        ensures
            is_enum == self.spec_is_enum(),
    {
        matches!(self, ContainerDescriptor::Enum { .. })
    }
}

impl Bindings {
    /// Every container keeps the rules of the data model, and every nested
    /// container that is named exists.
    pub open spec fn wf(&self) -> bool {
        forall|i: int| 0 <= i < self.containers.len() ==> (#[trigger] self.containers[i]).wf(self)
    }

    pub open spec fn spec_len(&self) -> usize {
        self.containers.len()
    }

    #[verifier::when_used_as_spec(spec_len)]
    pub fn len(&self) -> (len: usize)
        ensures
            len == self.spec_len(),
    {
        self.containers.len()
    }
}


impl Namespace {
    pub fn new(prefix: &[u8], uri: &[u8]) -> (ns: Namespace)
        ensures
            ns.prefix@ == prefix@,
            ns.uri@ == uri@,
    {
        Namespace { prefix: copy_bytes(prefix), uri: copy_bytes(uri) }
    }
}

impl FieldDescriptor {
    /// A required field of the given kind, without namespace, fallback or
    /// constant.
    pub fn new(ty: EleType, name: Option<Vec<u8>>, value_kind: ValueKind) -> (f: FieldDescriptor)
        ensures
            f == (FieldDescriptor {
                ty,
                name,
                ns: None,
                cardinality: Cardinality::Required,
                value_kind,
                default: false,
                value: None,
            }),
    {
        FieldDescriptor {
            ty,
            name,
            ns: None,
            cardinality: Cardinality::Required,
            value_kind,
            default: false,
            value: None,
        }
    }

    /// A required attribute.
    pub fn attr(name: &[u8], value_kind: ValueKind) -> (f: FieldDescriptor)
        ensures
            f.ty == EleType::Attr,
            f.name matches Some(n) && n@ == name@,
            f.ns is None,
            f.cardinality == Cardinality::Required,
            f.value_kind == value_kind,
            !f.default,
            f.value is None,
    {
        FieldDescriptor::new(EleType::Attr, Some(copy_bytes(name)), value_kind)
    }

    /// A required child element.
    pub fn child(name: &[u8], value_kind: ValueKind) -> (f: FieldDescriptor)
        ensures
            f.ty == EleType::Child,
            f.name matches Some(n) && n@ == name@,
            f.ns is None,
            f.cardinality == Cardinality::Required,
            f.value_kind == value_kind,
            !f.default,
            f.value is None,
    {
        FieldDescriptor::new(EleType::Child, Some(copy_bytes(name)), value_kind)
    }

    /// A required self-closed child element.
    pub fn sfc(name: &[u8], value_kind: ValueKind) -> (f: FieldDescriptor)
        ensures
            f.ty == EleType::SelfClosedChild,
            f.name matches Some(n) && n@ == name@,
            f.ns is None,
            f.cardinality == Cardinality::Required,
            f.value_kind == value_kind,
            !f.default,
            f.value is None,
    {
        FieldDescriptor::new(EleType::SelfClosedChild, Some(copy_bytes(name)), value_kind)
    }

    /// A required text field.
    pub fn text(value_kind: ValueKind) -> (f: FieldDescriptor)
        ensures
            f.ty == EleType::Text,
            f.name is None,
            f.ns is None,
            f.cardinality == Cardinality::Required,
            f.value_kind == value_kind,
            !f.default,
            f.value is None,
    {
        FieldDescriptor::new(EleType::Text, None, value_kind)
    }

    /// The same field, occurring at most once.
    pub fn optional(self) -> (f: FieldDescriptor)
        ensures
            f == (FieldDescriptor { cardinality: Cardinality::Optional, ..self }),
    {
        FieldDescriptor { cardinality: Cardinality::Optional, ..self }
    }

    /// The same field, occurring any number of times.
    pub fn repeated(self) -> (f: FieldDescriptor)
        ensures
            f == (FieldDescriptor { cardinality: Cardinality::Repeated, ..self }),
    {
        FieldDescriptor { cardinality: Cardinality::Repeated, ..self }
    }

    /// The same field, with a zero value to fall back on.
    pub fn with_default(self) -> (f: FieldDescriptor)
        ensures
            f == (FieldDescriptor { default: true, ..self }),
    {
        FieldDescriptor { default: true, ..self }
    }

    /// The same field in a namespace.
    pub fn with_ns(self, prefix: &[u8], uri: &[u8]) -> (f: FieldDescriptor)
        ensures
            f.ns matches Some(ns) && ns.prefix@ == prefix@ && ns.uri@ == uri@,
            f.ty == self.ty,
            f.name == self.name,
            f.cardinality == self.cardinality,
            f.value_kind == self.value_kind,
            f.default == self.default,
            f.value == self.value,
    {
        FieldDescriptor { ns: Some(Namespace::new(prefix, uri)), ..self }
    }

    /// The same field, written as a constant.
    pub fn with_value(self, constant: &[u8]) -> (f: FieldDescriptor)
        ensures
            f.value matches Some(c) && c@ == constant@,
            f.ty == self.ty,
            f.name == self.name,
            f.ns == self.ns,
            f.cardinality == self.cardinality,
            f.value_kind == self.value_kind,
            f.default == self.default,
    {
        FieldDescriptor { value: Some(copy_bytes(constant)), ..self }
    }

    /// Whether the field must occur.
    pub fn is_required(&self) -> (required: bool)
        ensures
            required == (self.cardinality == Cardinality::Required),
    {
        matches!(self.cardinality, Cardinality::Required)
    }
}

impl VariantDescriptor {
    /// A variant without namespace.
    pub fn new(name: &[u8], payload: Option<ValueKind>) -> (v: VariantDescriptor)
        ensures
            v.name@ == name@,
            v.payload == payload,
            v.ns is None,
    {
        VariantDescriptor { ns: None, name: copy_bytes(name), payload }
    }

    /// The same variant in a namespace.
    pub fn with_ns(self, prefix: &[u8], uri: &[u8]) -> (v: VariantDescriptor)
        ensures
            v.ns matches Some(ns) && ns.prefix@ == prefix@ && ns.uri@ == uri@,
            v.name == self.name,
            v.payload == self.payload,
    {
        VariantDescriptor { ns: Some(Namespace::new(prefix, uri)), ..self }
    }
}

impl ContainerDescriptor {
    /// A struct container with these fields, without root tag or namespace.
    pub fn of_fields(fields: Vec<FieldDescriptor>) -> (c: ContainerDescriptor)
        ensures
            c == (ContainerDescriptor::Struct { fields, root: None, tns: None }),
    {
        ContainerDescriptor::Struct { fields, root: None, tns: None }
    }

    /// An enum container with these variants, without namespace, that skips
    /// elements that are no variant.
    pub fn of_variants(variants: Vec<VariantDescriptor>) -> (c: ContainerDescriptor)
        ensures
            c == (ContainerDescriptor::Enum { variants, tns: None, strict: false }),
    {
        ContainerDescriptor::Enum { variants, tns: None, strict: false }
    }

    /// The same container with a root tag; an enum container has none and
    /// stays as it is.
    pub fn with_root(self, tag: &[u8]) -> (c: ContainerDescriptor)
        ensures
            match self {
                ContainerDescriptor::Struct { fields, root, tns } => c matches ContainerDescriptor::Struct {
                    fields: f,
                    root: Some(r),
                    tns: t,
                } && f == fields && r@ == tag@ && t == tns,
                ContainerDescriptor::Enum { .. } => c == self,
            },
    {
        match self {
            ContainerDescriptor::Struct { fields, root, tns } => ContainerDescriptor::Struct {
                fields,
                root: Some(copy_bytes(tag)),
                tns,
            },
            other => other,
        }
    }

    /// The same container with a target namespace.
    pub fn with_tns(self, prefix: &[u8], uri: &[u8]) -> (c: ContainerDescriptor)
        ensures
            match self {
                ContainerDescriptor::Struct { fields, root, tns } => c matches ContainerDescriptor::Struct {
                    fields: f,
                    root: r,
                    tns: Some(t),
                } && f == fields && r == root && t.prefix@ == prefix@ && t.uri@ == uri@,
                ContainerDescriptor::Enum { variants, tns, strict } => c matches ContainerDescriptor::Enum {
                    variants: v,
                    tns: Some(t),
                    strict: s,
                } && v == variants && s == strict && t.prefix@ == prefix@ && t.uri@ == uri@,
            },
    {
        match self {
            ContainerDescriptor::Struct { fields, root, tns } => ContainerDescriptor::Struct {
                fields,
                root,
                tns: Some(Namespace::new(prefix, uri)),
            },
            ContainerDescriptor::Enum { variants, tns, strict } => ContainerDescriptor::Enum {
                variants,
                tns: Some(Namespace::new(prefix, uri)),
                strict,
            },
        }
    }
}

impl Bindings {
    /// A table with these containers.
    pub fn new(containers: Vec<ContainerDescriptor>) -> (table: Bindings)
        ensures
            table.containers == containers,
    {
        Bindings { containers }
    }
}

} // verus!
