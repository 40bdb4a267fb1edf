//! What a schema document says of the other schemas it builds on.

use crate::container::EleType;
use crate::de::{decode_stream, from_reader, ErrorView, XmlDeserializeError};
use crate::descriptor::{Bindings, Cardinality, ContainerDescriptor, FieldDescriptor, ValueKind};
use crate::event::events_of_document;
use crate::text::copy_bytes;
use crate::value::{lemma_list_view, values_view, Value, ValueView};
use vstd::prelude::*;

verus! {

/// An `import` or `include` element of a schema.
#[derive(Debug, PartialEq, Eq)]
pub struct XsdImportOrInclude {
    pub schema_location: Vec<u8>,
}

/// The root element of a schema document.
#[derive(Debug, PartialEq, Eq)]
pub struct Xsd {
    /// The target namespace.
    pub tns: Vec<u8>,
    pub includes: Vec<XsdImportOrInclude>,
    pub imports: Vec<XsdImportOrInclude>,
}

/// The namespace of XML Schema, `http://www.w3.org/2001/XMLSchema`.
pub open spec fn schema_namespace_bytes() -> Seq<u8> {
    seq![
        0x68u8, 0x74u8, 0x74u8, 0x70u8, 0x3au8, 0x2fu8, 0x2fu8, 0x77u8, 0x77u8, 0x77u8,
        0x2eu8, 0x77u8, 0x33u8, 0x2eu8, 0x6fu8, 0x72u8, 0x67u8, 0x2fu8, 0x32u8, 0x30u8,
        0x30u8, 0x31u8, 0x2fu8, 0x58u8, 0x4du8, 0x4cu8, 0x53u8, 0x63u8, 0x68u8, 0x65u8,
        0x6du8, 0x61u8,
    ]
}

pub fn schema_namespace() -> (bytes: Vec<u8>)
    ensures
        bytes@ == schema_namespace_bytes(),
{
    let bytes: [u8; 32] = [
        0x68, 0x74, 0x74, 0x70, 0x3a, 0x2f, 0x2f, 0x77, 0x77, 0x77, 0x2e, 0x77,
        0x33, 0x2e, 0x6f, 0x72, 0x67, 0x2f, 0x32, 0x30, 0x30, 0x31, 0x2f, 0x58,
        0x4d, 0x4c, 0x53, 0x63, 0x68, 0x65, 0x6d, 0x61,
    ];
    assert(bytes@ =~= schema_namespace_bytes());
    copy_bytes(bytes.as_slice())
}

/// The prefix `xs`.
pub open spec fn schema_prefix_bytes() -> Seq<u8> {
    seq![
        0x78u8, 0x73u8,
    ]
}

pub fn schema_prefix() -> (bytes: Vec<u8>)
    ensures
        bytes@ == schema_prefix_bytes(),
{
    let bytes: [u8; 2] = [
        0x78, 0x73,
    ];
    assert(bytes@ =~= schema_prefix_bytes());
    copy_bytes(bytes.as_slice())
}

/// The tag `schema`.
pub open spec fn schema_tag_bytes() -> Seq<u8> {
    seq![
        0x73u8, 0x63u8, 0x68u8, 0x65u8, 0x6du8, 0x61u8,
    ]
}

pub fn schema_tag() -> (bytes: Vec<u8>)
    ensures
        bytes@ == schema_tag_bytes(),
{
    let bytes: [u8; 6] = [
        0x73, 0x63, 0x68, 0x65, 0x6d, 0x61,
    ];
    assert(bytes@ =~= schema_tag_bytes());
    copy_bytes(bytes.as_slice())
}

/// The tag `include`.
pub open spec fn include_tag_bytes() -> Seq<u8> {
    seq![
        0x69u8, 0x6eu8, 0x63u8, 0x6cu8, 0x75u8, 0x64u8, 0x65u8,
    ]
}

pub fn include_tag() -> (bytes: Vec<u8>)
    ensures
        bytes@ == include_tag_bytes(),
{
    let bytes: [u8; 7] = [
        0x69, 0x6e, 0x63, 0x6c, 0x75, 0x64, 0x65,
    ];
    assert(bytes@ =~= include_tag_bytes());
    copy_bytes(bytes.as_slice())
}

/// The tag `import`.
pub open spec fn import_tag_bytes() -> Seq<u8> {
    seq![
        0x69u8, 0x6du8, 0x70u8, 0x6fu8, 0x72u8, 0x74u8,
    ]
}

pub fn import_tag() -> (bytes: Vec<u8>)
    ensures
        bytes@ == import_tag_bytes(),
{
    let bytes: [u8; 6] = [
        0x69, 0x6d, 0x70, 0x6f, 0x72, 0x74,
    ];
    assert(bytes@ =~= import_tag_bytes());
    copy_bytes(bytes.as_slice())
}

/// The attribute name `targetNamespace`.
pub open spec fn target_namespace_name_bytes() -> Seq<u8> {
    seq![
        0x74u8, 0x61u8, 0x72u8, 0x67u8, 0x65u8, 0x74u8, 0x4eu8, 0x61u8, 0x6du8, 0x65u8,
        0x73u8, 0x70u8, 0x61u8, 0x63u8, 0x65u8,
    ]
}

pub fn target_namespace_name() -> (bytes: Vec<u8>)
    ensures
        bytes@ == target_namespace_name_bytes(),
{
    let bytes: [u8; 15] = [
        0x74, 0x61, 0x72, 0x67, 0x65, 0x74, 0x4e, 0x61, 0x6d, 0x65, 0x73, 0x70,
        0x61, 0x63, 0x65,
    ];
    assert(bytes@ =~= target_namespace_name_bytes());
    copy_bytes(bytes.as_slice())
}

/// The attribute name `schemaLocation`.
pub open spec fn schema_location_name_bytes() -> Seq<u8> {
    seq![
        0x73u8, 0x63u8, 0x68u8, 0x65u8, 0x6du8, 0x61u8, 0x4cu8, 0x6fu8, 0x63u8, 0x61u8,
        0x74u8, 0x69u8, 0x6fu8, 0x6eu8,
    ]
}

pub fn schema_location_name() -> (bytes: Vec<u8>)
    ensures
        bytes@ == schema_location_name_bytes(),
{
    let bytes: [u8; 14] = [
        0x73, 0x63, 0x68, 0x65, 0x6d, 0x61, 0x4c, 0x6f, 0x63, 0x61, 0x74, 0x69,
        0x6f, 0x6e,
    ];
    assert(bytes@ =~= schema_location_name_bytes());
    copy_bytes(bytes.as_slice())
}

/// Whether `f` is the field of a `schema` element that lists the elements
/// named `tag`: a repeated self-closed child in the namespace of XML Schema
/// that is bound by container 1.
pub open spec fn is_listing(f: FieldDescriptor, tag: Seq<u8>) -> bool {
    &&& f.ty == EleType::SelfClosedChild
    &&& f.name matches Some(n) && n@ == tag
    &&& f.ns matches Some(ns) && ns.uri@ == schema_namespace_bytes()
    &&& f.cardinality == Cardinality::Repeated
    &&& f.value_kind == ValueKind::NestedBindable(1)
    &&& !f.default
    &&& f.value is None
}

/// Whether `f` is a required string attribute of the given name.
pub open spec fn is_plain_attribute(f: FieldDescriptor, name: Seq<u8>) -> bool {
    &&& f.ty == EleType::Attr
    &&& f.name matches Some(n) && n@ == name
    &&& f.ns is None
    &&& f.cardinality == Cardinality::Required
    &&& f.value_kind == ValueKind::String
    &&& !f.default
    &&& f.value is None
}

/// Whether a table holds the bindings of a schema document: container 0 is
/// the `schema` element in the namespace of XML Schema, with its target
/// namespace and its `include` and `import` elements; container 1 is one such
/// element, with its schema location.
pub open spec fn binds_schema(table: &Bindings) -> bool {
    &&& table.containers.len() == 2
    &&& table.containers[0] matches ContainerDescriptor::Struct { fields, root, tns }
    &&& root matches Some(tag) && tag@ == schema_tag_bytes()
    &&& tns matches Some(ns) && ns.uri@ == schema_namespace_bytes()
    &&& fields.len() == 3
    &&& is_plain_attribute(fields[0], target_namespace_name_bytes())
    &&& is_listing(fields[1], include_tag_bytes())
    &&& is_listing(fields[2], import_tag_bytes())
    &&& table.containers[1] matches ContainerDescriptor::Struct { fields: inner, root: none, tns: own }
    &&& inner.len() == 1
    &&& is_plain_attribute(inner[0], schema_location_name_bytes())
}

/// The bindings of a schema document.
pub fn xsd_bindings() -> (table: Bindings)
    ensures
        binds_schema(&table),
{
    let uri = schema_namespace();
    let xs = schema_prefix();
    let mut fields: Vec<FieldDescriptor> = Vec::new();
    fields.push(FieldDescriptor::attr(target_namespace_name().as_slice(), ValueKind::String));
    fields.push(
        FieldDescriptor::sfc(include_tag().as_slice(), ValueKind::NestedBindable(1)).with_ns(
            xs.as_slice(),
            uri.as_slice(),
        ).repeated(),
    );
    fields.push(
        FieldDescriptor::sfc(import_tag().as_slice(), ValueKind::NestedBindable(1)).with_ns(
            xs.as_slice(),
            uri.as_slice(),
        ).repeated(),
    );
    let schema = ContainerDescriptor::of_fields(fields).with_root(schema_tag().as_slice()).with_tns(
        xs.as_slice(),
        uri.as_slice(),
    );
    let mut location: Vec<FieldDescriptor> = Vec::new();
    location.push(FieldDescriptor::attr(schema_location_name().as_slice(), ValueKind::String));
    let element = ContainerDescriptor::of_fields(location).with_tns(xs.as_slice(), uri.as_slice());
    let mut containers: Vec<ContainerDescriptor> = Vec::new();
    containers.push(schema);
    containers.push(element);
    Bindings::new(containers)
}

/// The schema location that the value of an `import` or `include` holds.
pub open spec fn location_of(v: ValueView) -> Option<Seq<u8>> {
    match v {
        ValueView::Struct(fields) => if fields.len() == 1 && fields[0] is Text {
            Some(fields[0]->Text_0)
        } else {
            None
        },
        _ => None,
    }
}

/// The schema locations that a list of such values holds, if each holds one.
pub open spec fn locations_of(items: Seq<ValueView>, k: int) -> Option<Seq<Seq<u8>>>
    decreases items.len() - k,
{
    if k < 0 || k >= items.len() {
        Some(Seq::empty())
    } else {
        match (location_of(items[k]), locations_of(items, k + 1)) {
            (Some(first), Some(rest)) => Some(seq![first] + rest),
            _ => None,
        }
    }
}

pub open spec fn locations_view(list: Seq<XsdImportOrInclude>) -> Seq<Seq<u8>> {
    Seq::new(list.len(), |i: int| list[i].schema_location@)
}

impl XsdImportOrInclude {
    /// Takes the element out of the value it was decoded to.
    pub fn from_value(v: &Value) -> (element: Option<XsdImportOrInclude>)
        ensures
            match location_of(v.deep_view()) {
                Some(location) => element matches Some(e) && e.schema_location@ == location,
                None => element is None,
            },
    {
        match v {
            Value::Struct(fields) => {
                proof {
                    lemma_list_view(*fields);
                }
                if fields.len() != 1 {
                    return None;
                }
                match &fields[0] {
                    Value::Text(location) => Some(
                        XsdImportOrInclude { schema_location: copy_bytes(location.as_slice()) },
                    ),
                    _ => None,
                }
            },
            _ => None,
        }
    }

    fn list_from_value(v: &Value) -> (list: Option<Vec<XsdImportOrInclude>>)
        ensures
            match v.deep_view() {
                ValueView::List(items) => match locations_of(items, 0) {
                    Some(locations) => list matches Some(l) && locations_view(l@) == locations,
                    None => list is None,
                },
                _ => list is None,
            },
    {
        match v {
            Value::List(items) => {
                proof {
                    lemma_list_view(*items);
                }
                let ghost views = values_view(items@);
                let ghost whole = locations_of(views, 0);
                let mut list: Vec<XsdImportOrInclude> = Vec::new();
                let mut k: usize = 0;
                assert(locations_view(list@) =~= Seq::empty());
                while k < items.len()
                    invariant
                        k <= items.len(),
                        v.deep_view() == ValueView::List(views),
                        views == values_view(items@),
                        whole == locations_of(views, 0),
                        whole == match locations_of(views, k as int) {
                            Some(rest) => Some(locations_view(list@) + rest),
                            None => None,
                        },
                    decreases items.len() - k,
                {
                    let ghost before = locations_view(list@);
                    match XsdImportOrInclude::from_value(&items[k]) {
                        None => {
                            return None;
                        },
                        Some(element) => {
                            list.push(element);
                            proof {
                                let rest = locations_of(views, k + 1);
                                assert(locations_view(list@) =~= before.push(
                                    element.schema_location@,
                                ));
                                if rest is Some {
                                    assert(before + (seq![element.schema_location@] + rest->0)
                                        =~= locations_view(list@) + rest->0);
                                }
                            }
                        },
                    }
                    k += 1;
                }
                proof {
                    assert(locations_view(list@) + Seq::<Seq<u8>>::empty() =~= locations_view(
                        list@,
                    ));
                }
                Some(list)
            },
            _ => None,
        }
    }
}

/// What the value of a `schema` element holds: its target namespace, the
/// locations that it includes and those that it imports.
pub open spec fn xsd_of(v: ValueView) -> Option<(Seq<u8>, Seq<Seq<u8>>, Seq<Seq<u8>>)> {
    match v {
        ValueView::Struct(fields) => if fields.len() == 3 {
            match (fields[0], fields[1], fields[2]) {
                (ValueView::Text(tns), ValueView::List(includes), ValueView::List(imports)) => {
                    match (locations_of(includes, 0), locations_of(imports, 0)) {
                        (Some(a), Some(b)) => Some((tns, a, b)),
                        _ => None,
                    }
                },
                _ => None,
            }
        } else {
            None
        },
        _ => None,
    }
}

impl Xsd {
    pub open spec fn view_of(&self) -> (Seq<u8>, Seq<Seq<u8>>, Seq<Seq<u8>>) {
        (self.tns@, locations_view(self.includes@), locations_view(self.imports@))
    }

    /// Takes the schema out of the value it was decoded to.
    pub fn from_value(v: &Value) -> (xsd: Option<Xsd>)
        ensures
            match xsd_of(v.deep_view()) {
                Some(expected) => xsd matches Some(x) && x.view_of() == expected,
                None => xsd is None,
            },
    {
        match v {
            Value::Struct(fields) => {
                proof {
                    lemma_list_view(*fields);
                }
                if fields.len() != 3 {
                    return None;
                }
                let tns = match &fields[0] {
                    Value::Text(tns) => copy_bytes(tns.as_slice()),
                    _ => {
                        return None;
                    },
                };
                let includes = match XsdImportOrInclude::list_from_value(&fields[1]) {
                    Some(list) => list,
                    None => {
                        return None;
                    },
                };
                let imports = match XsdImportOrInclude::list_from_value(&fields[2]) {
                    Some(list) => list,
                    None => {
                        return None;
                    },
                };
                Some(Xsd { tns, includes, imports })
            },
            _ => None,
        }
    }

    /// What a schema document says, read by the bindings of `table`. A value
    /// that is no schema, as other bindings may give it, is reported as a
    /// missing root.
    pub open spec fn of_document(table: &Bindings, doc: Seq<u8>) -> Result<
        (Seq<u8>, Seq<Seq<u8>>, Seq<Seq<u8>>),
        ErrorView,
    > {
        match decode_stream(table, 0, events_of_document(doc)) {
            Err(e) => Err(e),
            Ok(v) => match xsd_of(v) {
                Some(xsd) => Ok(xsd),
                None => Err(ErrorView::MissingRoot),
            },
        }
    }

    /// Reads a schema document by the bindings of `table`, which
    /// `xsd_bindings` makes.
    pub fn from_reader(table: &Bindings, doc: &[u8]) -> (xsd: Result<Xsd, XmlDeserializeError>)
        ensures
            match Xsd::of_document(table, doc@) {
                Ok(expected) => xsd matches Ok(x) && x.view_of() == expected,
                Err(e) => xsd matches Err(got) && got.deep_view() == e,
            },
    {
        match from_reader(table, 0, doc) {
            Err(e) => Err(e),
            Ok(v) => match Xsd::from_value(&v) {
                Some(xsd) => Ok(xsd),
                None => Err(XmlDeserializeError::MissingRoot),
            },
        }
    }
}

} // verus!
