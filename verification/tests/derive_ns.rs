use raxb::container::EleType;
use raxb::descriptor::{Bindings, ContainerDescriptor, FieldDescriptor, ValueKind};
use raxb::value::Value;

const SOAP: &[u8] = b"https://schemas.xmlsoap.org/soap/envelope/";
const EX: &[u8] = b"https://my.example.org/";
const XS: &[u8] = b"http://www.w3.org/2001/XMLSchema";

const ENVELOPE: usize = 0;
const EXAMPLE: usize = 1;
const HEADER: usize = 2;

fn xmlns(prefix: &[u8], uri: &[u8]) -> FieldDescriptor {
    FieldDescriptor::new(EleType::XmlNs, Some(prefix.to_vec()), ValueKind::String).with_value(uri)
}

fn envelope_bindings() -> Bindings {
    let envelope = ContainerDescriptor::of_fields(vec![
        xmlns(b"SOAP", SOAP),
        FieldDescriptor::sfc(b"Header", ValueKind::Bool).with_ns(b"SOAP", SOAP),
        FieldDescriptor::child(b"Body", ValueKind::NestedBindable(EXAMPLE)).with_ns(b"SOAP", SOAP),
    ])
    .with_root(b"Envelope")
    .with_tns(b"SOAP", SOAP);
    let example = ContainerDescriptor::of_fields(vec![
        xmlns(b"ex", EX),
        FieldDescriptor::child(b"header", ValueKind::NestedBindable(HEADER)).with_ns(b"ex", EX),
    ])
    .with_tns(b"ex", EX);
    let header = ContainerDescriptor::of_fields(vec![FieldDescriptor::text(ValueKind::String)]);
    Bindings::new(vec![envelope, example, header])
}

fn xsd_bindings() -> Bindings {
    let xsd = ContainerDescriptor::of_fields(vec![
        FieldDescriptor::sfc(b"include", ValueKind::NestedBindable(1))
            .with_ns(b"xs", XS)
            .repeated(),
        FieldDescriptor::sfc(b"import", ValueKind::NestedBindable(1))
            .with_ns(b"xs", XS)
            .repeated(),
    ])
    .with_root(b"schema")
    .with_tns(b"xs", XS);
    let import = ContainerDescriptor::of_fields(vec![FieldDescriptor::attr(
        b"schemaLocation",
        ValueKind::String,
    )]);
    Bindings::new(vec![xsd, import])
}

fn text(s: &str) -> Value {
    Value::Text(s.as_bytes().to_vec())
}

fn location(s: &str) -> Value {
    Value::Struct(vec![text(s)])
}

fn envelope() -> Value {
    Value::Struct(vec![
        Value::Text(SOAP.to_vec()),
        Value::Bool(true),
        Value::Struct(vec![
            Value::Text(EX.to_vec()),
            Value::Struct(vec![text("BASE_64_ENCODED_XML")]),
        ]),
    ])
}

#[test]
fn test_serialize_ns_derive() {
    let xml = raxb::ser::to_string(&envelope_bindings(), ENVELOPE, &envelope()).unwrap();
    assert_eq!(
        xml,
        r#"<SOAP:Envelope xmlns:SOAP="https://schemas.xmlsoap.org/soap/envelope/"><SOAP:Header/><SOAP:Body xmlns:ex="https://my.example.org/"><ex:header>BASE_64_ENCODED_XML</ex:header></SOAP:Body></SOAP:Envelope>"#
    );
}

#[test]
fn test_deserialize_ns_with_derive_macro() {
    let xml = r#"<SOAP-ENV:Envelope xmlns:SOAP-ENV="https://schemas.xmlsoap.org/soap/envelope/">
    <SOAP-ENV:Header/>
    <SOAP-ENV:Body xmlns:xsd="http://www.w3.org/2001/XMLSchema">
        <example:header xmlns:example="https://my.example.org/">BASE_64_ENCODED_XML</example:header>
    </SOAP-ENV:Body>
</SOAP-ENV:Envelope>"#;
    let decoded = raxb::de::from_str(&envelope_bindings(), ENVELOPE, xml).unwrap();
    println!("{decoded:#?}");
    assert_eq!(decoded, envelope());
}

#[test]
fn test_deserialize_ns_with_derive_macro_with_decl() {
    let xml = r#"<?xml version="1.0" encoding="utf-8" ?>
<xs:schema xmlns:xs="http://www.w3.org/2001/XMLSchema" targetNamespace="https://local.dev/example" xmlns:example="https://local.dev/example" elementFormDefault="qualified">
    <xs:import schemaLocation="./example2.xsd" namespace="https://local.dev/example2" />
    <xs:include  schemaLocation="./example1.xsd" />
</xs:schema>"#;
    let xsd = raxb::de::from_str(&xsd_bindings(), 0, xml).unwrap();
    println!("{xsd:#?}");
    assert_eq!(
        xsd,
        Value::Struct(vec![
            Value::List(vec![location("./example1.xsd")]),
            Value::List(vec![location("./example2.xsd")]),
        ])
    );
}

#[test]
fn test_deserialize_real_schema() {
    let xml = r#"<?xml version="1.0" encoding="UTF-8"?>
<xs:schema xmlns:xs="http://www.w3.org/2001/XMLSchema"
           targetNamespace="https://gitlab.opencode.de/akdb/xoev/xwasser/-/raw/main/V0_5_0"
           version="0.5.0"
           elementFormDefault="qualified"
           attributeFormDefault="unqualified">
   <xs:include schemaLocation="xwasser-administration.xsd"/>
   <xs:include schemaLocation="xwasser-basisdatentypen.xsd"/>
   <xs:include schemaLocation="xwasser-basisnachricht.xsd"/>
   <xs:include schemaLocation="xwasser-baukasten-erweiterung.xsd"/>
   <xs:include schemaLocation="xwasser-baukasten.xsd"/>
   <xs:include schemaLocation="xwasser-rueckweisung.xsd"/>
   <xs:include schemaLocation="xwasser-vorgang.xsd"/>
   <xs:include schemaLocation="xwasser-weiterleitung.xsd"/>
   <xs:include schemaLocation="xwasser-weiterleitungsnachrichten.xsd"/>
</xs:schema>"#;
    let xsd = raxb::de::from_str(&xsd_bindings(), 0, xml).unwrap();
    println!("{xsd:#?}");
    assert_eq!(
        xsd,
        Value::Struct(vec![
            Value::List(vec![
                location("xwasser-administration.xsd"),
                location("xwasser-basisdatentypen.xsd"),
                location("xwasser-basisnachricht.xsd"),
                location("xwasser-baukasten-erweiterung.xsd"),
                location("xwasser-baukasten.xsd"),
                location("xwasser-rueckweisung.xsd"),
                location("xwasser-vorgang.xsd"),
                location("xwasser-weiterleitung.xsd"),
                location("xwasser-weiterleitungsnachrichten.xsd"),
            ]),
            Value::List(vec![]),
        ])
    );
}
