use raxb::container::EleType;
use raxb::descriptor::{Bindings, ContainerDescriptor, FieldDescriptor, ValueKind};
use raxb::value::Value;

const ENVELOPE: usize = 0;
const EXAMPLE: usize = 1;
const HEADER: usize = 2;

fn xmlns(prefix: &[u8], uri: &[u8]) -> FieldDescriptor {
    FieldDescriptor::new(EleType::XmlNs, Some(prefix.to_vec()), ValueKind::String).with_value(uri)
}

fn writing() -> Bindings {
    let soap: &[u8] = b"https://schemas.xmlsoap.org/soap/envelope/";
    let example: &[u8] = b"https://my.example.org/";
    let envelope = ContainerDescriptor::of_fields(vec![
        xmlns(b"SOAP-ENV", soap),
        FieldDescriptor::sfc(b"Header", ValueKind::Bool).with_ns(b"SOAP-ENV", soap),
        FieldDescriptor::child(b"Body", ValueKind::NestedBindable(EXAMPLE))
            .with_ns(b"SOAP-ENV", soap),
    ])
    .with_root(b"Envelope")
    .with_tns(b"SOAP-ENV", soap);
    let body = ContainerDescriptor::of_fields(vec![FieldDescriptor::child(
        b"header",
        ValueKind::NestedBindable(HEADER),
    )
    .with_ns(b"example", example)]);
    let header = ContainerDescriptor::of_fields(vec![
        xmlns(b"example", example),
        FieldDescriptor::text(ValueKind::String),
    ]);
    Bindings::new(vec![envelope, body, header])
}

fn reading() -> Bindings {
    let soap: &[u8] = b"http://schemas.xmlsoap.org/soap/envelope/";
    let example: &[u8] = b"https://my.example.org/";
    let envelope = ContainerDescriptor::of_fields(vec![
        FieldDescriptor::sfc(b"Header", ValueKind::Bool).with_ns(b"SOAP-ENV", soap),
        FieldDescriptor::child(b"Body", ValueKind::NestedBindable(EXAMPLE))
            .with_ns(b"SOAP-ENV", soap),
    ])
    .with_root(b"Envelope")
    .with_tns(b"SOAP-ENV", soap);
    let body = ContainerDescriptor::of_fields(vec![FieldDescriptor::child(
        b"header",
        ValueKind::NestedBindable(HEADER),
    )
    .with_ns(b"example", example)])
    .with_root(b"Example")
    .with_tns(b"example", example);
    let header = ContainerDescriptor::of_fields(vec![FieldDescriptor::text(ValueKind::String)])
        .with_root(b"Example")
        .with_tns(b"example", example);
    Bindings::new(vec![envelope, body, header])
}

fn text(s: &str) -> Value {
    Value::Text(s.as_bytes().to_vec())
}

#[test]
fn test_serialize_ns_manual() {
    let envelope = Value::Struct(vec![
        text("https://schemas.xmlsoap.org/soap/envelope/"),
        Value::Bool(true),
        Value::Struct(vec![Value::Struct(vec![
            text("https://my.example.org/"),
            text("BASE_64_ENCODED_XML"),
        ])]),
    ]);
    let xml = raxb::ser::to_string(&writing(), ENVELOPE, &envelope).unwrap();
    assert_eq!(
        xml,
        r#"<SOAP-ENV:Envelope xmlns:SOAP-ENV="https://schemas.xmlsoap.org/soap/envelope/"><SOAP-ENV:Header/><SOAP-ENV:Body><example:header xmlns:example="https://my.example.org/">BASE_64_ENCODED_XML</example:header></SOAP-ENV:Body></SOAP-ENV:Envelope>"#
    );
}

#[test]
fn test_deserialize_ns_manual() {
    let xml = r#"<SOAP-ENV:Envelope xmlns:SOAP-ENV="http://schemas.xmlsoap.org/soap/envelope/">
    <SOAP-ENV:Header/>
    <SOAP-ENV:Body xmlns:xsd="http://www.w3.org/2001/XMLSchema">
        <example:header xmlns:example="https://my.example.org/">BASE_64_ENCODED_XML</example:header>
    </SOAP-ENV:Body>
</SOAP-ENV:Envelope>"#;

    let envelope = raxb::de::from_str(&reading(), ENVELOPE, xml).unwrap();
    println!("{envelope:#?}");
    assert_eq!(
        envelope,
        Value::Struct(vec![
            Value::Bool(true),
            Value::Struct(vec![Value::Struct(vec![text("BASE_64_ENCODED_XML")])]),
        ])
    );
}
