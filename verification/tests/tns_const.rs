use raxb::container::EleType;
use raxb::descriptor::{Bindings, ContainerDescriptor, FieldDescriptor, ValueKind};
use raxb::value::Value;

const EX_NS: &[u8] = b"https://my.example.org/";

fn bindings() -> Bindings {
    let example = ContainerDescriptor::of_fields(vec![
        FieldDescriptor::new(EleType::XmlNs, Some(b"ex".to_vec()), ValueKind::String)
            .with_value(EX_NS),
        FieldDescriptor::child(b"header", ValueKind::NestedBindable(1)).with_ns(b"ex", EX_NS),
    ])
    .with_root(b"Envelope")
    .with_tns(b"ex", EX_NS);
    let header = ContainerDescriptor::of_fields(vec![FieldDescriptor::text(ValueKind::String)]);
    Bindings::new(vec![example, header])
}

fn field(v: &Value, i: usize) -> &Value {
    match v {
        Value::Struct(fields) => &fields[i],
        other => panic!("not a struct: {:?}", other),
    }
}

#[test]
fn test_const_tns_serde() {
    let example = Value::Struct(vec![
        Value::Absent,
        Value::Struct(vec![Value::Text(b"BASE_64_ENCODED_XML".to_vec())]),
    ]);
    let xml = raxb::ser::to_string(&bindings(), 0, &example).unwrap();
    assert_eq!(
        xml,
        r#"<ex:Envelope xmlns:ex="https://my.example.org/"><ex:header>BASE_64_ENCODED_XML</ex:header></ex:Envelope>"#
    );

    let de = raxb::de::from_str(&bindings(), 0, &xml).unwrap();
    assert_eq!(
        field(field(&de, 1), 0),
        &Value::Text(b"BASE_64_ENCODED_XML".to_vec())
    );
}
