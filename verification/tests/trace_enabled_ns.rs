use raxb::container::EleType;
use raxb::descriptor::{
    Bindings, ContainerDescriptor, FieldDescriptor, ValueKind, VariantDescriptor,
};
use raxb::value::Value;

const NS1: &[u8] = b"https://local.dev/example";

const F: usize = 0;
const G: usize = 1;
const H: usize = 2;
const J: usize = 3;

fn string_child(name: &[u8]) -> FieldDescriptor {
    FieldDescriptor::child(name, ValueKind::String).with_ns(b"ns1", NS1).with_default()
}

fn bindings() -> Bindings {
    let f = ContainerDescriptor::of_fields(vec![string_child(b"a")]).with_tns(b"ns1", NS1);
    let g = ContainerDescriptor::of_fields(vec![string_child(b"d")]).with_tns(b"ns1", NS1);
    let h = ContainerDescriptor::of_variants(vec![
        VariantDescriptor::new(b"f", Some(ValueKind::NestedBindable(F))).with_ns(b"ns1", NS1),
        VariantDescriptor::new(b"g", Some(ValueKind::NestedBindable(G))).with_ns(b"ns1", NS1),
        VariantDescriptor::new(b"none", None).with_ns(b"ns1", NS1),
    ])
    .with_tns(b"ns1", NS1);
    let j = ContainerDescriptor::of_fields(vec![
        FieldDescriptor::new(EleType::XmlNs, Some(b"ns1".to_vec()), ValueKind::String)
            .with_value(NS1),
        FieldDescriptor::child(b"h", ValueKind::NestedBindable(H)).with_ns(b"ns1", NS1),
    ])
    .with_root(b"j")
    .with_tns(b"ns1", NS1);
    Bindings::new(vec![f, g, h, j])
}

fn f_of_a() -> Value {
    Value::Variant(0, Box::new(Value::Struct(vec![Value::Text(b"A".to_vec())])))
}

#[test]
fn trace_enabled_ns_test_enum_child_with_ns_serde() {
    let test_xml1 = r#"<ns1:j xmlns:ns1="https://local.dev/example">
        <ns1:h>
            <ns1:f>
                <ns1:a>A</ns1:a>
            </ns1:f>
        </ns1:h>
    </ns1:j>"#;
    let v1 = raxb::de::from_str(&bindings(), J, test_xml1).unwrap();
    let r1 = Value::Struct(vec![Value::Text(NS1.to_vec()), f_of_a()]);
    assert_eq!(v1, r1);
}

#[test]
fn test_enum_with_ns_serde() {
    let test_xml1 = r#"<ns1:f xmlns:ns1="https://local.dev/example"><ns1:a>A</ns1:a></ns1:f>"#;
    let v1 = raxb::de::from_str(&bindings(), H, test_xml1).unwrap();
    assert_eq!(v1, f_of_a());
}
