use raxb::container::EleType;
use raxb::descriptor::{
    Bindings, ContainerDescriptor, FieldDescriptor, ValueKind, VariantDescriptor,
};
use raxb::value::Value;

const NS1: &[u8] = b"https://local.dev/example";

const A: usize = 0;
const B: usize = 1;
const E: usize = 2;
const F: usize = 3;
const G: usize = 4;
const H: usize = 5;
const J: usize = 6;

fn xmlns() -> FieldDescriptor {
    FieldDescriptor::new(EleType::XmlNs, Some(b"ns1".to_vec()), ValueKind::String).with_value(NS1)
}

fn string_child(name: &[u8]) -> FieldDescriptor {
    FieldDescriptor::child(name, ValueKind::String).with_ns(b"ns1", NS1).with_default()
}

fn bindings() -> Bindings {
    let a = ContainerDescriptor::of_fields(vec![xmlns(), string_child(b"d")])
        .with_root(b"a")
        .with_tns(b"ns1", NS1);
    let b = ContainerDescriptor::of_fields(vec![xmlns(), string_child(b"d")])
        .with_root(b"b")
        .with_tns(b"ns1", NS1);
    let e = ContainerDescriptor::of_variants(vec![
        VariantDescriptor::new(b"a", Some(ValueKind::NestedBindable(A))).with_ns(b"ns1", NS1),
        VariantDescriptor::new(b"b", Some(ValueKind::NestedBindable(B))).with_ns(b"ns1", NS1),
        VariantDescriptor::new(b"none", None).with_ns(b"ns1", NS1),
    ])
    .with_tns(b"ns1", NS1);
    let f = ContainerDescriptor::of_fields(vec![string_child(b"a")]).with_tns(b"ns1", NS1);
    let g = ContainerDescriptor::of_fields(vec![string_child(b"d")]).with_tns(b"ns1", NS1);
    let h = ContainerDescriptor::of_variants(vec![
        VariantDescriptor::new(b"f", Some(ValueKind::NestedBindable(F))).with_ns(b"ns1", NS1),
        VariantDescriptor::new(b"g", Some(ValueKind::NestedBindable(G))).with_ns(b"ns1", NS1),
        VariantDescriptor::new(b"none", None).with_ns(b"ns1", NS1),
    ])
    .with_tns(b"ns1", NS1);
    let j = ContainerDescriptor::of_fields(vec![
        xmlns(),
        FieldDescriptor::child(b"h", ValueKind::NestedBindable(H)).with_ns(b"ns1", NS1),
    ])
    .with_root(b"j")
    .with_tns(b"ns1", NS1);
    Bindings::new(vec![a, b, e, f, g, h, j])
}

fn text(s: &str) -> Value {
    Value::Text(s.as_bytes().to_vec())
}

fn variant(index: usize, payload: Value) -> Value {
    Value::Variant(index, Box::new(payload))
}

#[test]
fn test_enums_with_ns_serde() {
    let test_xml1 = r#"<ns1:a xmlns:ns1="https://local.dev/example"><ns1:d>A</ns1:d></ns1:a>"#;
    let v1 = raxb::de::from_str(&bindings(), E, test_xml1).unwrap();
    let r1 = variant(0, Value::Struct(vec![Value::Text(NS1.to_vec()), text("A")]));
    assert_eq!(v1, r1);
    assert_eq!(test_xml1, raxb::ser::to_string(&bindings(), E, &r1).unwrap());
    let test_xml2 = r#"<ns1:b xmlns:ns1="https://local.dev/example"><ns1:d>B</ns1:d></ns1:b>"#;
    let v2 = raxb::de::from_str(&bindings(), E, test_xml2).unwrap();
    let r2 = variant(1, Value::Struct(vec![Value::Text(NS1.to_vec()), text("B")]));
    assert_eq!(v2, r2);
    assert_eq!(test_xml2, raxb::ser::to_string(&bindings(), E, &r2).unwrap());
}

#[test]
fn derive_enums_ns_test_enum_child_with_ns_serde() {
    let test_xml1 = r#"<ns1:j xmlns:ns1="https://local.dev/example"><ns1:h><ns1:f><ns1:a>A</ns1:a></ns1:f></ns1:h></ns1:j>"#;
    let v1 = raxb::de::from_str(&bindings(), J, test_xml1).unwrap();
    let r1 = Value::Struct(vec![
        Value::Text(NS1.to_vec()),
        variant(0, Value::Struct(vec![text("A")])),
    ]);
    assert_eq!(v1, r1);
    let xml = raxb::ser::to_string(&bindings(), J, &r1).unwrap();
    let r2 = raxb::de::from_str(&bindings(), J, &xml).unwrap();
    assert_eq!(v1, r2);
}
