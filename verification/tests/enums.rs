use raxb::de::XmlDeserializeError;
use raxb::descriptor::{
    Bindings, ContainerDescriptor, FieldDescriptor, ValueKind, VariantDescriptor,
};
use raxb::ty::S;
use raxb::value::Value;

const A: usize = 0;
const B: usize = 1;
const E: usize = 2;

fn bindings() -> Bindings {
    let a = ContainerDescriptor::of_fields(vec![
        FieldDescriptor::child(b"d", ValueKind::String).with_default()
    ])
    .with_root(b"a");
    let b = ContainerDescriptor::of_fields(vec![
        FieldDescriptor::child(b"d", ValueKind::String).with_default()
    ])
    .with_root(b"b");
    let e = ContainerDescriptor::Enum {
        variants: vec![
            VariantDescriptor::new(b"a", Some(ValueKind::NestedBindable(A))),
            VariantDescriptor::new(b"b", Some(ValueKind::NestedBindable(B))),
        ],
        tns: None,
        strict: true,
    };
    Bindings::new(vec![a, b, e])
}

fn text(s: &str) -> Value {
    Value::Text(s.as_bytes().to_vec())
}

#[test]
fn enums_test_enums_serde() {
    let test_xml1 = r#"<a><d>A</d></a>"#;
    let v1 = raxb::de::from_str(&bindings(), E, test_xml1).unwrap();
    assert_eq!(v1, Value::Variant(0, Box::new(Value::Struct(vec![text("A")]))));
    let test_xml2 = r#"<b><d>B</d></b>"#;
    let v2 = raxb::de::from_str(&bindings(), E, test_xml2).unwrap();
    assert_eq!(v2, Value::Variant(1, Box::new(Value::Struct(vec![text("B")]))));
}

#[test]
fn strict_union_reports_the_element_it_met() {
    let seen = raxb::de::from_str(&bindings(), E, "<c><d>A</d></c>");
    assert_eq!(
        seen,
        Err(XmlDeserializeError::UnknownVariant(b"c".to_vec(), S(b"'a'|'b'".to_vec())))
    );
    let empty = raxb::de::from_str(&bindings(), E, "<x:c xmlns:x='u'/>");
    assert_eq!(
        empty,
        Err(XmlDeserializeError::UnknownVariant(b"x:c".to_vec(), S(b"'a'|'b'".to_vec())))
    );
}
