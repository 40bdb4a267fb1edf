use raxb::de::XmlDeserializeError;
use raxb::descriptor::{
    Bindings, ContainerDescriptor, FieldDescriptor, ValueKind, VariantDescriptor,
};
use raxb::ty::S;
use raxb::value::Value;

const A: usize = 0;
const B: usize = 1;
const E: usize = 2;
const F: usize = 3;

fn bindings() -> Bindings {
    let a = ContainerDescriptor::of_fields(vec![
        FieldDescriptor::child(b"d", ValueKind::String).with_default()
    ])
    .with_root(b"a");
    let b = ContainerDescriptor::of_fields(vec![
        FieldDescriptor::child(b"d", ValueKind::String).with_default()
    ])
    .with_root(b"b");
    let e = ContainerDescriptor::of_variants(vec![
        VariantDescriptor::new(b"a", Some(ValueKind::NestedBindable(A))),
        VariantDescriptor::new(b"b", Some(ValueKind::NestedBindable(B))),
    ]);
    let f = ContainerDescriptor::of_variants(vec![
        VariantDescriptor::new(b"a", Some(ValueKind::String)),
        VariantDescriptor::new(b"b", None),
    ]);
    Bindings::new(vec![a, b, e, f])
}

fn text(s: &str) -> Value {
    Value::Text(s.as_bytes().to_vec())
}

fn variant(index: usize, payload: Value) -> Value {
    Value::Variant(index, Box::new(payload))
}

#[test]
fn derive_enums_test_enums_serde() {
    let test_xml1 = r#"<a><d>A</d></a>"#;
    let v1 = raxb::de::from_str(&bindings(), E, test_xml1).unwrap();
    assert_eq!(v1, variant(0, Value::Struct(vec![text("A")])));
    let test_xml2 = r#"<b><d>B</d></b>"#;
    let v2 = raxb::de::from_str(&bindings(), E, test_xml2).unwrap();
    assert_eq!(v2, variant(1, Value::Struct(vec![text("B")])));
}

#[test]
fn test_enums_serde_empty_tags() {
    let test_xml1 = r#"<a>A</a>"#;
    let v1 = raxb::de::from_str(&bindings(), F, test_xml1).unwrap();
    let r1 = variant(0, text("A"));
    assert_eq!(test_xml1, raxb::ser::to_string(&bindings(), F, &r1).unwrap());
    assert_eq!(v1, r1);
    let test_xml2 = r#"<b/>"#;
    let v2 = raxb::de::from_str(&bindings(), F, test_xml2).unwrap();
    let r2 = variant(1, Value::Absent);
    assert_eq!(v2, r2);
    assert_eq!(test_xml2, raxb::ser::to_string(&bindings(), F, &r2).unwrap());
}

#[test]
fn test_missing_variant() {
    let test_xml1 = r#"<c><d>A</d></c>"#;
    let v1 = raxb::de::from_str(&bindings(), E, test_xml1);
    assert!(match v1 {
        Err(XmlDeserializeError::MissingVariant(S(v))) => {
            assert_eq!(v, b"'a'|'b'");
            true
        }
        _ => false,
    });
}
