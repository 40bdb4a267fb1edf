use raxb::descriptor::{
    Bindings, ContainerDescriptor, FieldDescriptor, ValueKind, VariantDescriptor,
};
use raxb::value::Value;

fn bindings() -> Bindings {
    let a = ContainerDescriptor::of_fields(vec![
        FieldDescriptor::child(b"d", ValueKind::String).with_default(),
        FieldDescriptor::child(b"c", ValueKind::String).with_default(),
    ])
    .with_root(b"a");
    let b = ContainerDescriptor::of_fields(vec![
        FieldDescriptor::child(b"d", ValueKind::String).with_default()
    ])
    .with_root(b"b");
    let e = ContainerDescriptor::of_variants(vec![
        VariantDescriptor::new(b"a", Some(ValueKind::NestedBindable(0))),
        VariantDescriptor::new(b"b", Some(ValueKind::NestedBindable(1))),
    ]);
    Bindings::new(vec![a, b, e])
}

#[test]
fn trace_enabled_test_enums_serde() {
    let test_xml1 = r#"<a><d>A</d><c>hello</c></a>"#;
    let v1 = raxb::de::from_str(&bindings(), 2, test_xml1).unwrap();
    assert_eq!(
        v1,
        Value::Variant(
            0,
            Box::new(Value::Struct(vec![
                Value::Text(b"A".to_vec()),
                Value::Text(b"hello".to_vec()),
            ]))
        )
    );
}
