use raxb::container::EleType;
use raxb::descriptor::{
    Bindings, ContainerDescriptor, FieldDescriptor, ValueKind, VariantDescriptor,
};
use raxb::value::Value;

fn text(s: &str) -> Value {
    Value::Text(s.as_bytes().to_vec())
}

fn bindings() -> Bindings {
    let c = ContainerDescriptor::of_fields(vec![
        FieldDescriptor::child(b"known", ValueKind::String).optional(),
        FieldDescriptor::new(EleType::Untag, None, ValueKind::NestedBindable(1)).repeated(),
        FieldDescriptor::new(EleType::Any, None, ValueKind::String).repeated(),
    ])
    .with_root(b"c");
    let shape = ContainerDescriptor::of_variants(vec![
        VariantDescriptor::new(b"circle", Some(ValueKind::NestedBindable(2))),
        VariantDescriptor::new(b"point", None),
        VariantDescriptor::new(b"label", Some(ValueKind::String)),
    ]);
    let circle = ContainerDescriptor::of_fields(vec![FieldDescriptor::attr(
        b"r",
        ValueKind::Number(raxb::container::BuiltInType::u32),
    )]);
    Bindings::new(vec![c, shape, circle])
}

#[test]
fn unclaimed_elements_go_to_the_fields_that_take_them() {
    let decoded = raxb::de::from_str(
        &bindings(),
        0,
        r#"<c><point/><x:other xmlns:x="u"><known>no</known></x:other><known>yes</known><circle r="2"/><label>l</label><empty/><circle r="3"></circle></c>"#,
    )
    .unwrap();
    let expected = Value::Struct(vec![
        text("yes"),
        Value::List(vec![
            Value::Variant(1, Box::new(Value::Absent)),
            Value::Variant(0, Box::new(Value::Struct(vec![Value::Number(2)]))),
            Value::Variant(2, Box::new(text("l"))),
            Value::Variant(0, Box::new(Value::Struct(vec![Value::Number(3)]))),
        ]),
        Value::List(vec![text("x:other"), text("empty")]),
    ]);
    assert_eq!(decoded, expected);
    assert_eq!(
        raxb::ser::to_string(&bindings(), 0, &expected).unwrap(),
        r#"<c><known>yes</known><point/><circle r="2"/><label>l</label><circle r="3"/><x:other/><empty/></c>"#
    );
}
