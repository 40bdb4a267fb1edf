use raxb::descriptor::{Bindings, ContainerDescriptor, FieldDescriptor, ValueKind};
use raxb::value::Value;

const A: usize = 0;
const B: usize = 1;
const C: usize = 2;

fn bindings() -> Bindings {
    let a = ContainerDescriptor::of_fields(vec![
        FieldDescriptor::child(b"b", ValueKind::NestedBindable(B)).with_default(),
        FieldDescriptor::child(b"c", ValueKind::NestedBindable(C)),
        FieldDescriptor::child(b"d", ValueKind::String).with_default(),
    ])
    .with_root(b"a");
    let b = ContainerDescriptor::of_fields(vec![FieldDescriptor::text(ValueKind::String)]);
    let c = ContainerDescriptor::of_fields(vec![
        FieldDescriptor::text(ValueKind::String).with_default()
    ]);
    Bindings::new(vec![a, b, c])
}

fn text(s: &str) -> Value {
    Value::Text(s.as_bytes().to_vec())
}

#[test]
fn default_field_test_const_str_serde() {
    let test_xml = r#"<a><b></b><c></c><d></d></a>"#;
    let a1 = Value::Struct(vec![
        Value::Struct(vec![text("")]),
        Value::Struct(vec![text("")]),
        text(""),
    ]);
    let s = raxb::ser::to_string(&bindings(), A, &a1).unwrap();
    assert_eq!(s, test_xml);
    let a2 = raxb::de::from_str(&bindings(), A, test_xml).unwrap();
    assert_eq!(a1, a2);
}
