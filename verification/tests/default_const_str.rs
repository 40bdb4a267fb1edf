use raxb::descriptor::{Bindings, ContainerDescriptor, FieldDescriptor, ValueKind};
use raxb::value::{ConstStr, Value};

fn bindings() -> Bindings {
    let a = ContainerDescriptor::of_fields(vec![
        FieldDescriptor::attr(b"product", ValueKind::String).with_value(b"H & D"),
        FieldDescriptor::attr(b"xsi", ValueKind::String)
            .with_ns(b"xmlns", b"http://www.w3.org/2000/xmlns/")
            .with_value(b"http://www.w3.org/2001/XMLSchema-instance"),
        FieldDescriptor::attr(b"schemaLocation", ValueKind::String)
            .with_ns(b"xsi", b"http://www.w3.org/2001/XMLSchema-instance")
            .with_value(b"https://myexample.org/examplev100 example.xsd"),
    ])
    .with_root(b"a");
    Bindings::new(vec![a])
}

fn text(s: &str) -> Value {
    Value::Text(s.as_bytes().to_vec())
}

#[test]
fn default_const_str_test_const_str_serde() {
    let test_xml = r#"<a product="H &amp; D" xmlns:xsi="http://www.w3.org/2001/XMLSchema-instance" xsi:schemaLocation="https://myexample.org/examplev100 example.xsd"/>"#;
    let a1 = Value::Struct(vec![Value::Absent, Value::Absent, Value::Absent]);
    let s = raxb::ser::to_string(&bindings(), 0, &a1).unwrap();
    assert_eq!(s, test_xml);
    let a2 = raxb::de::from_str(&bindings(), 0, test_xml).unwrap();
    assert_eq!(
        a2,
        Value::Struct(vec![
            text("H & D"),
            text("http://www.w3.org/2001/XMLSchema-instance"),
            text("https://myexample.org/examplev100 example.xsd"),
        ])
    );
}

#[test]
fn const_str_reads_what_it_is_given_and_compares_by_what_it_writes() {
    let read = ConstStr::from_str("H & D").unwrap();
    assert_eq!(read.as_ref(), "H & D");
    assert_eq!(read.output_value, "");
    let written = ConstStr::from("H & D");
    assert_eq!(written.as_ref(), "");
    assert!(written.eq(&read));
    assert!(written.eq(&ConstStr::from("H & D")));
    assert!(!written.eq(&ConstStr::from("other")));
    assert!(ConstStr::default().eq(&written));
}
