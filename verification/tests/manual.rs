use raxb::container::BuiltInType;
use raxb::descriptor::{Bindings, ContainerDescriptor, FieldDescriptor, ValueKind};
use raxb::value::Value;

const A: usize = 0;
const D: usize = 1;
const F: usize = 2;

fn bindings() -> Bindings {
    let a = ContainerDescriptor::of_fields(vec![
        FieldDescriptor::attr(b"id", ValueKind::String),
        FieldDescriptor::sfc(b"b", ValueKind::Bool),
        FieldDescriptor::child(b"c", ValueKind::String),
        FieldDescriptor::child(b"d", ValueKind::NestedBindable(D)),
    ])
    .with_root(b"a");
    let d = ContainerDescriptor::of_fields(vec![
        FieldDescriptor::attr(b"name", ValueKind::String),
        FieldDescriptor::child(b"e", ValueKind::Number(BuiltInType::i32)).repeated(),
        FieldDescriptor::child(b"f", ValueKind::NestedBindable(F)).repeated(),
    ]);
    let f = ContainerDescriptor::of_fields(vec![
        FieldDescriptor::child(b"h", ValueKind::String).optional(),
        FieldDescriptor::child(b"j", ValueKind::String),
    ]);
    Bindings::new(vec![a, d, f])
}

fn text(s: &str) -> Value {
    Value::Text(s.as_bytes().to_vec())
}

fn field(v: &Value, i: usize) -> &Value {
    match v {
        Value::Struct(fields) => &fields[i],
        other => panic!("not a struct: {:?}", other),
    }
}

fn item(v: &Value, i: usize) -> &Value {
    match v {
        Value::List(items) => &items[i],
        other => panic!("not a list: {:?}", other),
    }
}

fn numbers(list: &[i128]) -> Value {
    Value::List(list.iter().map(|n| Value::Number(*n)).collect())
}

#[test]
fn test_serialize_manual() {
    let a = Value::Struct(vec![
        text("root"),
        Value::Bool(true),
        text("foo"),
        Value::Struct(vec![
            text("foobar"),
            numbers(&[1, 2, 3]),
            Value::List(vec![
                Value::Struct(vec![text("bar1"), text("baz2")]),
                Value::Struct(vec![Value::Absent, text("baz")]),
            ]),
        ]),
    ]);

    let xml = raxb::ser::to_string(&bindings(), A, &a).unwrap();
    assert_eq!(
        r#"<a id="root"><b/><c>foo</c><d name="foobar"><e>1</e><e>2</e><e>3</e><f><h>bar1</h><j>baz2</j></f><f><j>baz</j></f></d></a>"#,
        xml
    );
}

#[test]
fn test_deserialize_manual() {
    let xml = r#"<a id="root">
        <b/>
        <c>foo</c>
        <d name="foobar">
            <e>1</e>
            <e>2</e>
            <e>3</e>
            <f>
                <h>bar1</h>
                <j>baz2</j>
            </f>
            <f>
                <j>baz</j>
            </f>
        </d>
    </a>"#;
    let a = raxb::de::from_str(&bindings(), A, xml).unwrap();
    assert_eq!(field(&a, 0), &text("root"));
    assert_eq!(field(&a, 1), &Value::Bool(true));
    assert_eq!(field(&a, 2), &text("foo"));
    let d = field(&a, 3);
    assert_eq!(field(d, 0), &text("foobar"));
    assert_eq!(field(d, 1), &numbers(&[1, 2, 3]));
    let f = field(d, 2);
    assert_eq!(field(item(f, 0), 0), &text("bar1"));
    assert_eq!(field(item(f, 0), 1), &text("baz2"));
    assert_eq!(field(item(f, 1), 0), &Value::Absent);
    assert_eq!(field(item(f, 1), 1), &text("baz"));
}

#[test]
fn test_deserialize_manual_skipping_unknown_fields() {
    let xml = r#"<a id="root">
        <b/>
        <c>foo</c>
        <y>
            unknown
        </y>
        <d name="foobar">
            <e>1</e>
            <e>2</e>

            <z>
                <x>1</x>
                <x>2</x>
                <x>3</x>
            </z>
            <e>3</e>
            <f>
                <h>bar1</h>
                <j>baz2</j>
                <k>
                    <f>
                        <j>recurse</j>
                    </f>
                </k>
            </f>
            <f>
                <j>baz</j>
            </f>
        </d>
    </a>"#;
    let a = raxb::de::from_str(&bindings(), A, xml).unwrap();
    assert_eq!(field(&a, 1), &Value::Bool(true));
    assert_eq!(field(&a, 2), &text("foo"));
    let d = field(&a, 3);
    assert_eq!(field(d, 0), &text("foobar"));
    assert_eq!(field(d, 1), &numbers(&[1, 2, 3]));
    let f = field(d, 2);
    assert_eq!(field(item(f, 0), 0), &text("bar1"));
    assert_eq!(field(item(f, 0), 1), &text("baz2"));
    assert_eq!(field(item(f, 1), 0), &Value::Absent);
    assert_eq!(field(item(f, 1), 1), &text("baz"));
}
