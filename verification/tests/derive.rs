use raxb::container::BuiltInType;
use raxb::descriptor::{Bindings, ContainerDescriptor, FieldDescriptor, ValueKind};
use raxb::value::Value;

const A: usize = 0;
const D: usize = 1;
const F: usize = 2;
const K: usize = 3;

fn bindings() -> Bindings {
    let a = ContainerDescriptor::of_fields(vec![
        FieldDescriptor::attr(b"id", ValueKind::String),
        FieldDescriptor::sfc(b"b", ValueKind::Bool),
        FieldDescriptor::child(b"c", ValueKind::String),
        FieldDescriptor::child(b"d", ValueKind::NestedBindable(D)),
    ])
    .with_root(b"a");
    let d = ContainerDescriptor::of_fields(vec![
        FieldDescriptor::attr(b"name", ValueKind::String),
        FieldDescriptor::child(b"e", ValueKind::Number(BuiltInType::i32)).repeated(),
        FieldDescriptor::child(b"f", ValueKind::NestedBindable(F)).repeated(),
        FieldDescriptor::child(b"k", ValueKind::NestedBindable(K)).repeated(),
        FieldDescriptor::child(b"d", ValueKind::NestedBindable(D)).repeated(),
    ])
    .with_root(b"d");
    let f = ContainerDescriptor::of_fields(vec![
        FieldDescriptor::child(b"h", ValueKind::String).optional(),
        FieldDescriptor::child(b"j", ValueKind::String),
    ])
    .with_root(b"f");
    let k = ContainerDescriptor::of_fields(vec![
        FieldDescriptor::attr(b"id", ValueKind::String).optional(),
        FieldDescriptor::attr(b"n", ValueKind::Number(BuiltInType::i32)),
        FieldDescriptor::text(ValueKind::String),
    ])
    .with_root(b"k");
    Bindings::new(vec![a, d, f, k])
}

fn text(s: &str) -> Value {
    Value::Text(s.as_bytes().to_vec())
}

fn field(v: &Value, i: usize) -> &Value {
    match v {
        Value::Struct(fields) => &fields[i],
        other => panic!("not a struct: {:?}", other),
    }
}

fn item(v: &Value, i: usize) -> &Value {
    match v {
        Value::List(items) => &items[i],
        other => panic!("not a list: {:?}", other),
    }
}

fn numbers(list: &[i128]) -> Value {
    Value::List(list.iter().map(|n| Value::Number(*n)).collect())
}

fn k(id: &str, n: i128, content: &str) -> Value {
    Value::Struct(vec![text(id), Value::Number(n), text(content)])
}

#[test]
fn test_serialize_derive() {
    let a = Value::Struct(vec![
        text("root"),
        Value::Bool(true),
        text("foo"),
        Value::Struct(vec![
            text("foobar"),
            numbers(&[1, 2, 3]),
            Value::List(vec![
                Value::Struct(vec![text("bar1"), text("baz2")]),
                Value::Struct(vec![Value::Absent, text("baz")]),
            ]),
            Value::List(vec![k("one", 32, "k content 1")]),
            Value::List(vec![]),
        ]),
    ]);
    let xml = raxb::ser::to_string(&bindings(), A, &a).unwrap();
    assert_eq!(
        r#"<a id="root"><b/><c>foo</c><d name="foobar"><e>1</e><e>2</e><e>3</e><f><h>bar1</h><j>baz2</j></f><f><j>baz</j></f><k id="one" n="32">k content 1</k></d></a>"#,
        xml
    );
}

#[test]
fn test_deserialize_with_derive_macro() {
    let xml = r#"<a id="root">
        <b/>
        <c>foo</c>
        <d name="foobar">
            <e>1</e>
            <e>2</e>
            <e>3</e>
            <d name="child">
                <e>4</e>
                <e>5</e>
                <e>6</e>
            </d>
            <k id="one" n="32">k content 1</k>
            <k id="two" n="64">k content 2</k>
            <f>
                <h>bar1</h>
                <j>baz2</j>
            </f>
            <f>
                <j>baz</j>
            </f>
        </d>
    </a>"#;
    let a = raxb::de::from_str(&bindings(), A, xml).unwrap();
    assert_eq!(field(&a, 1), &Value::Bool(true));
    assert_eq!(field(&a, 2), &text("foo"));
    let d = field(&a, 3);
    assert_eq!(field(d, 0), &text("foobar"));
    assert_eq!(field(d, 1), &numbers(&[1, 2, 3]));
    let f = field(d, 2);
    assert_eq!(field(item(f, 0), 0), &text("bar1"));
    assert_eq!(field(item(f, 0), 1), &text("baz2"));
    assert_eq!(field(item(f, 1), 0), &Value::Absent);
    assert_eq!(field(item(f, 1), 1), &text("baz"));
    let inner = item(field(d, 4), 0);
    assert_eq!(field(inner, 0), &text("child"));
    assert_eq!(field(inner, 1), &numbers(&[4, 5, 6]));
    let ks = field(d, 3);
    assert_eq!(field(item(ks, 0), 0), &text("one"));
    assert_eq!(field(item(ks, 0), 1), &Value::Number(32));
    assert_eq!(field(item(ks, 1), 0), &text("two"));
    assert_eq!(field(item(ks, 1), 1), &Value::Number(64));
}

#[test]
fn test_deserialize_with_derive_macro_2() {
    let xml = r#"<a id="root">
        <b/>
        <c>hello xml</c>
        <d name="a1">
            <f> <h>Hello</h> <j>World</j> </f>
            <k id="id1" n="0"> moin moin </k>
            <d name="inner_d">
                <e>0</e>
                <e>1</e>
                <e>2</e>
                <e>3</e>
                <e>4</e>
                <k id="id2" n="9278345">this text belongs to K struct</k>
                <k id="id3" n="6543">this text also belongs to K struct</k>
            </d>
        </d>
        </a>
        "#;

    let a = raxb::de::from_str(&bindings(), A, xml).unwrap();
    assert_eq!(field(&a, 1), &Value::Bool(true));
    assert_eq!(field(&a, 2), &text("hello xml"));
    let d = field(&a, 3);
    assert_eq!(
        field(d, 2),
        &Value::List(vec![Value::Struct(vec![text("Hello"), text("World")])])
    );
    assert_eq!(field(item(field(d, 3), 0), 0), &text("id1"));
    let inner = item(field(d, 4), 0);
    assert_eq!(field(inner, 1), &numbers(&[0, 1, 2, 3, 4]));
    assert_eq!(item(field(inner, 1), 4), &Value::Number(4));
    assert_eq!(
        field(inner, 3),
        &Value::List(vec![
            k("id2", 9278345, "this text belongs to K struct"),
            k("id3", 6543, "this text also belongs to K struct"),
        ])
    );
    assert_eq!(field(item(field(inner, 3), 0), 1), &Value::Number(9278345));
    assert_eq!(field(item(field(inner, 3), 1), 1), &Value::Number(6543));
    assert_eq!(
        field(item(field(inner, 3), 1), 2),
        &text("this text also belongs to K struct")
    );
}
