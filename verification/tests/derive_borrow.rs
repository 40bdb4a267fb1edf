use raxb::container::{BuiltInType, EleType};
use raxb::descriptor::ValueKind;
use raxb::value::Value;
use raxb::zde::{BorrowBindings, BorrowContainer, BorrowField};

const A: usize = 0;
const D: usize = 1;
const F: usize = 2;

fn bindings() -> BorrowBindings {
    let a = BorrowContainer {
        fields: vec![
            BorrowField::new(EleType::Attr, b"id", ValueKind::String),
            BorrowField::new(EleType::SelfClosedChild, b"b", ValueKind::Bool).with_default(),
            BorrowField::new(EleType::Text, b"b2", ValueKind::Bool),
            BorrowField::new(EleType::Text, b"c", ValueKind::String)
                .with_path(vec![b"c".to_vec(), b"x".to_vec(), b"y".to_vec()]),
            BorrowField::new(EleType::Child, b"d", ValueKind::NestedBindable(D)).optional(),
        ],
        root: None,
    };
    let d = BorrowContainer {
        fields: vec![
            BorrowField::new(EleType::Attr, b"name", ValueKind::String),
            BorrowField::new(EleType::Text, b"e", ValueKind::Number(BuiltInType::i32)).repeated(),
            BorrowField::new(EleType::Child, b"f", ValueKind::NestedBindable(F)).repeated(),
        ],
        root: None,
    };
    let f = BorrowContainer {
        fields: vec![
            BorrowField::new(EleType::Text, b"h", ValueKind::String).optional(),
            BorrowField::new(EleType::Text, b"j", ValueKind::String).optional(),
        ],
        root: None,
    };
    BorrowBindings { containers: vec![a, d, f] }
}

fn text(s: &str) -> Value {
    Value::Text(s.as_bytes().to_vec())
}

fn field(v: &Value, i: usize) -> &Value {
    match v {
        Value::Struct(fields) => &fields[i],
        other => panic!("not a struct: {:?}", other),
    }
}

fn item(v: &Value, i: usize) -> &Value {
    match v {
        Value::List(items) => &items[i],
        other => panic!("not a list: {:?}", other),
    }
}

#[test]
fn derive_borrow_test_borrow_manual() {
    let xml = r#"<a id="root">
        <b/>
        <b2>true</b2>
        <c><x><y>foo</y></x></c>
        <d name="foobar">
            <e>1</e>
            <e>2</e>
            <e>3</e>
            <f>
                <h>bar1</h>
                <j>baz2</j>
            </f>
            <f>
                <j>baz</j>
            </f>
        </d>
    </a>"#;
    let a = raxb::zde::from_str(&bindings(), A, xml).unwrap();
    println!("{a:#?}");
    assert_eq!(field(&a, 0), &text("root"));
    assert_eq!(field(&a, 1), &Value::Bool(true));
    assert_eq!(field(&a, 2), &Value::Bool(true));
    assert_eq!(field(&a, 3), &text("foo"));
    let d = field(&a, 4);
    assert!(!d.is_absent());
    assert_eq!(field(d, 0), &text("foobar"));
    assert_eq!(
        field(d, 1),
        &Value::List(vec![Value::Number(1), Value::Number(2), Value::Number(3)])
    );
    let f = field(d, 2);
    assert_eq!(field(item(f, 0), 0), &text("bar1"));
    assert_eq!(field(item(f, 0), 1), &text("baz2"));
    assert!(field(item(f, 1), 0).is_absent());
    assert_eq!(field(item(f, 1), 1), &text("baz"));
}
