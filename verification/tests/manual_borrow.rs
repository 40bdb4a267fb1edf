use raxb::container::{BuiltInType, EleType};
use raxb::de::XmlDeserializeError;
use raxb::descriptor::ValueKind;
use raxb::ty::S;
use raxb::value::Value;
use raxb::zde::{BorrowBindings, BorrowContainer, BorrowField, Pointer};

const A: usize = 0;
const D: usize = 1;
const F: usize = 2;

fn bindings() -> BorrowBindings {
    let a = BorrowContainer {
        fields: vec![
            BorrowField::new(EleType::Attr, b"id", ValueKind::String),
            BorrowField::new(EleType::SelfClosedChild, b"b", ValueKind::Bool).with_default(),
            BorrowField::new(EleType::Text, b"b2", ValueKind::Bool).with_default(),
            BorrowField::new(EleType::Text, b"c", ValueKind::String),
            BorrowField::new(EleType::Child, b"d", ValueKind::NestedBindable(D)).optional(),
        ],
        root: None,
    };
    let d = BorrowContainer {
        fields: vec![
            BorrowField::new(EleType::Attr, b"name", ValueKind::String),
            BorrowField::new(EleType::Text, b"e", ValueKind::Number(BuiltInType::i32)).repeated(),
            BorrowField::new(EleType::Child, b"f", ValueKind::NestedBindable(F)).repeated(),
        ],
        root: None,
    };
    let f = BorrowContainer {
        fields: vec![
            BorrowField::new(EleType::Text, b"h", ValueKind::String).optional(),
            BorrowField::new(EleType::Text, b"j", ValueKind::String).optional(),
        ],
        root: None,
    };
    BorrowBindings { containers: vec![a, d, f] }
}

fn text(s: &str) -> Value {
    Value::Text(s.as_bytes().to_vec())
}

fn field(v: &Value, i: usize) -> &Value {
    match v {
        Value::Struct(fields) => &fields[i],
        other => panic!("not a struct: {:?}", other),
    }
}

fn item(v: &Value, i: usize) -> &Value {
    match v {
        Value::List(items) => &items[i],
        other => panic!("not a list: {:?}", other),
    }
}

#[test]
fn manual_borrow_test_borrow_manual() {
    let xml = r#"<a id="root">
        <b/>
        <b2>true</b2>
        <c>foo</c>
        <d name="foobar">
            <e>1</e>
            <e>2</e>
            <e>3</e>
            <f>
                <h>bar1</h>
                <j>baz2</j>
            </f>
            <f>
                <j>baz</j>
            </f>
        </d>
    </a>"#;
    let a = raxb::zde::from_str(&bindings(), A, xml).unwrap();
    assert_eq!(field(&a, 0), &text("root"));
    assert_eq!(field(&a, 1), &Value::Bool(true));
    assert_eq!(field(&a, 2), &Value::Bool(true));
    assert_eq!(field(&a, 3), &text("foo"));
    let d = field(&a, 4);
    assert!(!d.is_absent());
    assert_eq!(field(d, 0), &text("foobar"));
    assert_eq!(
        field(d, 1),
        &Value::List(vec![Value::Number(1), Value::Number(2), Value::Number(3)])
    );
    let f = field(d, 2);
    assert_eq!(field(item(f, 0), 0), &text("bar1"));
    assert_eq!(field(item(f, 0), 1), &text("baz2"));
    assert!(field(item(f, 1), 0).is_absent());
    assert_eq!(field(item(f, 1), 1), &text("baz"));
}

#[test]
fn borrow_reports_what_is_missing() {
    let no_id = raxb::zde::from_str(&bindings(), A, "<a><c>foo</c></a>");
    assert_eq!(no_id, Err(XmlDeserializeError::MissingAttribute(S(b"id".to_vec()))));
    let no_c = raxb::zde::from_str(&bindings(), A, r#"<a id="1"><b2>false</b2></a>"#);
    assert_eq!(no_c, Err(XmlDeserializeError::MissingElement(S(b"c".to_vec()))));
    let nothing = raxb::zde::from_str(&bindings(), A, "");
    assert_eq!(nothing, Err(XmlDeserializeError::MissingRoot));
    let defaults = raxb::zde::from_str(&bindings(), A, r#"<a id="1"><c>x</c></a>"#).unwrap();
    assert_eq!(
        defaults,
        Value::Struct(vec![
            text("1"),
            Value::Bool(false),
            Value::Bool(false),
            text("x"),
            Value::Absent,
        ])
    );
    let bad = raxb::zde::from_str(&bindings(), A, r#"<a id="1"><c>x</c><d name="n"><e>one</e></d></a>"#);
    assert_eq!(bad, Err(XmlDeserializeError::ValueParseError));
}

#[test]
fn borrow_with_a_root_wants_it_first() {
    let mut table = bindings();
    table.containers[F].root = Some(b"f".to_vec());
    let found = raxb::zde::from_str(&table, F, "<f><j>x</j></f>").unwrap();
    assert_eq!(found, Value::Struct(vec![Value::Absent, text("x")]));
    let other = raxb::zde::from_str(&table, F, "<g/><g><j>x</j></g>");
    assert_eq!(other, Err(XmlDeserializeError::MissingElement(S(b"f".to_vec()))));
}

#[test]
fn pointer_follows_the_open_elements() {
    let mut p = Pointer::new();
    assert!(p.eq(&vec![]));
    p.visit(b"c".to_vec());
    p.visit(b"x".to_vec());
    assert!(p.eq(&vec![b"c".to_vec(), b"x".to_vec()]));
    assert!(!p.eq(&vec![b"c".to_vec()]));
    assert!(!p.eq(&vec![b"c".to_vec(), b"y".to_vec()]));
    p.leave();
    assert!(p.eq(&vec![b"c".to_vec()]));
    p.visit(b"y".to_vec());
    assert!(p.eq(&vec![b"c".to_vec(), b"y".to_vec()]));
    p.leave();
    p.leave();
    p.leave();
    assert!(p.eq(&vec![]));
    assert_eq!(p.depth(), 0);
}

#[test]
fn a_new_pointer_is_at_the_top_and_keeps_nothing() {
    let p = Pointer::new();
    assert_eq!(p.depth(), 0);
    assert!(p.eq(&vec![]));
    assert!(!p.eq(&vec![b"a".to_vec()]));
}

#[test]
fn pointer_compares_local_names() {
    let mut p = Pointer::new();
    p.visit(b"c".to_vec());
    p.visit(b"ns:x".to_vec());
    assert!(p.eq(&vec![b"c".to_vec(), b"x".to_vec()]));
    assert!(!p.eq(&vec![b"c".to_vec()]));
    assert!(!p.eq(&vec![b"c".to_vec(), b"ns:x".to_vec()]));
    p.leave();
    assert!(p.eq(&vec![b"c".to_vec()]));
}

#[test]
fn borrowing_reads_through_a_plain_reader() {
    let xml = r#"<f><j> x </j></g>"#;
    let mut table = bindings();
    table.containers[F].root = Some(b"f".to_vec());
    let by_reader =
        raxb::zde::borrow_with_reader(&table, F, quick_xml::Reader::from_reader(xml.as_bytes()));
    assert_eq!(by_reader, raxb::zde::from_str(&table, F, xml));
    assert_eq!(by_reader, Ok(Value::Struct(vec![Value::Absent, text(" x ")])));
}
