use raxb::container::{BuiltInType, EleType};
use raxb::de::XmlDeserializeError;
use raxb::descriptor::{
    Bindings, ContainerDescriptor, FieldDescriptor, ValueKind, VariantDescriptor,
};
use raxb::event::{ResolvedNamespace, XmlEvent, XmlTag};
use raxb::ser::XmlSerializeError;
use raxb::ty::S;
use raxb::value::Value;

const NS1: &[u8] = b"urn:one";

fn text(s: &str) -> Value {
    Value::Text(s.as_bytes().to_vec())
}

fn variant(index: usize, payload: Value) -> Value {
    Value::Variant(index, Box::new(payload))
}

/// D { name @attr, e: Vec<i32> @child, f: Vec<F> @child }, F { h: Option, j }
fn scenario() -> Bindings {
    let d = ContainerDescriptor::of_fields(vec![
        FieldDescriptor::attr(b"name", ValueKind::String),
        FieldDescriptor::child(b"e", ValueKind::Number(BuiltInType::i32)).repeated(),
        FieldDescriptor::child(b"f", ValueKind::NestedBindable(1)).repeated(),
    ])
    .with_root(b"d");
    let f = ContainerDescriptor::of_fields(vec![
        FieldDescriptor::child(b"h", ValueKind::String).optional(),
        FieldDescriptor::child(b"j", ValueKind::String),
    ]);
    Bindings::new(vec![d, f])
}

#[test]
fn concrete_scenario() {
    let d = raxb::de::from_str(
        &scenario(),
        0,
        r#"<d name="x"><e>1</e><e>2</e><f><j>z</j></f></d>"#,
    )
    .unwrap();
    assert_eq!(
        d,
        Value::Struct(vec![
            text("x"),
            Value::List(vec![Value::Number(1), Value::Number(2)]),
            Value::List(vec![Value::Struct(vec![Value::Absent, text("z")])]),
        ])
    );
}

/// Every shape at once: attributes, repeated children, nested containers,
/// self-closed booleans, a union with and without payload.
fn all_shapes() -> Bindings {
    let root = ContainerDescriptor::of_fields(vec![
        FieldDescriptor::attr(b"id", ValueKind::String),
        FieldDescriptor::attr(b"n", ValueKind::Number(BuiltInType::i64)).optional(),
        FieldDescriptor::attr(b"on", ValueKind::Bool),
        FieldDescriptor::sfc(b"flag", ValueKind::Bool),
        FieldDescriptor::sfc(b"maybe", ValueKind::Bool).optional(),
        FieldDescriptor::child(b"num", ValueKind::Number(BuiltInType::u8)).repeated(),
        FieldDescriptor::child(b"word", ValueKind::String),
        FieldDescriptor::child(b"inner", ValueKind::NestedBindable(1)).repeated(),
        FieldDescriptor::child(b"choice", ValueKind::NestedBindable(2)),
        FieldDescriptor::child(b"other", ValueKind::NestedBindable(2)).optional(),
    ])
    .with_root(b"root");
    let inner = ContainerDescriptor::of_fields(vec![
        FieldDescriptor::attr(b"k", ValueKind::String).optional(),
        FieldDescriptor::text(ValueKind::Number(BuiltInType::i16)),
    ]);
    let choice = ContainerDescriptor::of_variants(vec![
        VariantDescriptor::new(b"text", Some(ValueKind::String)),
        VariantDescriptor::new(b"count", Some(ValueKind::Number(BuiltInType::u32))),
        VariantDescriptor::new(b"nothing", None),
        VariantDescriptor::new(b"nested", Some(ValueKind::NestedBindable(1))),
    ]);
    Bindings::new(vec![root, inner, choice])
}

fn populated(flag: bool, maybe: Value, choice: Value, other: Value) -> Value {
    Value::Struct(vec![
        text("a<b>&\"c'"),
        Value::Number(-9_000_000_000),
        Value::Bool(false),
        Value::Bool(flag),
        maybe,
        Value::List(vec![Value::Number(0), Value::Number(255)]),
        text("x & y"),
        Value::List(vec![
            Value::Struct(vec![text("one"), Value::Number(-32768)]),
            Value::Struct(vec![Value::Absent, Value::Number(32767)]),
        ]),
        choice,
        other,
    ])
}

#[test]
fn round_trip_of_every_shape() {
    let table = all_shapes();
    let values = vec![
        populated(true, Value::Bool(true), variant(0, text("t")), variant(2, Value::Absent)),
        populated(false, Value::Absent, variant(1, Value::Number(7)), Value::Absent),
        populated(
            true,
            Value::Absent,
            variant(3, Value::Struct(vec![text("k"), Value::Number(5)])),
            variant(0, text("<>")),
        ),
    ];
    for v in values {
        let xml = raxb::ser::to_string(&table, 0, &v).unwrap();
        let back = raxb::de::from_str(&table, 0, &xml).unwrap();
        assert_eq!(back, v, "{xml}");
        let pretty = raxb::ser::to_string_pretty_with_decl(&table, 0, &v).unwrap();
        let back = raxb::de::from_str(&table, 0, &pretty).unwrap();
        assert_eq!(back, v, "{pretty}");
    }
}

#[test]
fn round_trip_of_a_union_as_root() {
    let table = all_shapes();
    for v in [
        variant(0, text("hello")),
        variant(1, Value::Number(4_294_967_295)),
        variant(2, Value::Absent),
        variant(3, Value::Struct(vec![Value::Absent, Value::Number(1)])),
    ] {
        let xml = raxb::ser::to_string(&table, 2, &v).unwrap();
        assert_eq!(raxb::de::from_str(&table, 2, &xml).unwrap(), v, "{xml}");
    }
}

fn partitioned() -> Bindings {
    let c = ContainerDescriptor::of_fields(vec![
        FieldDescriptor::child(b"v", ValueKind::String).optional().with_ns(b"p", NS1),
        FieldDescriptor::child(b"v", ValueKind::String).optional(),
    ])
    .with_root(b"c");
    Bindings::new(vec![c])
}

#[test]
fn namespace_partitioning() {
    let table = partitioned();
    let qualified =
        raxb::de::from_str(&table, 0, r#"<c><q:v xmlns:q="urn:one">bound</q:v></c>"#).unwrap();
    assert_eq!(qualified, Value::Struct(vec![text("bound"), Value::Absent]));
    let unqualified = raxb::de::from_str(&table, 0, r#"<c><v>free</v></c>"#).unwrap();
    assert_eq!(unqualified, Value::Struct(vec![Value::Absent, text("free")]));
    let both = raxb::de::from_str(
        &table,
        0,
        r#"<c><v>free</v><v xmlns="urn:one">bound</v></c>"#,
    )
    .unwrap();
    assert_eq!(both, Value::Struct(vec![text("bound"), text("free")]));
    let elsewhere =
        raxb::de::from_str(&table, 0, r#"<c><q:v xmlns:q="urn:two">x</q:v></c>"#).unwrap();
    assert_eq!(elsewhere, Value::Struct(vec![Value::Absent, Value::Absent]));
    let unknown = raxb::de::from_str(&table, 0, r#"<c><q:v>x</q:v></c>"#).unwrap();
    assert_eq!(unknown, Value::Struct(vec![Value::Absent, Value::Absent]));
}

#[test]
fn namespace_partitioning_of_the_root() {
    let bound = Bindings::new(vec![ContainerDescriptor::of_fields(vec![])
        .with_root(b"c")
        .with_tns(b"p", NS1)]);
    let free = Bindings::new(vec![ContainerDescriptor::of_fields(vec![]).with_root(b"c")]);
    let missing = Err(XmlDeserializeError::MissingElement(S(b"c".to_vec())));
    assert_eq!(raxb::de::from_str(&bound, 0, "<c/>"), missing);
    assert_eq!(raxb::de::from_str(&free, 0, r#"<c xmlns="urn:one"/>"#), missing);
    assert_eq!(
        raxb::de::from_str(&bound, 0, r#"<c xmlns="urn:one"/>"#),
        Ok(Value::Struct(vec![]))
    );
    assert_eq!(raxb::de::from_str(&free, 0, "<c/>"), Ok(Value::Struct(vec![])));
}

#[test]
fn unknown_content_tolerance() {
    let plain = raxb::de::from_str(
        &scenario(),
        0,
        r#"<d name="x"><e>1</e><e>2</e><f><j>z</j></f></d>"#,
    )
    .unwrap();
    let noisy = raxb::de::from_str(
        &scenario(),
        0,
        r#"<?xml version="1.0"?><!-- c --><d extra="1" name="x" more="2"><u/><e>1</e><u><e>9</e><f/></u><e>2</e><!-- c --><f a="b"><u><j>no</j></u><j>z</j><u/></f><q:e xmlns:q="urn:q">3</q:e></d>"#,
    )
    .unwrap();
    assert_eq!(plain, noisy);
}

fn numeric(default: bool) -> Bindings {
    let n = FieldDescriptor::child(b"n", ValueKind::Number(BuiltInType::i32));
    let n = if default { n.with_default() } else { n };
    Bindings::new(vec![ContainerDescriptor::of_fields(vec![n]).with_root(b"c")])
}

#[test]
fn default_fallback() {
    let xml = "<c><n>many</n></c>";
    assert_eq!(
        raxb::de::from_str(&numeric(true), 0, xml),
        Ok(Value::Struct(vec![Value::Number(0)]))
    );
    assert_eq!(
        raxb::de::from_str(&numeric(false), 0, xml),
        Err(XmlDeserializeError::ValueParseError)
    );
}

#[test]
fn default_fallback_of_what_is_missing() {
    assert_eq!(
        raxb::de::from_str(&numeric(true), 0, "<c/>"),
        Ok(Value::Struct(vec![Value::Number(0)]))
    );
    assert_eq!(
        raxb::de::from_str(&numeric(false), 0, "<c></c>"),
        Err(XmlDeserializeError::MissingElement(S(b"n".to_vec())))
    );
    let attr = Bindings::new(vec![ContainerDescriptor::of_fields(vec![
        FieldDescriptor::attr(b"a", ValueKind::Number(BuiltInType::u8)),
        FieldDescriptor::attr(b"b", ValueKind::Bool).with_default(),
    ])
    .with_root(b"c")]);
    assert_eq!(
        raxb::de::from_str(&attr, 0, "<c/>"),
        Err(XmlDeserializeError::MissingAttribute(S(b"a".to_vec())))
    );
    assert_eq!(
        raxb::de::from_str(&attr, 0, r#"<c a=" 7 " b="yes"/>"#),
        Ok(Value::Struct(vec![Value::Number(7), Value::Bool(false)]))
    );
    assert_eq!(
        raxb::de::from_str(&attr, 0, r#"<c a="256"/>"#),
        Err(XmlDeserializeError::ValueParseError)
    );
}

fn flags() -> Bindings {
    Bindings::new(vec![ContainerDescriptor::of_fields(vec![
        FieldDescriptor::sfc(b"b", ValueKind::Bool),
        FieldDescriptor::sfc(b"o", ValueKind::Bool).optional(),
    ])
    .with_root(b"c")])
}

#[test]
fn self_closing_boolean_semantics() {
    let table = flags();
    assert_eq!(
        raxb::de::from_str(&table, 0, "<c><b/><o/></c>"),
        Ok(Value::Struct(vec![Value::Bool(true), Value::Bool(true)]))
    );
    assert_eq!(
        raxb::de::from_str(&table, 0, "<c></c>"),
        Ok(Value::Struct(vec![Value::Bool(false), Value::Absent]))
    );
    let on = Value::Struct(vec![Value::Bool(true), Value::Bool(true)]);
    assert_eq!(raxb::ser::to_string(&table, 0, &on).unwrap(), "<c><b/><o/></c>");
    let off = Value::Struct(vec![Value::Bool(false), Value::Bool(false)]);
    assert_eq!(raxb::ser::to_string(&table, 0, &off).unwrap(), "<c></c>");
    let absent = Value::Struct(vec![Value::Bool(false), Value::Absent]);
    assert_eq!(raxb::ser::to_string(&table, 0, &absent).unwrap(), "<c></c>");
}

fn union_in_namespace() -> Bindings {
    Bindings::new(vec![ContainerDescriptor::of_variants(vec![
        VariantDescriptor::new(b"a", Some(ValueKind::String)).with_ns(b"ns1", NS1),
        VariantDescriptor::new(b"b", Some(ValueKind::String)).with_ns(b"ns1", NS1),
    ])
    .with_tns(b"ns1", NS1)])
}

#[test]
fn enum_dispatch() {
    let table = union_in_namespace();
    assert_eq!(
        raxb::de::from_str(&table, 0, r#"<ns1:b xmlns:ns1="urn:one">x</ns1:b>"#),
        Ok(variant(1, text("x")))
    );
    assert_eq!(
        raxb::de::from_str(&table, 0, r#"<ns1:c xmlns:ns1="urn:one">x</ns1:c>"#),
        Err(XmlDeserializeError::MissingVariant(S(b"'a'|'b'".to_vec())))
    );
    assert_eq!(
        raxb::de::from_str(&table, 0, r#"<b>x</b>"#),
        Err(XmlDeserializeError::MissingVariant(S(b"'a'|'b'".to_vec())))
    );
}

#[test]
fn first_variant_in_table_order_wins() {
    let table = Bindings::new(vec![ContainerDescriptor::of_variants(vec![
        VariantDescriptor::new(b"a", Some(ValueKind::Number(BuiltInType::u8))),
        VariantDescriptor::new(b"a", Some(ValueKind::String)),
    ])]);
    assert_eq!(raxb::de::from_str(&table, 0, "<x/><a>1</a><a>2</a>"), Ok(variant(0, Value::Number(1))));
    assert_eq!(
        raxb::de::from_str(&table, 0, "<a>one</a>"),
        Err(XmlDeserializeError::ValueParseError)
    );
}

#[test]
fn every_decode_error_has_an_input() {
    let table = scenario();
    assert_eq!(raxb::de::from_str(&table, 1, "<f/>"), Err(XmlDeserializeError::MissingRoot));
    assert_eq!(raxb::de::from_str(&table, 7, "<f/>"), Err(XmlDeserializeError::MissingRoot));
    assert_eq!(
        raxb::de::from_str(&table, 0, "<x/>"),
        Err(XmlDeserializeError::MissingElement(S(b"d".to_vec())))
    );
    assert_eq!(
        raxb::de::from_str(&table, 0, "<d/>"),
        Err(XmlDeserializeError::MissingAttribute(S(b"name".to_vec())))
    );
    assert_eq!(
        raxb::de::from_str(&table, 0, r#"<d name="x"><f/></d>"#),
        Ok(Value::Struct(vec![text("x"), Value::List(vec![]), Value::List(vec![])]))
    );
    assert_eq!(
        raxb::de::from_str(&table, 0, r#"<d name="x"><f></f></d>"#),
        Err(XmlDeserializeError::MissingElement(S(b"j".to_vec())))
    );
    assert_eq!(
        raxb::de::from_str(&table, 0, r#"<d name="x"><e>1e3</e></d>"#),
        Err(XmlDeserializeError::ValueParseError)
    );
    assert_eq!(
        raxb::de::from_str(&table, 0, r#"<d name="x"><e>1</f></d>"#),
        Err(XmlDeserializeError::MalformedInput)
    );
    assert_eq!(
        raxb::de::from_str(&table, 0, r#"<d name="x"><u><e>1</e>"#),
        Err(XmlDeserializeError::MalformedInput)
    );
    assert_eq!(
        raxb::de::from_str(&table, 0, r#"<d name="&nope;"/>"#),
        Err(XmlDeserializeError::MalformedInput)
    );
    assert_eq!(
        raxb::de::from_reader(&table, 0, b"<d name=\"x\"><f><j>\xff</j></f></d>"),
        Err(XmlDeserializeError::EncodingError)
    );
    assert_eq!(
        raxb::de::from_reader(&table, 0, b"<d name=\"x\"><f><j>z</j></x\xff></d>"),
        Err(XmlDeserializeError::MalformedInput)
    );
}

#[test]
fn names_are_read_as_bytes() {
    let table = scenario();
    assert_eq!(
        raxb::de::from_reader(&table, 0, b"<d name=\"x\" n\xff=\"1\"><\xfe>1</\xfe></d>"),
        Ok(Value::Struct(vec![text("x"), Value::List(vec![]), Value::List(vec![])]))
    );
}

#[test]
fn text_is_unescaped_on_reading_and_escaped_on_writing() {
    let table = scenario();
    let d = raxb::de::from_str(
        &table,
        0,
        r#"<d name="&lt;&#65;&amp;&quot;"><f><j>a &gt; b &apos;c&apos; &#x42;</j></f></d>"#,
    )
    .unwrap();
    let expected = Value::Struct(vec![
        text("<A&\""),
        Value::List(vec![]),
        Value::List(vec![Value::Struct(vec![Value::Absent, text("a > b 'c' B")])]),
    ]);
    assert_eq!(d, expected);
    assert_eq!(
        raxb::ser::to_string(&table, 0, &expected).unwrap(),
        r#"<d name="&lt;A&amp;&quot;"><f><j>a &gt; b &apos;c&apos; B</j></f></d>"#
    );
}

#[test]
fn every_encode_error_has_an_input() {
    let table = scenario();
    let f = Value::Struct(vec![Value::Absent, text("z")]);
    assert_eq!(raxb::ser::to_string(&table, 1, &f), Err(XmlSerializeError::MissingRoot));
    assert_eq!(raxb::ser::to_string(&table, 9, &f), Err(XmlSerializeError::MissingRoot));
    assert_eq!(raxb::ser::to_string(&table, 0, &f), Err(XmlSerializeError::UnexpectedValue));
    assert_eq!(raxb::ser::to_string(&table, 0, &text("d")), Err(XmlSerializeError::UnexpectedValue));
    let wrong_kind = Value::Struct(vec![Value::Number(1), Value::List(vec![]), Value::List(vec![])]);
    assert_eq!(raxb::ser::to_string(&table, 0, &wrong_kind), Err(XmlSerializeError::UnexpectedValue));
    let not_utf8 = Value::Struct(vec![
        Value::Text(vec![0xff]),
        Value::List(vec![]),
        Value::List(vec![]),
    ]);
    assert_eq!(raxb::ser::to_string(&table, 0, &not_utf8), Err(XmlSerializeError::EncodingError));
    let bad_tag = Bindings::new(vec![ContainerDescriptor::of_fields(vec![]).with_root(&[0xff])]);
    assert_eq!(
        raxb::ser::to_string(&bad_tag, 0, &Value::Struct(vec![])),
        Err(XmlSerializeError::EncodingError)
    );
}

#[test]
fn layouts() {
    let table = scenario();
    let d = Value::Struct(vec![
        text("x"),
        Value::List(vec![Value::Number(1)]),
        Value::List(vec![Value::Struct(vec![Value::Absent, text("z")])]),
    ]);
    assert_eq!(
        raxb::ser::to_string_with_decl(&table, 0, &d).unwrap(),
        r#"<?xml version="1.0" encoding="UTF-8" standalone="yes"?><d name="x"><e>1</e><f><j>z</j></f></d>"#
    );
    assert_eq!(
        raxb::ser::to_string_pretty(&table, 0, &d).unwrap(),
        "<d name=\"x\">\n  <e>1</e>\n  <f>\n    <j>z</j>\n  </f>\n</d>"
    );
    assert_eq!(
        raxb::ser::to_string_pretty_with_decl(&table, 0, &d).unwrap(),
        "<?xml version=\"1.0\" encoding=\"UTF-8\" standalone=\"yes\"?>\n<d name=\"x\">\n  <e>1</e>\n  <f>\n    <j>z</j>\n  </f>\n</d>"
    );
}

#[test]
fn optional_keeps_the_last_and_repeated_keeps_the_order() {
    let table = Bindings::new(vec![ContainerDescriptor::of_fields(vec![
        FieldDescriptor::child(b"o", ValueKind::String).optional(),
        FieldDescriptor::child(b"r", ValueKind::String).repeated(),
        FieldDescriptor::child(b"q", ValueKind::String),
    ])
    .with_root(b"c")]);
    assert_eq!(
        raxb::de::from_str(&table, 0, "<c><r>1</r><o>a</o><q>x</q><r>2</r><o>b</o><q>y</q><r>3</r></c>"),
        Ok(Value::Struct(vec![
            text("b"),
            Value::List(vec![text("1"), text("2"), text("3")]),
            text("y"),
        ]))
    );
}

#[test]
fn text_container_skips_elements_and_reads_the_text_around_them() {
    let table = Bindings::new(vec![ContainerDescriptor::of_fields(vec![
        FieldDescriptor::attr(b"k", ValueKind::String).optional(),
        FieldDescriptor::text(ValueKind::String).repeated(),
    ])
    .with_root(b"t")]);
    assert_eq!(
        raxb::de::from_str(&table, 0, r#"<t k="v">one<b>bold<i>x</i></b>two<br/>three</t>"#),
        Ok(Value::Struct(vec![
            text("v"),
            Value::List(vec![text("one"), text("two"), text("three")]),
        ]))
    );
    let written = Value::Struct(vec![
        Value::Absent,
        Value::List(vec![text("a"), text("b"), text("c")]),
    ]);
    assert_eq!(raxb::ser::to_string(&table, 0, &written).unwrap(), "<t>a,b,c</t>");
}

#[test]
fn decoding_events_needs_no_document() {
    let tag = |name: &str| XmlTag {
        namespace: ResolvedNamespace::Unbound,
        name: name.as_bytes().to_vec(),
        attributes: vec![],
    };
    let events = vec![
        XmlEvent::Start(tag("c")),
        XmlEvent::Start(tag("n")),
        XmlEvent::Text(Ok(b" 12 ".to_vec())),
        XmlEvent::End(tag("n")),
        XmlEvent::End(tag("c")),
        XmlEvent::Eof,
    ];
    assert_eq!(
        raxb::decode::decode_events(&numeric(false), 0, &events),
        Ok(Value::Struct(vec![Value::Number(12)]))
    );
    assert_eq!(raxb::event::tokenize(b"<c><n> 12 </n></c>"), {
        let mut trimmed = events;
        trimmed[2] = XmlEvent::Text(Ok(b"12".to_vec()));
        trimmed
    });
}

#[test]
fn a_reader_is_set_to_trim_before_it_is_decoded() {
    let doc = "<d name=\"x\">\n  <e> 1 </e>\n  <f><j> z </j></f>\n</d>";
    let reader = quick_xml::NsReader::from_reader(doc.as_bytes());
    let d = raxb::de::deserialize_with_reader(&scenario(), 0, reader).unwrap();
    assert_eq!(
        d,
        Value::Struct(vec![
            text("x"),
            Value::List(vec![Value::Number(1)]),
            Value::List(vec![Value::Struct(vec![Value::Absent, text("z")])]),
        ])
    );
    assert_eq!(d, raxb::de::from_str(&scenario(), 0, doc).unwrap());
}

#[test]
fn a_root_is_found_inside_an_element_of_the_other_kind() {
    let table = Bindings::new(vec![ContainerDescriptor::of_fields(vec![
        FieldDescriptor::attr(b"x", ValueKind::String),
    ])
    .with_root(b"a")]);
    let inside_bound = r#"<p:w xmlns:p="urn:one"><a x="1"/></p:w>"#;
    assert_eq!(
        raxb::de::from_str(&table, 0, inside_bound),
        Ok(Value::Struct(vec![text("1")]))
    );
    let inside_unbound = r#"<w><a x="1"/></w>"#;
    assert_eq!(
        raxb::de::from_str(&table, 0, inside_unbound),
        Err(XmlDeserializeError::MissingElement(S(b"a".to_vec())))
    );
}

#[test]
fn a_variant_is_found_inside_an_element_of_another_namespace() {
    let table = Bindings::new(vec![ContainerDescriptor::of_variants(vec![
        VariantDescriptor::new(b"a", None),
        VariantDescriptor::new(b"b", Some(ValueKind::String)),
    ])]);
    assert_eq!(
        raxb::de::from_str(&table, 0, r#"<p:w xmlns:p="urn:one"><b>x</b></p:w>"#),
        Ok(variant(1, text("x")))
    );
    assert_eq!(
        raxb::de::from_str(&table, 0, r#"<w><b>x</b></w><a/>"#),
        Ok(variant(0, Value::Absent))
    );
}

#[test]
fn a_value_hands_out_what_it_holds() {
    assert_eq!(text("x").as_text(), Some(&b"x".to_vec()));
    assert_eq!(Value::Bool(true).as_text(), None);
    assert_eq!(Value::Bool(true).as_bool(), Some(true));
    assert_eq!(Value::Number(1).as_bool(), None);
    assert_eq!(Value::Number(-7).as_number(), Some(-7));
    assert_eq!(Value::Absent.as_number(), None);
    assert!(Value::Absent.is_absent());
    assert!(!text("").is_absent());
    assert_eq!(Value::List(vec![Value::Absent]).items(), Some(&vec![Value::Absent]));
    assert_eq!(Value::Struct(vec![]).items(), Some(&vec![]));
    assert_eq!(text("x").items(), None);
}

#[test]
fn indentation_breaks_lines_before_tags_and_not_behind_text() {
    let table = Bindings::new(vec![
        ContainerDescriptor::of_fields(vec![
            FieldDescriptor::sfc(b"on", ValueKind::Bool),
            FieldDescriptor::child(b"t", ValueKind::String),
            FieldDescriptor::child(b"in", ValueKind::NestedBindable(1)),
        ])
        .with_root(b"r"),
        ContainerDescriptor::of_fields(vec![FieldDescriptor::attr(b"a", ValueKind::String)]),
    ]);
    let v = Value::Struct(vec![
        Value::Bool(true),
        text(""),
        Value::Struct(vec![text("1")]),
    ]);
    assert_eq!(
        raxb::ser::to_string_pretty(&table, 0, &v).unwrap(),
        "<r>\n  <on/>\n  <t></t>\n  <in a=\"1\"/>\n</r>"
    );
    assert_eq!(
        raxb::ser::to_string(&table, 0, &v).unwrap(),
        "<r><on/><t></t><in a=\"1\"/></r>"
    );
}

#[test]
fn round_trip_of_qualified_names_constants_and_optional_flags() {
    let table = Bindings::new(vec![
        ContainerDescriptor::of_fields(vec![
            FieldDescriptor::new(EleType::XmlNs, Some(b"p".to_vec()), ValueKind::String)
                .with_value(NS1),
            FieldDescriptor::attr(b"fixed", ValueKind::String).with_value(b"1.0"),
            FieldDescriptor::attr(b"id", ValueKind::Number(BuiltInType::u8)),
            FieldDescriptor::sfc(b"on", ValueKind::Bool).optional().with_ns(b"p", NS1),
            FieldDescriptor::child(b"c", ValueKind::String).repeated().with_ns(b"p", NS1),
            FieldDescriptor::child(b"in", ValueKind::NestedBindable(1)).with_ns(b"p", NS1),
            FieldDescriptor::child(b"u", ValueKind::NestedBindable(2)).with_ns(b"p", NS1),
        ])
        .with_root(b"a")
        .with_tns(b"p", NS1),
        ContainerDescriptor::of_fields(vec![FieldDescriptor::child(b"j", ValueKind::String)])
            .with_tns(b"p", NS1),
        ContainerDescriptor::of_variants(vec![
            VariantDescriptor::new(b"x", None).with_ns(b"p", NS1),
            VariantDescriptor::new(b"y", Some(ValueKind::Number(BuiltInType::i16)))
                .with_ns(b"p", NS1),
        ])
        .with_tns(b"p", NS1),
    ]);
    for on in [false, true] {
        for which in [0usize, 1] {
            let v = Value::Struct(vec![
                Value::Text(NS1.to_vec()),
                text("1.0"),
                Value::Number(7),
                if on { Value::Bool(true) } else { Value::Absent },
                Value::List(vec![text("a<b"), text("")]),
                Value::Struct(vec![text("z")]),
                if which == 0 { variant(0, Value::Absent) } else { variant(1, Value::Number(-3)) },
            ]);
            let written = raxb::ser::to_string(&table, 0, &v).unwrap();
            assert_eq!(raxb::de::from_str(&table, 0, &written), Ok(v), "{written}");
        }
    }
}

#[test]
fn an_empty_tag_that_names_a_variant_ends_the_search() {
    let table = Bindings::new(vec![ContainerDescriptor::of_variants(vec![
        VariantDescriptor::new(b"a", Some(ValueKind::String)),
        VariantDescriptor::new(b"b", None),
    ])]);
    let missing = Err(XmlDeserializeError::MissingVariant(S(b"'a'|'b'".to_vec())));
    assert_eq!(raxb::de::from_str(&table, 0, "<a/><b/>"), missing);
    assert_eq!(raxb::de::from_str(&table, 0, "<b/><a/>"), Ok(variant(0 + 1, Value::Absent)));
    let nested = Bindings::new(vec![
        ContainerDescriptor::of_fields(vec![
            FieldDescriptor::child(b"h", ValueKind::NestedBindable(1)),
        ])
        .with_root(b"j"),
        ContainerDescriptor::of_variants(vec![
            VariantDescriptor::new(b"f", Some(ValueKind::String)),
            VariantDescriptor::new(b"none", None),
        ]),
    ]);
    assert_eq!(
        raxb::de::from_str(&nested, 0, "<j><h><f/><none/></h></j>"),
        Err(XmlDeserializeError::MissingVariant(S(b"'f'|'none'".to_vec())))
    );
}
