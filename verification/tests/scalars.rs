use raxb::container::{BuiltInConstType, BuiltInType, Derive, EleType};
use raxb::descriptor::{
    Bindings, Cardinality, ContainerDescriptor, FieldDescriptor, ValueKind, VariantDescriptor,
};
use raxb::rules::FieldsSummary;
use raxb::scalar::{format_bool, format_number, parse_bool, parse_number};
use raxb::symbol::{Symbol, DEFAULT, NAME, NS, PATH, RAXB, ROOT, TNS, TYPE, VALUE, XML};
use raxb::text::{bytes_eq, local_name, tag_name_len, trim};

#[test]
fn numbers_are_read_as_they_are_written() {
    for (ty, values) in [
        (BuiltInType::u8, vec![0, 1, 9, 10, 255]),
        (BuiltInType::i8, vec![-128, -1, 0, 127]),
        (BuiltInType::u16, vec![0, 65535]),
        (BuiltInType::i16, vec![-32768, 32767]),
        (BuiltInType::u32, vec![0, 4_294_967_295]),
        (BuiltInType::i32, vec![-2_147_483_648, 2_147_483_647]),
        (BuiltInType::u64, vec![0, 18_446_744_073_709_551_615]),
        (BuiltInType::i64, vec![-9_223_372_036_854_775_808, 9_223_372_036_854_775_807]),
    ] {
        for v in values {
            let text = format_number(v);
            assert_eq!(text, v.to_string().into_bytes());
            assert_eq!(parse_number(&text, ty), Some(v));
        }
        assert_eq!(parse_number(&format_number(ty.max() + 1), ty), None);
        assert_eq!(parse_number(&format_number(ty.min() - 1), ty), None);
    }
    assert_eq!(format_number(i128::MIN), i128::MIN.to_string().into_bytes());
    assert_eq!(format_number(i128::MAX), i128::MAX.to_string().into_bytes());
}

#[test]
fn numbers_that_are_and_are_not() {
    assert_eq!(parse_number(b"+5", BuiltInType::u8), Some(5));
    assert_eq!(parse_number(b"+5", BuiltInType::i8), Some(5));
    assert_eq!(parse_number(b"-0", BuiltInType::i8), Some(0));
    assert_eq!(parse_number(b"-0", BuiltInType::u8), None);
    assert_eq!(parse_number(b"-5", BuiltInType::u8), None);
    assert_eq!(parse_number(b"007", BuiltInType::u8), Some(7));
    assert_eq!(parse_number(b"0000000000000000000000000000000000000000255", BuiltInType::u8), Some(255));
    assert_eq!(parse_number(b"99999999999999999999999999999999999999999999", BuiltInType::u64), None);
    for bad in [&b""[..], b"+", b"-", b"+-1", b"1 ", b" 1", b"1.0", b"0x1", b"1e3", b"one", b"1_000"] {
        assert_eq!(parse_number(bad, BuiltInType::i64), None, "{:?}", bad);
    }
    for ty in [BuiltInType::Unknown, BuiltInType::String, BuiltInType::bool, BuiltInType::Float32, BuiltInType::Float64] {
        assert_eq!(parse_number(b"1", ty), None);
    }
}

#[test]
fn booleans() {
    assert_eq!(parse_bool(b"true"), Some(true));
    assert_eq!(parse_bool(b"false"), Some(false));
    for bad in [&b""[..], b"True", b"1", b"0", b"yes", b"true ", b"truee", b"fals"] {
        assert_eq!(parse_bool(bad), None);
    }
    assert_eq!(format_bool(true), b"true");
    assert_eq!(format_bool(false), b"false");
}

#[test]
fn bytes() {
    assert_eq!(trim(b" \t\r\n a b \n"), b"a b");
    assert_eq!(trim(b"   "), b"");
    assert_eq!(trim(b""), b"");
    assert_eq!(trim(b"a"), b"a");
    assert_eq!(trim(b"\x0ba\x0c"), b"\x0ba\x0c");
    assert_eq!(local_name(b"xs:schema"), b"schema");
    assert_eq!(local_name(b"schema"), b"schema");
    assert_eq!(local_name(b"a:b:c"), b"b:c");
    assert_eq!(local_name(b":a"), b"a");
    assert_eq!(local_name(b"a:"), b"");
    assert_eq!(tag_name_len(b"a id=\"1\""), 1);
    assert_eq!(tag_name_len(b"abc\n\tx='1'"), 3);
    assert_eq!(tag_name_len(b"abc"), 3);
    assert_eq!(tag_name_len(b""), 0);
    assert!(bytes_eq(b"ab", b"ab"));
    assert!(!bytes_eq(b"ab", b"ac"));
    assert!(!bytes_eq(b"ab", b"abc"));
}

#[test]
fn built_in_types() {
    assert!(BuiltInType::Unknown.is_unknown());
    assert!(!BuiltInType::String.is_unknown());
    assert!(BuiltInType::String.is_string());
    assert!(!BuiltInType::bool.is_string());
    assert!(BuiltInType::bool.is_bool());
    assert!(!BuiltInType::u8.is_bool());
    for ty in [
        BuiltInType::Float32,
        BuiltInType::Float64,
        BuiltInType::u8,
        BuiltInType::u16,
        BuiltInType::u32,
        BuiltInType::u64,
        BuiltInType::i8,
        BuiltInType::i16,
        BuiltInType::i32,
        BuiltInType::i64,
    ] {
        assert!(ty.is_number());
    }
    for ty in [BuiltInType::Unknown, BuiltInType::String, BuiltInType::bool] {
        assert!(!ty.is_number());
        assert!(!ty.is_integer());
    }
    assert!(!BuiltInType::Float32.is_integer());
    assert!(BuiltInType::i8.is_signed() && !BuiltInType::u8.is_signed());
    assert_eq!(BuiltInType::default(), BuiltInType::Unknown);
    assert_eq!(BuiltInConstType::default(), BuiltInConstType::Unknown);
    assert_ne!(Derive::Serialize, Derive::Deserialize);
}

#[test]
fn names_of_types_and_kinds() {
    assert_eq!(BuiltInType::from_name("String"), BuiltInType::String);
    assert_eq!(BuiltInType::from_name("bool"), BuiltInType::bool);
    assert_eq!(BuiltInType::from_name(&format!("f{}", 32)), BuiltInType::Float32);
    assert_eq!(BuiltInType::from_name(&format!("f{}", 64)), BuiltInType::Float64);
    assert_eq!(BuiltInType::from_name("u8"), BuiltInType::u8);
    assert_eq!(BuiltInType::from_name("u16"), BuiltInType::u16);
    assert_eq!(BuiltInType::from_name("u32"), BuiltInType::u32);
    assert_eq!(BuiltInType::from_name("u64"), BuiltInType::u64);
    assert_eq!(BuiltInType::from_name("i8"), BuiltInType::i8);
    assert_eq!(BuiltInType::from_name("i16"), BuiltInType::i16);
    assert_eq!(BuiltInType::from_name("i32"), BuiltInType::i32);
    assert_eq!(BuiltInType::from_name("i64"), BuiltInType::i64);
    assert_eq!(BuiltInType::from_name("string"), BuiltInType::Unknown);
    assert_eq!(BuiltInType::from_name("MyType"), BuiltInType::Unknown);
    assert_eq!(BuiltInConstType::from_name("ConstStr"), BuiltInConstType::ConstStr);
    assert_eq!(BuiltInConstType::from_name("String"), BuiltInConstType::Unknown);
    assert_eq!(EleType::from_name("attr"), Some(EleType::Attr));
    assert_eq!(EleType::from_name("child"), Some(EleType::Child));
    assert_eq!(EleType::from_name("text"), Some(EleType::Text));
    assert_eq!(EleType::from_name("sfc"), Some(EleType::SelfClosedChild));
    assert_eq!(EleType::from_name("untag"), Some(EleType::Untag));
    assert_eq!(EleType::from_name("any"), Some(EleType::Any));
    assert_eq!(EleType::from_name("xmlns"), Some(EleType::XmlNs));
    assert_eq!(EleType::from_name("Attr"), None);
    assert_eq!(EleType::from_variant_name("child"), Some(EleType::Child));
    assert_eq!(EleType::from_variant_name("text"), Some(EleType::Text));
    assert_eq!(EleType::from_variant_name("attr"), None);
    assert_eq!(Cardinality::from_type_name("Vec"), Cardinality::Repeated);
    assert_eq!(Cardinality::from_type_name("Option"), Cardinality::Optional);
    assert_eq!(Cardinality::from_type_name("String"), Cardinality::Required);
}

#[test]
fn symbols() {
    assert!(Symbol(ROOT).eq("root"));
    assert!(!Symbol(ROOT).eq("raxb"));
    assert!(Symbol(RAXB).eq("raxb"));
    assert_eq!(
        [XML, NAME, VALUE, DEFAULT, TYPE, TNS, NS, PATH].map(|word| Symbol(word).as_str()),
        ["xml", "name", "value", "default", "ty", "tns", "ns", "path"]
    );
}

#[test]
fn fields_are_sorted_by_kind() {
    let fields = vec![
        FieldDescriptor::attr(b"a", ValueKind::String),
        FieldDescriptor::child(b"b", ValueKind::String),
        FieldDescriptor::text(ValueKind::String),
        FieldDescriptor::sfc(b"c", ValueKind::Bool),
        FieldDescriptor::new(EleType::Untag, None, ValueKind::NestedBindable(0)),
        FieldDescriptor::new(EleType::Any, None, ValueKind::String),
        FieldDescriptor::new(EleType::XmlNs, Some(b"p".to_vec()), ValueKind::String),
        FieldDescriptor::attr(b"d", ValueKind::String),
        FieldDescriptor::child(b"e", ValueKind::String),
        FieldDescriptor::text(ValueKind::String),
    ];
    assert_eq!(
        FieldsSummary::from_fields(&fields),
        FieldsSummary {
            children: vec![1, 8],
            text: Some(9),
            attrs: vec![0, 7],
            self_closed_children: vec![3],
            untags: vec![4],
            any: Some(5),
            xmlns: Some(6),
        }
    );
    assert!(fields[0].is_required());
    assert!(!FieldDescriptor::text(ValueKind::String).optional().is_required());
}

fn one(fields: Vec<FieldDescriptor>) -> Bindings {
    Bindings::new(vec![
        ContainerDescriptor::of_fields(fields),
        ContainerDescriptor::of_variants(vec![VariantDescriptor::new(b"v", None)]),
    ])
}

#[test]
fn rules_of_the_data_model() {
    let attr = |name: &[u8]| FieldDescriptor::attr(name, ValueKind::String);
    let child = |name: &[u8]| FieldDescriptor::child(name, ValueKind::String);
    let text = || FieldDescriptor::text(ValueKind::String);
    let any = || FieldDescriptor::new(EleType::Any, None, ValueKind::String);
    assert!(one(vec![]).validate());
    assert!(one(vec![attr(b"a"), attr(b"b"), child(b"a"), child(b"a").with_ns(b"p", b"u")]).validate());
    assert!(one(vec![attr(b"a"), text()]).validate());
    assert!(one(vec![child(b"a"), any(), FieldDescriptor::new(EleType::Untag, None, ValueKind::NestedBindable(1))]).validate());
    assert!(one(vec![FieldDescriptor::new(EleType::XmlNs, Some(b"p".to_vec()), ValueKind::String).with_value(b"u")]).validate());

    assert!(!one(vec![attr(b"a"), attr(b"a")]).validate());
    assert!(!one(vec![child(b"a"), FieldDescriptor::sfc(b"a", ValueKind::Bool)]).validate());
    assert!(!one(vec![child(b"a").with_ns(b"p", b"u"), child(b"a").with_ns(b"q", b"v")]).validate());
    assert!(!one(vec![text(), child(b"a")]).validate());
    assert!(!one(vec![FieldDescriptor::sfc(b"a", ValueKind::Bool), text()]).validate());
    assert!(!one(vec![text(), text()]).validate());
    assert!(!one(vec![any(), any()]).validate());
    assert!(!one(vec![FieldDescriptor::new(EleType::Child, None, ValueKind::String)]).validate());
    assert!(!one(vec![attr(b"a").repeated()]).validate());
    assert!(!one(vec![FieldDescriptor::attr(b"a", ValueKind::NestedBindable(0))]).validate());
    assert!(!one(vec![FieldDescriptor::text(ValueKind::NestedBindable(0))]).validate());
    assert!(!one(vec![FieldDescriptor::sfc(b"a", ValueKind::String)]).validate());
    assert!(!one(vec![child(b"a"), FieldDescriptor::child(b"n", ValueKind::NestedBindable(2))]).validate());
    assert!(!one(vec![FieldDescriptor::child(b"n", ValueKind::Number(BuiltInType::Float32))]).validate());
    assert!(!one(vec![FieldDescriptor::child(b"n", ValueKind::Number(BuiltInType::String))]).validate());
    assert!(!one(vec![FieldDescriptor::new(EleType::Untag, None, ValueKind::NestedBindable(0))]).validate());
    assert!(!one(vec![FieldDescriptor::new(EleType::Untag, None, ValueKind::String)]).validate());
    assert!(!one(vec![FieldDescriptor::new(EleType::Any, None, ValueKind::Bool)]).validate());
    assert!(!one(vec![FieldDescriptor::new(EleType::XmlNs, Some(b"p".to_vec()), ValueKind::String)]).validate());
    assert!(!one(vec![child(b"a").with_value(b"c")]).validate());
    assert!(!one(vec![attr(b"a").optional().with_value(b"c")]).validate());
    assert!(!Bindings::new(vec![ContainerDescriptor::of_variants(vec![VariantDescriptor::new(
        b"v",
        Some(ValueKind::NestedBindable(1))
    )])])
    .validate());
    assert!(ContainerDescriptor::of_variants(vec![]).is_enum());
    assert!(!ContainerDescriptor::of_fields(vec![]).is_enum());
}

#[test]
fn white_space_around_numbers_is_what_unicode_calls_so() {
    assert_eq!(raxb::text::strip(" \u{85}a b\u{3000}\u{b}".as_bytes()), b"a b".to_vec());
    assert_eq!(raxb::text::strip("\u{2003}\u{a0}".as_bytes()), Vec::<u8>::new());
    assert_eq!(raxb::text::strip("\u{e9}".as_bytes()), "\u{e9}".as_bytes().to_vec());
    assert_eq!(raxb::text::strip(b"x"), b"x".to_vec());
    let table = raxb::descriptor::Bindings::new(vec![
        raxb::descriptor::ContainerDescriptor::of_fields(vec![
            raxb::descriptor::FieldDescriptor::child(
                b"n",
                raxb::descriptor::ValueKind::Number(BuiltInType::i32),
            ),
            raxb::descriptor::FieldDescriptor::attr(b"b", raxb::descriptor::ValueKind::Bool),
        ])
        .with_root(b"r"),
    ]);
    assert_eq!(
        raxb::de::from_str(&table, 0, "<r b=\"\u{2028}true\u{c}\"><n>\u{a0}-5\u{2003}</n></r>"),
        Ok(raxb::value::Value::Struct(vec![
            raxb::value::Value::Number(-5),
            raxb::value::Value::Bool(true),
        ]))
    );
}

#[test]
fn a_media_type_says_xml_by_its_parts() {
    assert!(raxb::extract::is_xml_media_type("application", "xml", None));
    assert!(raxb::extract::is_xml_media_type("application", "soap", Some("xml")));
    assert!(!raxb::extract::is_xml_media_type("application", "json", Some("zip")));
    assert!(!raxb::extract::is_xml_media_type("text", "xml", None));
}

#[test]
fn a_location_is_registered_by_namespace_and_file_name() {
    assert_eq!(
        raxb::validate::normalize_location("urn:a\u{a0} dir/sub/f.xsd".as_bytes().to_vec()),
        b"urn:a f.xsd".to_vec()
    );
    assert_eq!(raxb::validate::normalize_location(b"urn:a".to_vec()), b"urn:a".to_vec());
    assert_eq!(raxb::validate::normalize_location(b"urn:a ..".to_vec()), b"urn:a ..".to_vec());
}
