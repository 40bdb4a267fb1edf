use raxb::de::XmlDeserializeError;
use raxb::extract::xml_content_type;
use raxb::ty::S;
use raxb::validate::{
    find_root_xsi_schema_location, schema_location_key, validation_outcome, ErrorLevel,
    InitState, ReadCtx, ValidationError, XmlValidationError, XmlValidationErrorEntry,
};
use raxb::xsd::{xsd_bindings, Xsd, XsdImportOrInclude};

#[test]
fn schema_location_of_the_root() {
    let xml = br#"<?xml version="1.0"?>
<!-- first -->
<a xmlns:xsi="http://www.w3.org/2001/XMLSchema-instance" xsi:schemaLocation="https://myexample.org/examplev100 ../schemas/example.xsd">
  <b xsi:schemaLocation="inner inner.xsd"/>
</a>"#;
    assert_eq!(
        find_root_xsi_schema_location(xml).unwrap(),
        b"https://myexample.org/examplev100 example.xsd"
    );
    assert_eq!(
        find_root_xsi_schema_location(br#"<a xsi:noNamespaceSchemaLocation="example.xsd"></a>"#)
            .unwrap(),
        b"example.xsd"
    );
    assert_eq!(
        find_root_xsi_schema_location(br#"<a schemaLocation="&amp; dir/x.xsd" noNamespaceSchemaLocation="y"></a>"#)
            .unwrap(),
        b"&amp; x.xsd"
    );
    assert_eq!(
        find_root_xsi_schema_location(b"<a schemaLocation=\"\tns\n ..\"></a>").unwrap(),
        b"\tns\n .."
    );
}

#[test]
fn schema_location_that_is_not_there() {
    for xml in [
        &b""[..],
        b"<a></a>",
        br#"<a schemaLocation="ns x.xsd"/>"#,
        br#"<a location="ns x.xsd"><b schemaLocation="ns x.xsd"></b></a>"#,
        b"<a schemaLocation=\"\xff x.xsd\"></a>",
        b"</a><b schemaLocation=\"ns x.xsd\"></b>",
    ] {
        assert!(matches!(
            find_root_xsi_schema_location(xml),
            Err(ValidationError::NoSchemaLocation)
        ));
    }
}

#[test]
fn schemas_are_registered_under_namespace_and_name() {
    assert_eq!(schema_location_key(b"urn:ns", b"main.xsd"), b"urn:ns main.xsd");
    assert_eq!(schema_location_key(b"", b""), b" ");
}

#[test]
fn return_code_of_the_validator() {
    let findings = || XmlValidationError {
        errors: vec![XmlValidationErrorEntry {
            message: "bad".to_string(),
            line: 3,
            level: ErrorLevel::from_code(2),
        }],
    };
    assert!(matches!(validation_outcome(0, findings()), Ok(())));
    assert!(matches!(validation_outcome(-1, findings()), Err(ValidationError::Internal)));
    match validation_outcome(7, findings()) {
        Err(ValidationError::Validation(found)) => {
            assert_eq!(found.errors.len(), 1);
            assert_eq!(found.errors[0].line, 3);
            assert_eq!(found.errors[0].level, ErrorLevel::Error);
        }
        other => panic!("{:?}", other),
    }
    assert_eq!(XmlValidationError::default().errors.len(), 0);
    assert!(InitState.get());
}

#[test]
fn levels() {
    assert_eq!(ErrorLevel::from_code(0), ErrorLevel::Unset);
    assert_eq!(ErrorLevel::from_code(1), ErrorLevel::Warning);
    assert_eq!(ErrorLevel::from_code(2), ErrorLevel::Error);
    assert_eq!(ErrorLevel::from_code(3), ErrorLevel::Fatal);
    assert_eq!(ErrorLevel::from_code(4), ErrorLevel::Unset);
    assert_eq!(ErrorLevel::from_code(-1), ErrorLevel::Unset);
}

#[test]
fn schema_is_handed_out_in_pieces() {
    let mut ctx = ReadCtx::new(10);
    assert_eq!(ctx.advance(4), 4);
    assert_eq!((ctx.remaining_length, ctx.offset), (6, 4));
    assert_eq!(ctx.advance(0), 0);
    assert_eq!(ctx.advance(100), 6);
    assert_eq!((ctx.remaining_length, ctx.offset), (0, 10));
    assert_eq!(ctx.advance(5), 0);
    assert_eq!((ctx.remaining_length, ctx.offset), (0, 10));
}

#[test]
fn content_types() {
    assert!(xml_content_type("application/xml"));
    assert!(xml_content_type("application/xml; charset=utf-8"));
    assert!(xml_content_type("Application/XML"));
    assert!(xml_content_type("application/soap+xml"));
    assert!(xml_content_type("application/atom+XML;charset=utf-8"));
    assert!(!xml_content_type("text/xml"));
    assert!(!xml_content_type("application/json"));
    assert!(xml_content_type("application/xml+json"));
    assert!(!xml_content_type("application/json+yaml"));
    assert!(!xml_content_type("application"));
    assert!(!xml_content_type(""));
    assert!(!xml_content_type("xml"));
}

fn location(s: &str) -> XsdImportOrInclude {
    XsdImportOrInclude { schema_location: s.as_bytes().to_vec() }
}

#[test]
fn schema_document() {
    let xml = br#"<?xml version="1.0" encoding="utf-8" ?>
<xs:schema xmlns:xs="http://www.w3.org/2001/XMLSchema" targetNamespace="https://local.dev/example" xmlns:example="https://local.dev/example" elementFormDefault="qualified">
    <xs:import schemaLocation="./example2.xsd" namespace="https://local.dev/example2" />
    <xs:include  schemaLocation="./example1.xsd" />
    <xs:element name="a"><xs:complexType><xs:sequence><xs:include schemaLocation="no"></xs:include></xs:sequence></xs:complexType></xs:element>
    <include schemaLocation="unbound.xsd"/>
    <xs:include schemaLocation="./example3.xsd"/>
</xs:schema>"#;
    let xsd = Xsd::from_reader(&xsd_bindings(), xml).unwrap();
    assert_eq!(
        xsd,
        Xsd {
            tns: b"https://local.dev/example".to_vec(),
            includes: vec![location("./example1.xsd"), location("./example3.xsd")],
            imports: vec![location("./example2.xsd")],
        }
    );
    assert!(xsd_bindings().validate());
}

#[test]
fn document_that_is_no_schema() {
    assert_eq!(
        Xsd::from_reader(&xsd_bindings(), b"<schema targetNamespace='x'/>"),
        Err(XmlDeserializeError::MissingElement(S(b"schema".to_vec())))
    );
    assert_eq!(
        Xsd::from_reader(&xsd_bindings(), b"<xs:schema xmlns:xs='http://www.w3.org/2001/XMLSchema'/>"),
        Err(XmlDeserializeError::MissingAttribute(S(b"targetNamespace".to_vec())))
    );
    assert_eq!(
        Xsd::from_reader(
            &xsd_bindings(),
            b"<xs:schema xmlns:xs='http://www.w3.org/2001/XMLSchema' targetNamespace='t'><xs:import/></xs:schema>"
        ),
        Err(XmlDeserializeError::MissingAttribute(S(b"schemaLocation".to_vec())))
    );
    let other = raxb::descriptor::Bindings::new(vec![raxb::descriptor::ContainerDescriptor::of_fields(
        vec![],
    )
    .with_root(b"a")]);
    assert_eq!(Xsd::from_reader(&other, b"<a/>"), Err(XmlDeserializeError::MissingRoot));
}
