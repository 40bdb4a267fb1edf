use raxb::de::XmlDeserializeError;
use raxb::reader::SchemaBundle;
use raxb::registry::{BuildError, Collection, Schema};
use raxb::ty::S;
use raxb::writer::{SchemaLocation, SchemaWriter, WriterError};
use raxb::xsd::xsd_bindings;

fn content(location: &SchemaLocation) -> String {
    let schema = |tns: &str, body: &str| {
        format!(
            r#"<xs:schema xmlns:xs="http://www.w3.org/2001/XMLSchema" targetNamespace="{tns}">{body}</xs:schema>"#
        )
    };
    match location.as_str() {
        "schemas/main.xsd" => schema(
            "urn:main",
            r#"<xs:include schemaLocation="types.xsd"/><xs:import schemaLocation="https://example.org/a/base.xsd"/><xs:import schemaLocation="sub/more.xsd"/>"#,
        ),
        "schemas/types.xsd" => schema("urn:main", r#"<xs:include schemaLocation="main.xsd"/>"#),
        "schemas/sub/more.xsd" => schema("urn:more", ""),
        "https://example.org/a/base.xsd" => schema("urn:base", r#"<xs:import schemaLocation="../b/deep.xsd"/>"#),
        "schemas/sub/../b/deep.xsd" => schema("urn:deep", ""),
        other => panic!("no schema at {other}"),
    }
}

#[test]
fn schemas_are_collected_along_imports_and_includes() {
    let table = xsd_bindings();
    let mut collection = Collection::new(Schema::register("schemas/main.xsd").unwrap());
    let mut got = Vec::new();
    while let Some(mut schema) = collection.next() {
        schema.content = content(&schema.location);
        got.push(schema.location.as_str().to_string());
        collection.collect(schema, &table, "out").unwrap();
    }
    assert_eq!(
        got,
        [
            "schemas/main.xsd",
            "schemas/types.xsd",
            "schemas/sub/more.xsd",
            "https://example.org/a/base.xsd",
            "schemas/sub/../b/deep.xsd",
        ]
    );
    assert_eq!(collection.counter, 5);
    assert_eq!(
        collection.filepath.as_deref(),
        Some(raxb::writer::create_filepath("out", "urn:main").as_str())
    );
    let entries = collection.entries().unwrap();
    assert_eq!(
        entries.iter().map(|e| e.name.as_str()).collect::<Vec<_>>(),
        [
            "main.xsd",
            "types.xsd",
            "more.xsd",
            "https://example.org/a/base.xsd",
            "deep.xsd",
        ]
    );
    let bundle = SchemaBundle::from_slice(&SchemaWriter::default().write(&entries).unwrap()).unwrap();
    assert_eq!(bundle.name(), "main.xsd");
    assert_eq!(bundle.target_ns(), "urn:main");
    assert_eq!(bundle.entry(), content(&SchemaLocation::Path("schemas/main.xsd".into())).as_bytes());
    assert_eq!(
        bundle.find("deep.xsd"),
        Some(content(&SchemaLocation::Path("schemas/sub/../b/deep.xsd".into())).as_bytes())
    );
}

#[test]
fn file_of_the_bundle_can_be_given() {
    let table = xsd_bindings();
    let mut collection =
        Collection::new(Schema::register_with_filename("schemas/sub/more.xsd", "x.xsdb").unwrap());
    let mut schema = collection.next().unwrap();
    assert!(schema.entrypoint);
    schema.content = content(&schema.location);
    collection.collect(schema, &table, "out").unwrap();
    assert_eq!(collection.filepath.as_deref(), Some("x.xsdb"));
    assert!(collection.next().is_none());
    assert_eq!(collection.schemas.len(), 1);
}

#[test]
fn collecting_fails_without_changing_what_is_collected() {
    let table = xsd_bindings();
    assert_eq!(Schema::register("http").err(), Some(WriterError::UrlParse));
    let mut collection = Collection::new(Schema::register("schemas/main.xsd").unwrap());
    let mut schema = collection.next().unwrap();
    schema.content = "<a/>".to_string();
    assert_eq!(
        collection.collect(schema, &table, "out"),
        Err(BuildError::XmlDeserialize(XmlDeserializeError::MissingElement(S(b"schema".to_vec()))))
    );
    let mut schema = Schema::register("schemas/main.xsd").unwrap();
    schema.content = r#"<xs:schema xmlns:xs="http://www.w3.org/2001/XMLSchema" targetNamespace="t"><xs:import schemaLocation="ok.xsd"/><xs:include schemaLocation="http://"/></xs:schema>"#.to_string();
    assert_eq!(
        collection.collect(schema, &table, "out"),
        Err(BuildError::WriterError(WriterError::UrlParse))
    );
    assert_eq!(collection.counter, 0);
    assert!(collection.schemas.is_empty());
    assert!(collection.pending.is_empty());
    assert!(collection.filepath.is_none());
}

#[test]
fn a_schema_collected_twice_takes_the_place_of_the_first() {
    let table = xsd_bindings();
    let schema = |tns: &str| {
        let mut s = Schema::register("schemas/sub/more.xsd").unwrap();
        s.content = format!(
            r#"<xs:schema xmlns:xs="http://www.w3.org/2001/XMLSchema" targetNamespace="{tns}"></xs:schema>"#
        );
        s
    };
    let mut collection = Collection::new(Schema::register("schemas/sub/more.xsd").unwrap());
    collection.collect(schema("urn:one"), &table, "out").unwrap();
    let mut other = Schema::register("schemas/sub/other.xsd").unwrap();
    other.content = schema("urn:other").content;
    collection.collect(other, &table, "out").unwrap();
    collection.collect(schema("urn:two"), &table, "out").unwrap();
    assert_eq!(collection.counter, 3);
    assert_eq!(
        collection
            .schemas
            .iter()
            .map(|(l, e)| (l.as_str().to_string(), e.target_namespace.clone()))
            .collect::<Vec<_>>(),
        [
            ("schemas/sub/more.xsd".to_string(), "urn:two".to_string()),
            ("schemas/sub/other.xsd".to_string(), "urn:other".to_string()),
        ]
    );
}
