use raxb::reader::{ReaderError, SchemaBundle, Span, XmlSchemaResolver, MAGIC_BYTE};
use raxb::writer::{
    create_filepath, NamedEntry, SchemaEntry, SchemaLocation, SchemaWriter, WriterError,
};

fn entry(name: &str, target_namespace: &str, entrypoint: bool, content: &str) -> NamedEntry {
    NamedEntry {
        name: name.to_string(),
        entry: SchemaEntry::new(target_namespace.to_string(), entrypoint, content.to_string()),
    }
}

fn schemas() -> Vec<NamedEntry> {
    vec![
        entry("base.xsd", "urn:base", false, "<base/>"),
        entry("main.xsd", "urn:main", true, "<main>\u{e9}</main>"),
        entry("https://example.org/x.xsd", "urn:x", false, ""),
    ]
}

#[test]
fn bundle_is_laid_out_as_described() {
    let data = SchemaWriter::assemble(&vec![entry("m", "ns", true, "<s/>")]).unwrap();
    let mut expected = Vec::new();
    expected.extend_from_slice(&MAGIC_BYTE.to_le_bytes());
    expected.extend_from_slice(&(4u64 + 8 + 4 + 1 + 4 + 2 + 1 + 8 + 8 + 4 + 1).to_le_bytes());
    expected.extend_from_slice(&1u32.to_le_bytes());
    expected.extend_from_slice(b"m");
    expected.extend_from_slice(&2u32.to_le_bytes());
    expected.extend_from_slice(b"ns");
    expected.push(1);
    expected.extend_from_slice(&0u64.to_le_bytes());
    expected.extend_from_slice(&4u64.to_le_bytes());
    expected.extend_from_slice(&1u32.to_le_bytes());
    expected.extend_from_slice(b"m");
    expected.extend_from_slice(b"<s/>");
    assert_eq!(data, expected);
    assert_eq!(MAGIC_BYTE.to_be_bytes(), *b"raxb");
}

#[test]
fn bundle_is_compressed() {
    let data = SchemaWriter::assemble(&schemas()).unwrap();
    let block = SchemaWriter::default().write(&schemas()).unwrap();
    assert_ne!(block, data);
    assert_eq!(&block[..4], &(data.len() as u32).to_le_bytes());
    assert_eq!(lz4_flex::decompress_size_prepended(&block).unwrap(), data);
    assert_eq!(lz4_flex::compress_prepend_size(&data), block);
    let bundle = SchemaBundle::from_data(data).unwrap();
    assert_eq!(bundle.name(), "main.xsd");
}

#[test]
fn bundle_is_read_back_as_it_was_written() {
    let block = SchemaWriter::default().write(&schemas()).unwrap();
    let bundle = SchemaBundle::from_slice(&block).unwrap();
    assert_eq!(bundle.name(), "main.xsd");
    assert_eq!(bundle.target_ns(), "urn:main");
    assert_eq!(bundle.header.entrypoint, Span { start: 7, end: 22 });
    assert_eq!(bundle.entrypoint(), "<main>\u{e9}</main>".as_bytes());
    assert_eq!(bundle.resolve("base.xsd"), Some(&b"<base/>"[..]));
    assert_eq!(bundle.resolve("main.xsd"), Some("<main>\u{e9}</main>".as_bytes()));
    assert_eq!(bundle.resolve("https://example.org/x.xsd"), Some(&b""[..]));
    assert_eq!(bundle.resolve("other.xsd"), None);
    assert_eq!(bundle.header.index.len(), 3);
    assert_eq!(bundle.buffer, "<base/><main>\u{e9}</main>".as_bytes());
}

#[test]
fn of_two_schemas_of_one_name_the_later_is_found() {
    let block = SchemaWriter::default()
        .write(&vec![entry("a", "ns", true, "first"), entry("a", "ns", true, "second")])
        .unwrap();
    let bundle = SchemaBundle::from_slice(&block).unwrap();
    assert_eq!(bundle.find("a"), Some(&b"second"[..]));
    assert_eq!(bundle.entry(), b"second");
    assert_eq!(bundle.name(), "a");
}

#[test]
fn bundle_without_entrypoint_is_not_written() {
    assert_eq!(
        SchemaWriter::default().write(&vec![entry("a", "ns", false, "x")]),
        Err(WriterError::NoEntrypoint)
    );
    assert_eq!(SchemaWriter::default().write(&vec![]), Err(WriterError::NoEntrypoint));
}

fn data(head: u64, rest: &[u8]) -> Vec<u8> {
    let mut data = Vec::new();
    data.extend_from_slice(&MAGIC_BYTE.to_le_bytes());
    data.extend_from_slice(&head.to_le_bytes());
    data.extend_from_slice(rest);
    data
}

#[test]
fn every_reader_error_has_an_input() {
    assert_eq!(
        SchemaBundle::from_slice(b"no block").err(),
        Some(ReaderError::DecompressError)
    );
    assert_eq!(SchemaBundle::from_data(vec![1, 2]).err(), Some(ReaderError::Io));
    assert_eq!(
        SchemaBundle::from_data(vec![0, 0, 0, 0, 0, 0, 0, 0, 0, 0, 0, 0]).err(),
        Some(ReaderError::InvalidFormat)
    );
    assert_eq!(
        SchemaBundle::from_data(MAGIC_BYTE.to_le_bytes().to_vec()).err(),
        Some(ReaderError::Io)
    );
    assert_eq!(
        SchemaBundle::from_data(data(20, &[9, 0, 0, 0, b'a'])).err(),
        Some(ReaderError::Io)
    );
    assert_eq!(
        SchemaBundle::from_data(data(21, &[1, 0, 0, 0, 0xff, 0, 0, 0, 0])).err(),
        Some(ReaderError::Utf8Error)
    );
    assert_eq!(
        SchemaBundle::from_data(data(19, &[0, 0, 0, 0, 0, 0, 0, 0])).err(),
        Some(ReaderError::InvalidHead)
    );
    assert_eq!(
        SchemaBundle::from_data(data(40, &[0, 0, 0, 0, 0, 0, 0, 0, 1, 2, 3])).err(),
        Some(ReaderError::Io)
    );
    let empty = SchemaBundle::from_data(data(20, &[0, 0, 0, 0, 0, 0, 0, 0, b'x'])).unwrap();
    assert_eq!(empty.name(), "");
    assert_eq!(empty.entry(), b"");
    assert_eq!(empty.buffer, b"x");
}

#[test]
fn range_outside_the_contents_gives_nothing() {
    let mut head = Vec::new();
    head.extend_from_slice(&[0, 0, 0, 0, 0, 0, 0, 0]);
    head.push(1);
    head.extend_from_slice(&2u64.to_le_bytes());
    head.extend_from_slice(&9u64.to_le_bytes());
    head.extend_from_slice(&1u32.to_le_bytes());
    head.push(b'a');
    let bundle = SchemaBundle::from_data(data(20 + 22, &[&head[..], b"abc"].concat())).unwrap();
    assert_eq!(bundle.header.entrypoint, Span { start: 2, end: 9 });
    assert_eq!(bundle.entry(), b"");
    assert_eq!(bundle.find("a"), None);
}

#[test]
fn file_of_a_bundle_is_named_by_the_uuid_of_its_namespace() {
    assert_eq!(
        create_filepath("out", "https://my.example.org/"),
        "out/a79e31d35ade57b3b6eecfa2615395c2.xsdb"
    );
    assert_eq!(create_filepath("", ""), "1b4db7eb40575ddf91e036dec72071f5.xsdb");
    assert_eq!(
        create_filepath("/tmp/out/", "https://my.example.org/"),
        "/tmp/out/a79e31d35ade57b3b6eecfa2615395c2.xsdb"
    );
}

#[test]
fn locations() {
    assert_eq!(
        SchemaLocation::from_str("schemas/main.xsd"),
        Ok(SchemaLocation::Path("schemas/main.xsd".to_string()))
    );
    assert_eq!(
        SchemaLocation::from_str("htt"),
        Ok(SchemaLocation::Path("htt".to_string()))
    );
    assert_eq!(
        SchemaLocation::from_str("https://example.org/a/../b.xsd"),
        Ok(SchemaLocation::Url("https://example.org/b.xsd".to_string()))
    );
    assert_eq!(SchemaLocation::from_str("http"), Err(WriterError::UrlParse));
    let path = SchemaLocation::Path("schemas/main.xsd".to_string());
    assert_eq!(path.as_str(), "schemas/main.xsd");
    assert_eq!(
        path.try_join("types/t.xsd"),
        Ok(SchemaLocation::Path("schemas/types/t.xsd".to_string()))
    );
    assert_eq!(path.entry_name(), Ok("main.xsd".to_string()));
    assert_eq!(
        SchemaLocation::Path("".to_string()).try_join("t.xsd"),
        Ok(SchemaLocation::Path("t.xsd".to_string()))
    );
    assert_eq!(
        SchemaLocation::Path("..".to_string()).entry_name(),
        Err(WriterError::InvalidFormat)
    );
    let url = SchemaLocation::Url("https://example.org/a/main.xsd".to_string());
    assert_eq!(
        url.try_join("../t.xsd"),
        Ok(SchemaLocation::Url("https://example.org/t.xsd".to_string()))
    );
    assert_eq!(url.entry_name(), Ok("https://example.org/a/main.xsd".to_string()));
    assert_eq!(
        SchemaLocation::Url("not a url".to_string()).try_join("t.xsd"),
        Err(WriterError::UrlParse)
    );
}

#[test]
fn the_file_of_a_bundle_is_named_by_the_uuid_of_its_namespace() {
    let name = raxb::writer::name_of_namespace("urn:main");
    assert_eq!(name.len(), 32);
    assert!(name.bytes().all(|b| b.is_ascii_hexdigit()));
    assert_ne!(name, raxb::writer::name_of_namespace("urn:other"));
    assert_eq!(
        raxb::writer::create_filepath("out", "urn:main"),
        std::path::Path::new("out").join(format!("{name}.xsdb")).to_str().unwrap()
    );
}
