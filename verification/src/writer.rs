//! Writing a bundle of schemas, and naming where schemas come from.

use crate::reader::{
    bundle_of, entries_from, entry_at, lz4_decompressed, string_at, u32_at, u64_at, BundleView,
    EntryView, ReaderError, SchemaBundle, Span, MAGIC_BYTE,
};
use crate::ser::string_from_utf8;
use crate::text::append_bytes;
use crate::validate::{file_name, file_name_of};
use byteorder::{ByteOrder, LittleEndian};
use url::Url;
use vstd::bytes::{
    lemma_auto_spec_u32_to_from_le_bytes, lemma_auto_spec_u64_to_from_le_bytes,
    spec_u32_to_le_bytes, spec_u64_to_le_bytes,
};
use vstd::prelude::*;
use vstd::string::{StringExecFns, StringSliceAdditionalSpecFns};
use vstd::utf8::{
    decode_utf8, encode_utf8, encode_utf8_decode_utf8, encode_utf8_valid_utf8, valid_utf8,
};

verus! {

/// Why a bundle could not be written.
#[derive(Debug, Clone, Copy, PartialEq, Eq, Structural)]
pub enum WriterError {
    Io,
    /// A name that is not UTF-8.
    Utf8Error,
    /// A location that is no URL.
    UrlParse,
    /// No schema is marked as the one that the bundle is entered by.
    NoEntrypoint,
    /// A path that names no file.
    InvalidFormat,
    /// A length that the head cannot hold.
    InvalidHead,
}

pub type WriterResult<T> = Result<T, WriterError>;

/// One schema of a bundle.
#[derive(Debug)]
pub struct SchemaEntry {
    pub target_namespace: String,
    pub entrypoint: bool,
    pub content: String,
}

impl SchemaEntry {
    pub fn new(target_namespace: String, entrypoint: bool, content: String) -> (entry: SchemaEntry)
        ensures
            entry.target_namespace == target_namespace,
            entry.entrypoint == entrypoint,
            entry.content == content,
    {
        SchemaEntry { target_namespace, entrypoint, content }
    }
}

/// The name-based UUID of `name` in the namespace of URLs, in its simple
/// form of 32 hexadecimal digits, by `Uuid::new_v5`.
pub uninterp spec fn url_uuid(name: Seq<u8>) -> Seq<char>;

/// A path with another joined to it, by `Path::join`. The separator is
/// that of the platform the library is built for.
pub uninterp spec fn joined_path(dir: Seq<char>, file: Seq<char>) -> Seq<char>;

/// The path that contains a path, by `Path::parent`. What counts as a
/// separator is decided by the platform the library is built for.
pub uninterp spec fn parent_path(path: Seq<char>) -> Option<Seq<char>>;

#[verifier::external_type_specification]
#[verifier::external_body]
pub struct ExUrl(Url);

/// The text of a URL, in its normal form.
pub uninterp spec fn url_text(url: Url) -> Seq<char>;

/// The text of the URL that text is read as, by `Url::parse`.
pub uninterp spec fn url_of(text: Seq<char>) -> Option<Seq<char>>;

/// The text of the URL that a reference stands for when it is met in the
/// document at the URL of text `base`, by `Url::join`.
pub uninterp spec fn url_joined(base: Seq<char>, other: Seq<char>) -> Option<Seq<char>>;

/// The URL that a reference stands for when it is met in the document at
/// `base`: `base` is read as a URL, and the reference is resolved against it.
pub open spec fn resolved_url(base: Seq<char>, other: Seq<char>) -> Option<Seq<char>> {
    match url_of(base) {
        Some(text) => url_joined(text, other),
        None => None,
    }
}

/// What a block is compressed to, by `lz4_flex::compress_prepend_size`.
pub uninterp spec fn lz4_compressed(data: Seq<u8>) -> Seq<u8>;

pub open spec fn string_view(text: Option<String>) -> Option<Seq<char>> {
    match text {
        Some(s) => Some(s@),
        None => None,
    }
}

/// Makes the UUID of a name with `Uuid::new_v5` in `Uuid::NAMESPACE_URL`.
#[verifier::external_body]
fn create_uuid(b: &[u8]) -> (id: String)
    ensures
        id@ == url_uuid(b@),
{
    uuid::Uuid::new_v5(&uuid::Uuid::NAMESPACE_URL, b).as_simple().to_string()
}

/// Joins two paths with `Path::join`.
#[verifier::external_body]
fn join_path(dir: &str, file: &str) -> (path: String)
    ensures
        path@ == joined_path(dir@, file@),
{
    std::path::Path::new(dir).join(file).to_str().unwrap().to_owned()
}

/// Takes the parent of a path with `Path::parent`.
#[verifier::external_body]
fn parent_of(path: &str) -> (parent: Option<String>)
    ensures
        string_view(parent) == parent_path(path@),
{
    std::path::Path::new(path).parent().map(|dir| dir.to_str().unwrap().to_owned())
}

/// Reads a URL with `Url::parse`.
#[verifier::external_body]
fn parse_url(text: &str) -> (url: Option<Url>)
    ensures
        match url {
            Some(u) => url_of(text@) == Some(url_text(u)),
            None => url_of(text@) is None,
        },
{
    Url::parse(text).ok()
}

/// Resolves a reference against a URL with `Url::join`.
#[verifier::external_body]
fn join_url(base: &Url, other: &str) -> (url: Option<Url>)
    ensures
        match url {
            Some(u) => url_joined(url_text(*base), other@) == Some(url_text(u)),
            None => url_joined(url_text(*base), other@) is None,
        },
{
    base.join(other).ok()
}

/// The text of a URL, by `Url::as_str`.
#[verifier::external_body]
fn url_string(url: &Url) -> (text: String)
    ensures
        text@ == url_text(*url),
{
    url.as_str().to_owned()
}

/// Compresses a block with `lz4_flex::compress_prepend_size`. A block whose
/// length four bytes can hold is what `lz4_flex::decompress_size_prepended`
/// makes of the result.
#[verifier::external_body]
fn compress(data: &[u8]) -> (block: Vec<u8>)
    ensures
        block@ == lz4_compressed(data@),
        data@.len() <= u32::MAX ==> lz4_decompressed(block@) == Some(data@),
{
    lz4_flex::compress_prepend_size(data)
}

/// Writes a number as four little-endian bytes with `LittleEndian::write_u32`.
#[verifier::external_body]
fn u32_bytes(n: u32) -> (bytes: Vec<u8>)
    ensures
        bytes@ == spec_u32_to_le_bytes(n),
{
    let mut bytes = [0u8; 4];
    LittleEndian::write_u32(&mut bytes, n);
    bytes.to_vec()
}

/// Writes a number as eight little-endian bytes with `LittleEndian::write_u64`.
#[verifier::external_body]
fn u64_bytes(n: u64) -> (bytes: Vec<u8>)
    ensures
        bytes@ == spec_u64_to_le_bytes(n),
{
    let mut bytes = [0u8; 8];
    LittleEndian::write_u64(&mut bytes, n);
    bytes.to_vec()
}

/// The name under which what belongs to a namespace or a URL is kept: its
/// UUID.
pub fn name_of_namespace(target_namespace: &str) -> (name: String)
    ensures
        name@ == url_uuid(target_namespace.spec_bytes()),
{
    create_uuid(target_namespace.as_bytes())
}

/// The path of the bundle for a target namespace in a directory: the UUID
/// of the namespace with the extension `xsdb`.
pub fn create_filepath(path: &str, target_namespace: &str) -> (file: String)
    ensures
        file@ == joined_path(path@, url_uuid(target_namespace.spec_bytes()) + ".xsdb"@),
{
    let mut name = name_of_namespace(target_namespace);
    name.append(".xsdb");
    join_path(path, name.as_str())
}

/// Where a schema comes from.
#[derive(Debug, PartialEq, Eq)]
pub enum SchemaLocation {
    Path(String),
    Url(String),
}

impl SchemaLocation {
    pub open spec fn text(&self) -> Seq<char> {
        match self {
            SchemaLocation::Path(path) => path@,
            SchemaLocation::Url(url) => url@,
        }
    }

    /// The location as text.
    pub fn as_str(&self) -> (text: &str)
        ensures
            text@ == self.text(),
    {
        match self {
            SchemaLocation::Path(path) => path.as_str(),
            SchemaLocation::Url(url) => url.as_str(),
        }
    }

    /// Whether text begins with `http`.
    pub open spec fn begins_with_http(s: Seq<char>) -> bool {
        s.len() >= 4 && s.take(4) == "http"@
    }

    /// The location that text names: a URL where it begins with `http`,
    /// which it must then be, and a path in any other case.
    pub fn from_str(s: &str) -> (location: WriterResult<SchemaLocation>)
        ensures
            match location {
                Ok(SchemaLocation::Url(url)) => SchemaLocation::begins_with_http(s@) && url_of(s@)
                    == Some(url@),
                Ok(SchemaLocation::Path(path)) => !SchemaLocation::begins_with_http(s@) && path@
                    == s@,
                Err(e) => e == WriterError::UrlParse && SchemaLocation::begins_with_http(s@)
                    && url_of(s@) is None,
            },
    {
        if starts_with_http(s) {
            match parse_url(s) {
                Some(url) => Ok(SchemaLocation::Url(url_string(&url))),
                None => Err(WriterError::UrlParse),
            }
        } else {
            Ok(SchemaLocation::Path(s.to_owned()))
        }
    }

    /// The location that a reference stands for when it is met in the
    /// schema at this location: a URL resolved against this one, or a path
    /// beside this one.
    pub fn try_join(&self, other: &str) -> (location: WriterResult<SchemaLocation>)
        ensures
            match self {
                SchemaLocation::Url(base) => match resolved_url(base@, other@) {
                    Some(url) => location matches Ok(SchemaLocation::Url(u)) && u@ == url,
                    None => location == Err::<SchemaLocation, WriterError>(WriterError::UrlParse),
                },
                SchemaLocation::Path(path) => location matches Ok(SchemaLocation::Path(p)) && p@
                    == joined_path(
                    match parent_path(path@) {
                        Some(dir) => dir,
                        None => Seq::empty(),
                    },
                    other@,
                ),
            },
    {
        match self {
            SchemaLocation::Url(base) => match parse_url(base.as_str()) {
                Some(at) => match join_url(&at, other) {
                    Some(url) => Ok(SchemaLocation::Url(url_string(&url))),
                    None => Err(WriterError::UrlParse),
                },
                None => Err(WriterError::UrlParse),
            },
            SchemaLocation::Path(path) => {
                let dir = match parent_of(path.as_str()) {
                    Some(dir) => dir,
                    None => String::new(),
                };
                Ok(SchemaLocation::Path(join_path(dir.as_str(), other)))
            },
        }
    }

    /// The name under which the schema stands in a bundle: the file name of
    /// a path, the whole of a URL. A path without a file name is
    /// `InvalidFormat`.
    pub open spec fn name(&self) -> Result<Seq<char>, WriterError> {
        match self {
            SchemaLocation::Url(url) => Ok(url@),
            SchemaLocation::Path(path) => match file_name_of(encode_utf8(path@)) {
                Some(bytes) => if valid_utf8(bytes) {
                    Ok(decode_utf8(bytes))
                } else {
                    Err(WriterError::Utf8Error)
                },
                None => Err(WriterError::InvalidFormat),
            },
        }
    }

    /// The name under which the schema stands in a bundle.
    pub fn entry_name(&self) -> (name: WriterResult<String>)
        ensures
            match self.name() {
                Ok(expected) => name matches Ok(n) && n@ == expected,
                Err(e) => name == Err::<String, WriterError>(e),
            },
    {
        match self {
            SchemaLocation::Url(url) => Ok(url.as_str().to_owned()),
            SchemaLocation::Path(path) => {
                proof {
                    vstd::utf8::encode_utf8_valid_utf8(path@);
                }
                match file_name(path.as_str().as_bytes()) {
                    None => Err(WriterError::InvalidFormat),
                    Some(bytes) => match string_from_utf8(bytes) {
                        Some(name) => Ok(name),
                        None => Err(WriterError::Utf8Error),
                    },
                }
            },
        }
    }
}

fn starts_with_http(s: &str) -> (starts: bool)
    ensures
        starts == SchemaLocation::begins_with_http(s@),
{
    proof {
        reveal_strlit("http");
    }
    if s.unicode_len() < 4 {
        return false;
    }
    let starts = s.get_char(0) == 'h' && s.get_char(1) == 't' && s.get_char(2) == 't' && s.get_char(
        3,
    ) == 'p';
    proof {
        if starts {
            assert(s@.take(4) =~= "http"@);
        } else {
            assert(s@.take(4)[0] == s@[0]);
            assert(s@.take(4)[1] == s@[1]);
            assert(s@.take(4)[2] == s@[2]);
            assert(s@.take(4)[3] == s@[3]);
        }
    }
    starts
}


/// A schema with the name it has in the bundle.
#[derive(Debug)]
pub struct NamedEntry {
    pub name: String,
    pub entry: SchemaEntry,
}

/// A string in a bundle: its length in four bytes and its bytes.
pub open spec fn string_bytes(s: Seq<char>) -> Seq<u8> {
    spec_u32_to_le_bytes(encode_utf8(s).len() as u32) + encode_utf8(s)
}

/// The entry of a schema in the head: 1 for the entrypoint and 0 for any
/// other, the range of its content, and its name.
pub open spec fn entry_bytes(entrypoint: bool, start: int, end: int, name: Seq<char>) -> Seq<u8> {
    seq![
        if entrypoint {
            1u8
        } else {
            0u8
        },
    ] + spec_u64_to_le_bytes(start as u64) + spec_u64_to_le_bytes(end as u64) + string_bytes(name)
}

/// The length of the contents of the first `k` schemas.
pub open spec fn contents_len(entries: Seq<NamedEntry>, k: int) -> int
    decreases k,
{
    if k <= 0 {
        0
    } else {
        contents_len(entries, k - 1) + encode_utf8(entries[k - 1].entry.content@).len()
    }
}

/// The entries of the first `k` schemas, whose contents lie one behind the
/// other.
pub open spec fn entries_bytes(entries: Seq<NamedEntry>, k: int) -> Seq<u8>
    decreases k,
{
    if k <= 0 {
        Seq::empty()
    } else {
        entries_bytes(entries, k - 1) + entry_bytes(
            entries[k - 1].entry.entrypoint,
            contents_len(entries, k - 1),
            contents_len(entries, k),
            entries[k - 1].name@,
        )
    }
}

/// The length of the entries of the first `k` schemas.
pub open spec fn entries_len(entries: Seq<NamedEntry>, k: int) -> int
    decreases k,
{
    if k <= 0 {
        0
    } else {
        entries_len(entries, k - 1) + 21 + encode_utf8(entries[k - 1].name@).len()
    }
}

/// The contents of the first `k` schemas, one behind the other.
pub open spec fn contents_bytes(entries: Seq<NamedEntry>, k: int) -> Seq<u8>
    decreases k,
{
    if k <= 0 {
        Seq::empty()
    } else {
        contents_bytes(entries, k - 1) + encode_utf8(entries[k - 1].entry.content@)
    }
}

/// The first schema at or behind `k` that is marked as the entrypoint.
pub open spec fn first_entrypoint(entries: Seq<NamedEntry>, k: int) -> Option<int>
    decreases entries.len() - k,
{
    if k < 0 || k >= entries.len() {
        None
    } else if entries[k].entry.entrypoint {
        Some(k)
    } else {
        first_entrypoint(entries, k + 1)
    }
}

/// Whether the first `k` names are short enough for the head.
pub open spec fn names_fit(entries: Seq<NamedEntry>, k: int) -> bool {
    forall|i: int| 0 <= i < k ==> encode_utf8((#[trigger] entries[i]).name@).len() <= u32::MAX
}

/// The size of the head of a bundle of these schemas that is entered by
/// schema `e`.
pub open spec fn head_len(entries: Seq<NamedEntry>, e: int) -> int {
    20 + encode_utf8(entries[e].name@).len() + encode_utf8(
        entries[e].entry.target_namespace@,
    ).len() + entries_len(entries, entries.len() as int)
}

/// Whether the head can hold every length of a bundle of these schemas
/// that is entered by schema `e`.
pub open spec fn fits(entries: Seq<NamedEntry>, e: int) -> bool {
    &&& names_fit(entries, entries.len() as int)
    &&& encode_utf8(entries[e].entry.target_namespace@).len() <= u32::MAX
    &&& head_len(entries, e) <= u64::MAX
    &&& contents_len(entries, entries.len() as int) <= u64::MAX
}

/// A bundle of these schemas before it is compressed: the magic number, the
/// size of the head, the name and the target namespace of the first schema
/// that is marked as the entrypoint, the entries, and the contents.
pub open spec fn bundle_data(entries: Seq<NamedEntry>) -> Result<Seq<u8>, WriterError> {
    match first_entrypoint(entries, 0) {
        None => Err(WriterError::NoEntrypoint),
        Some(e) => if !fits(entries, e) {
            Err(WriterError::InvalidHead)
        } else {
            Ok(
                spec_u32_to_le_bytes(MAGIC_BYTE) + spec_u64_to_le_bytes(head_len(entries, e) as u64)
                    + string_bytes(entries[e].name@) + string_bytes(
                    entries[e].entry.target_namespace@,
                ) + entries_bytes(entries, entries.len() as int) + contents_bytes(
                    entries,
                    entries.len() as int,
                ),
            )
        },
    }
}

proof fn lemma_lengths_grow(entries: Seq<NamedEntry>, k: int, n: int)
    requires
        0 <= k <= n,
    ensures
        0 <= contents_len(entries, k) <= contents_len(entries, n),
        0 <= entries_len(entries, k) <= entries_len(entries, n),
    decreases n,
{
    if k < n {
        lemma_lengths_grow(entries, k, n - 1);
    } else if k > 0 {
        lemma_lengths_grow(entries, k - 1, n - 1);
    }
}

fn find_entrypoint(entries: &Vec<NamedEntry>) -> (found: Option<usize>)
    ensures
        match found {
            Some(e) => first_entrypoint(entries@, 0) == Some(e as int) && e < entries.len(),
            None => first_entrypoint(entries@, 0) is None,
        },
{
    let mut k: usize = 0;
    while k < entries.len()
        invariant
            k <= entries.len(),
            first_entrypoint(entries@, 0) == first_entrypoint(entries@, k as int),
        decreases entries.len() - k,
    {
        if entries[k].entry.entrypoint {
            return Some(k);
        }
        k += 1;
    }
    None
}

/// The lengths of the entries and of the contents, if the head can hold
/// them.
fn measure(entries: &Vec<NamedEntry>) -> (sizes: Option<(u64, u64)>)
    ensures
        match sizes {
            Some((heads, contents)) => {
                &&& names_fit(entries@, entries.len() as int)
                &&& heads == entries_len(entries@, entries.len() as int)
                &&& contents == contents_len(entries@, entries.len() as int)
            },
            None => !names_fit(entries@, entries.len() as int) || entries_len(
                entries@,
                entries.len() as int,
            ) > u64::MAX || contents_len(entries@, entries.len() as int) > u64::MAX,
        },
{
    let mut heads: u64 = 0;
    let mut contents: u64 = 0;
    let mut k: usize = 0;
    while k < entries.len()
        invariant
            k <= entries.len(),
            names_fit(entries@, k as int),
            heads == entries_len(entries@, k as int),
            contents == contents_len(entries@, k as int),
        decreases entries.len() - k,
    {
        proof {
            lemma_lengths_grow(entries@, k + 1, entries.len() as int);
        }
        let name_len = entries[k].name.as_str().as_bytes().len();
        if name_len > 0xffff_ffff {
            return None;
        }
        let longer = match heads.checked_add(21 + name_len as u64) {
            Some(sum) => sum,
            None => {
                return None;
            },
        };
        let fuller = match contents.checked_add(entries[k].entry.content.as_str().as_bytes().len() as u64) {
            Some(sum) => sum,
            None => {
                return None;
            },
        };
        heads = longer;
        contents = fuller;
        k += 1;
    }
    Some((heads, contents))
}

fn push_string(out: &mut Vec<u8>, s: &str)
    requires
        encode_utf8(s@).len() <= u32::MAX,
    ensures
        final(out)@ == old(out)@ + string_bytes(s@),
{
    let len = u32_bytes(s.as_bytes().len() as u32);
    append_bytes(out, len.as_slice());
    append_bytes(out, s.as_bytes());
    assert(out@ =~= old(out)@ + string_bytes(s@));
}

/// Writes bundles.
#[derive(Debug, Default)]
pub struct SchemaWriter {}

impl SchemaWriter {
    /// A bundle of these schemas, compressed, or the error in its place.
    pub open spec fn written(entries: Seq<NamedEntry>) -> Result<Seq<u8>, WriterError> {
        match bundle_data(entries) {
            Ok(data) => Ok(lz4_compressed(data)),
            Err(e) => Err(e),
        }
    }

    /// Puts the schemas together and compresses them. What is written is
    /// read back as it was put together, as long as four bytes can hold its
    /// length.
    pub fn write(self, entries: &Vec<NamedEntry>) -> (block: WriterResult<Vec<u8>>)
        ensures
            match SchemaWriter::written(entries@) {
                Ok(expected) => block matches Ok(b) && b@ == expected,
                Err(e) => block == Err::<Vec<u8>, WriterError>(e),
            },
            block is Ok && bundle_data(entries@)->Ok_0.len() <= u32::MAX ==> SchemaBundle::of_slice(
                block->Ok_0@,
            ) == Ok::<BundleView, ReaderError>(bundle_view(entries@)),
    {
        match SchemaWriter::assemble(entries) {
            Ok(data) => {
                proof {
                    lemma_bundle_round_trip(entries@);
                }
                Ok(compress(data.as_slice()))
            },
            Err(e) => Err(e),
        }
    }

    /// Puts the schemas together.
    pub fn assemble(entries: &Vec<NamedEntry>) -> (data: WriterResult<Vec<u8>>)
        ensures
            match bundle_data(entries@) {
                Ok(expected) => data matches Ok(d) && d@ == expected,
                Err(e) => data == Err::<Vec<u8>, WriterError>(e),
            },
    {
        let e = match find_entrypoint(entries) {
            Some(e) => e,
            None => {
                return Err(WriterError::NoEntrypoint);
            },
        };
        let (heads, contents) = match measure(entries) {
            Some(sizes) => sizes,
            None => {
                return Err(WriterError::InvalidHead);
            },
        };
        let name = entries[e].name.as_str();
        let target_ns = entries[e].entry.target_namespace.as_str();
        assert(encode_utf8(entries@[e as int].name@).len() <= u32::MAX);
        if target_ns.as_bytes().len() > 0xffff_ffff {
            return Err(WriterError::InvalidHead);
        }
        let head = match heads.checked_add(
            20 + name.as_bytes().len() as u64 + target_ns.as_bytes().len() as u64,
        ) {
            Some(head) => head,
            None => {
                return Err(WriterError::InvalidHead);
            },
        };
        let mut out: Vec<u8> = Vec::new();
        append_bytes(&mut out, u32_bytes(MAGIC_BYTE).as_slice());
        append_bytes(&mut out, u64_bytes(head).as_slice());
        push_string(&mut out, name);
        push_string(&mut out, target_ns);
        let ghost front = out@;
        assert(front =~= spec_u32_to_le_bytes(MAGIC_BYTE) + spec_u64_to_le_bytes(head) + string_bytes(
            name@,
        ) + string_bytes(target_ns@));
        let mut pos: u64 = 0;
        let mut k: usize = 0;
        assert(out@ =~= front + entries_bytes(entries@, 0));
        while k < entries.len()
            invariant
                k <= entries.len(),
                names_fit(entries@, entries.len() as int),
                contents == contents_len(entries@, entries.len() as int),
                pos == contents_len(entries@, k as int),
                out@ == front + entries_bytes(entries@, k as int),
            decreases entries.len() - k,
        {
            proof {
                lemma_lengths_grow(entries@, k + 1, entries.len() as int);
            }
            let ghost before = out@;
            let entry = &entries[k];
            let end = pos + entry.entry.content.as_str().as_bytes().len() as u64;
            out.push(
                if entry.entry.entrypoint {
                    1
                } else {
                    0
                },
            );
            append_bytes(&mut out, u64_bytes(pos).as_slice());
            append_bytes(&mut out, u64_bytes(end).as_slice());
            push_string(&mut out, entry.name.as_str());
            assert(out@ =~= before + entry_bytes(
                entry.entry.entrypoint,
                pos as int,
                end as int,
                entry.name@,
            ));
            assert(out@ =~= front + entries_bytes(entries@, k + 1));
            pos = end;
            k += 1;
        }
        let ghost headed = out@;
        let mut k: usize = 0;
        assert(out@ =~= headed + contents_bytes(entries@, 0));
        while k < entries.len()
            invariant
                k <= entries.len(),
                out@ == headed + contents_bytes(entries@, k as int),
            decreases entries.len() - k,
        {
            append_bytes(&mut out, entries[k].entry.content.as_str().as_bytes());
            assert(out@ =~= headed + contents_bytes(entries@, k + 1));
            k += 1;
        }
        assert(out@ =~= bundle_data(entries@)->Ok_0);
        Ok(out)
    }
}


/// The entries of the schemas from `k` up to `n`.
pub open spec fn entries_tail(entries: Seq<NamedEntry>, k: int, n: int) -> Seq<u8>
    decreases n - k,
{
    if k >= n {
        Seq::empty()
    } else {
        entry_bytes(
            entries[k].entry.entrypoint,
            contents_len(entries, k),
            contents_len(entries, k + 1),
            entries[k].name@,
        ) + entries_tail(entries, k + 1, n)
    }
}

/// What a reader finds of the schema at position `i` in the head.
pub open spec fn entry_view(entries: Seq<NamedEntry>, i: int) -> EntryView {
    EntryView {
        entrypoint: entries[i].entry.entrypoint,
        name: entries[i].name@,
        span: Span {
            start: contents_len(entries, i) as u64,
            end: contents_len(entries, i + 1) as u64,
        },
    }
}

/// What a reader finds of the schemas in the head.
pub open spec fn entry_views(entries: Seq<NamedEntry>) -> Seq<EntryView> {
    Seq::new(entries.len(), |i: int| entry_view(entries, i))
}

proof fn lemma_entries_split(entries: Seq<NamedEntry>, k: int, n: int)
    requires
        0 <= k <= n,
    ensures
        entries_bytes(entries, n) == entries_bytes(entries, k) + entries_tail(entries, k, n),
    decreases n - k,
{
    if k < n {
        lemma_entries_split(entries, k, n - 1);
        lemma_tail_grows(entries, k, n - 1);
        assert(entries_bytes(entries, n) =~= entries_bytes(entries, k) + entries_tail(
            entries,
            k,
            n,
        ));
    } else {
        assert(entries_bytes(entries, n) =~= entries_bytes(entries, k) + entries_tail(
            entries,
            k,
            n,
        ));
    }
}

proof fn lemma_tail_grows(entries: Seq<NamedEntry>, k: int, n: int)
    requires
        0 <= k <= n,
    ensures
        entries_tail(entries, k, n + 1) == entries_tail(entries, k, n) + entry_bytes(
            entries[n].entry.entrypoint,
            contents_len(entries, n),
            contents_len(entries, n + 1),
            entries[n].name@,
        ),
    decreases n - k,
{
    let last = entry_bytes(
        entries[n].entry.entrypoint,
        contents_len(entries, n),
        contents_len(entries, n + 1),
        entries[n].name@,
    );
    if k < n {
        lemma_tail_grows(entries, k + 1, n);
        assert(entries_tail(entries, k, n + 1) =~= entries_tail(entries, k, n) + last);
    } else {
        assert(entries_tail(entries, n + 1, n + 1) =~= Seq::<u8>::empty());
        assert(entries_tail(entries, k, n + 1) =~= entries_tail(entries, k, n) + last);
    }
}

proof fn lemma_entries_bytes_len(entries: Seq<NamedEntry>, k: int)
    requires
        0 <= k,
    ensures
        entries_bytes(entries, k).len() == entries_len(entries, k),
    decreases k,
{
    if k > 0 {
        lemma_entries_bytes_len(entries, k - 1);
        lemma_auto_spec_u32_to_from_le_bytes();
        lemma_auto_spec_u64_to_from_le_bytes();
    }
}

proof fn lemma_contents_bytes_len(entries: Seq<NamedEntry>, k: int)
    requires
        0 <= k,
    ensures
        contents_bytes(entries, k).len() == contents_len(entries, k),
    decreases k,
{
    if k > 0 {
        lemma_contents_bytes_len(entries, k - 1);
    }
}

proof fn lemma_u32_at(a: Seq<u8>, x: u32, b: Seq<u8>)
    ensures
        u32_at(a + spec_u32_to_le_bytes(x) + b, a.len() as int) == Some(x),
{
    lemma_auto_spec_u32_to_from_le_bytes();
    let data = a + spec_u32_to_le_bytes(x) + b;
    assert(data.subrange(a.len() as int, a.len() as int + 4) =~= spec_u32_to_le_bytes(x));
}

proof fn lemma_u64_at(a: Seq<u8>, x: u64, b: Seq<u8>)
    ensures
        u64_at(a + spec_u64_to_le_bytes(x) + b, a.len() as int) == Some(x),
{
    lemma_auto_spec_u64_to_from_le_bytes();
    let data = a + spec_u64_to_le_bytes(x) + b;
    assert(data.subrange(a.len() as int, a.len() as int + 8) =~= spec_u64_to_le_bytes(x));
}

proof fn lemma_string_at(a: Seq<u8>, s: Seq<char>, b: Seq<u8>)
    requires
        encode_utf8(s).len() <= u32::MAX,
    ensures
        string_at(a + string_bytes(s) + b, a.len() as int) == Ok::<(Seq<char>, int), ReaderError>(
            (s, a.len() as int + 4 + encode_utf8(s).len()),
        ),
{
    lemma_auto_spec_u32_to_from_le_bytes();
    encode_utf8_valid_utf8(s);
    encode_utf8_decode_utf8(s);
    let bytes = encode_utf8(s);
    let len = spec_u32_to_le_bytes(bytes.len() as u32);
    let data = a + string_bytes(s) + b;
    assert(data =~= a + len + (bytes + b));
    lemma_u32_at(a, bytes.len() as u32, bytes + b);
    assert(data.subrange(a.len() as int + 4, a.len() as int + 4 + bytes.len()) =~= bytes);
}

proof fn lemma_entry_at(
    a: Seq<u8>,
    entrypoint: bool,
    start: u64,
    end: u64,
    name: Seq<char>,
    b: Seq<u8>,
)
    requires
        encode_utf8(name).len() <= u32::MAX,
    ensures
        entry_at(
            a + entry_bytes(entrypoint, start as int, end as int, name) + b,
            a.len() as int,
        ) == Ok::<(EntryView, int), ReaderError>(
            (
                EntryView { entrypoint, name, span: Span { start, end } },
                a.len() as int + 21 + encode_utf8(name).len(),
            ),
        ),
{
    lemma_auto_spec_u32_to_from_le_bytes();
    lemma_auto_spec_u64_to_from_le_bytes();
    let flag = seq![
        if entrypoint {
            1u8
        } else {
            0u8
        },
    ];
    let first = spec_u64_to_le_bytes(start);
    let second = spec_u64_to_le_bytes(end);
    let text = string_bytes(name);
    let data = a + entry_bytes(entrypoint, start as int, end as int, name) + b;
    assert(data =~= (a + flag) + first + (second + text + b));
    lemma_u64_at(a + flag, start, second + text + b);
    assert(data =~= (a + flag + first) + second + (text + b));
    lemma_u64_at(a + flag + first, end, text + b);
    assert(data =~= (a + flag + first + second) + text + b);
    lemma_string_at(a + flag + first + second, name, b);
    assert(data[a.len() as int] == flag[0]);
}

proof fn lemma_entries_from(
    front: Seq<u8>,
    entries: Seq<NamedEntry>,
    contents: Seq<u8>,
    k: int,
)
    requires
        0 <= k <= entries.len(),
        names_fit(entries, entries.len() as int),
        contents_len(entries, entries.len() as int) <= u64::MAX,
    ensures
        entries_from(
            front + entries_bytes(entries, entries.len() as int) + contents,
            front.len() + entries_len(entries, k),
            front.len() + entries_len(entries, entries.len() as int),
        ) == Ok::<Seq<EntryView>, ReaderError>(entry_views(entries).skip(k)),
    decreases entries.len() - k,
{
    let n = entries.len() as int;
    let data = front + entries_bytes(entries, n) + contents;
    let pos = front.len() + entries_len(entries, k);
    let head = front.len() + entries_len(entries, n);
    lemma_lengths_grow(entries, k, n);
    lemma_entries_bytes_len(entries, n);
    if k == n {
        assert(entry_views(entries).skip(k) =~= Seq::<EntryView>::empty());
    } else {
        lemma_lengths_grow(entries, k + 1, n);
        lemma_lengths_grow(entries, k, k + 1);
        lemma_entries_split(entries, k, n);
        lemma_entries_bytes_len(entries, k);
        let one = entry_bytes(
            entries[k].entry.entrypoint,
            contents_len(entries, k),
            contents_len(entries, k + 1),
            entries[k].name@,
        );
        let a = front + entries_bytes(entries, k);
        let b = entries_tail(entries, k + 1, n) + contents;
        assert(data =~= a + one + b);
        assert(encode_utf8(entries[k].name@).len() <= u32::MAX);
        lemma_entry_at(
            a,
            entries[k].entry.entrypoint,
            contents_len(entries, k) as u64,
            contents_len(entries, k + 1) as u64,
            entries[k].name@,
            b,
        );
        lemma_entries_from(front, entries, contents, k + 1);
        let next = pos + 21 + encode_utf8(entries[k].name@).len();
        assert(next == front.len() + entries_len(entries, k + 1));
        assert(pos < head);
        lemma_auto_spec_u32_to_from_le_bytes();
        lemma_auto_spec_u64_to_from_le_bytes();
        assert(next <= data.len());
        assert(seq![entry_view(entries, k)] + entry_views(entries).skip(k + 1) =~= entry_views(
            entries,
        ).skip(k));
    }
}

/// What a reader finds in a bundle of these schemas: the name and the
/// target namespace of the first schema that is marked as the entrypoint, the
/// entries of all schemas with the ranges of their contents, and the contents.
pub open spec fn bundle_view(entries: Seq<NamedEntry>) -> BundleView {
    BundleView {
        name: entries[first_entrypoint(entries, 0)->0].name@,
        target_ns: entries[first_entrypoint(entries, 0)->0].entry.target_namespace@,
        entries: entry_views(entries),
        buffer: contents_bytes(entries, entries.len() as int),
    }
}

/// A bundle is read back as it was written: what `bundle_data` puts
/// together, `bundle_of` takes apart again.
pub proof fn lemma_bundle_round_trip(entries: Seq<NamedEntry>)
    requires
        bundle_data(entries) is Ok,
    ensures
        bundle_of(bundle_data(entries)->Ok_0) == Ok::<BundleView, ReaderError>(
            bundle_view(entries),
        ),
{
    let n = entries.len() as int;
    let e = first_entrypoint(entries, 0)->0;
    lemma_first_entrypoint(entries, 0);
    let name = entries[e].name@;
    let tns = entries[e].entry.target_namespace@;
    let head = head_len(entries, e);
    let magic = spec_u32_to_le_bytes(MAGIC_BYTE);
    let size = spec_u64_to_le_bytes(head as u64);
    let heads = entries_bytes(entries, n);
    let contents = contents_bytes(entries, n);
    let data = bundle_data(entries)->Ok_0;
    lemma_auto_spec_u32_to_from_le_bytes();
    lemma_auto_spec_u64_to_from_le_bytes();
    lemma_lengths_grow(entries, 0, n);
    lemma_entries_bytes_len(entries, n);
    lemma_contents_bytes_len(entries, n);
    assert(data =~= Seq::<u8>::empty() + magic + (size + string_bytes(name) + string_bytes(tns)
        + heads + contents));
    lemma_u32_at(Seq::empty(), MAGIC_BYTE, size + string_bytes(name) + string_bytes(tns) + heads
        + contents);
    assert(data =~= magic + size + (string_bytes(name) + string_bytes(tns) + heads + contents));
    lemma_u64_at(magic, head as u64, string_bytes(name) + string_bytes(tns) + heads + contents);
    assert(data =~= (magic + size) + string_bytes(name) + (string_bytes(tns) + heads + contents));
    lemma_string_at(magic + size, name, string_bytes(tns) + heads + contents);
    assert(data =~= (magic + size + string_bytes(name)) + string_bytes(tns) + (heads + contents));
    lemma_string_at(magic + size + string_bytes(name), tns, heads + contents);
    let front = magic + size + string_bytes(name) + string_bytes(tns);
    assert(data =~= front + heads + contents);
    assert(front.len() == 20 + encode_utf8(name).len() + encode_utf8(tns).len());
    lemma_entries_from(front, entries, contents, 0);
    assert(entry_views(entries).skip(0) =~= entry_views(entries));
    assert(data.skip(head) =~= contents);
}

proof fn lemma_first_entrypoint(entries: Seq<NamedEntry>, k: int)
    requires
        0 <= k,
    ensures
        first_entrypoint(entries, k) matches Some(e) ==> k <= e < entries.len(),
    decreases entries.len() - k,
{
    if k < entries.len() && !entries[k].entry.entrypoint {
        lemma_first_entrypoint(entries, k + 1);
    }
}

} // verus!
