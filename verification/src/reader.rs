//! Reading a bundle of schemas.
//!
//! A bundle is one compressed block. It begins with a head: a magic number,
//! the size of the head, the name of the bundle, its target namespace, and
//! one entry for each schema with the range of its content; numbers are
//! little-endian, a string is its length in four bytes and its bytes. The
//! contents of the schemas follow the head.

use crate::ser::string_from_utf8;
use crate::symbol::str_eq;
use byteorder::{ByteOrder, LittleEndian};
use vstd::bytes::{spec_u32_from_le_bytes, spec_u64_from_le_bytes};
use vstd::prelude::*;
use vstd::slice::slice_subrange;
use vstd::utf8::{decode_utf8, valid_utf8};

verus! {

/// The number that a bundle begins with.
pub const MAGIC_BYTE: u32 = 0x7261_7862;

/// Why a bundle could not be read.
#[derive(Debug, Clone, Copy, PartialEq, Eq, Structural)]
pub enum ReaderError {
    /// The bundle ends before what it announces.
    Io,
    /// A string that is not UTF-8.
    Utf8Error,
    /// A location that is no URL.
    UrlParse,
    /// The block cannot be decompressed.
    DecompressError,
    NoEntrypoint,
    /// The bundle does not begin with the magic number.
    InvalidFormat,
    /// The entries run over the head.
    InvalidHead,
}

pub type ReaderResult<T> = Result<T, ReaderError>;

/// A schema of a bundle by name.
pub trait XmlSchemaResolver {
    /// The content of the schema that the bundle is entered by.
    fn entrypoint(&self) -> &[u8];

    /// The content of the schema of this name.
    fn resolve(&self, s: &str) -> Option<&[u8]>;
}

/// Where the content of a schema lies among the contents of a bundle.
#[derive(Debug, Clone, Copy, PartialEq, Eq, Structural)]
pub struct Span {
    pub start: u64,
    pub end: u64,
}

/// The entry of one schema in the head of a bundle.
#[derive(Debug)]
pub struct IndexEntry {
    pub name: String,
    pub span: Span,
}

#[derive(Debug)]
pub struct SchemaBundleHeader {
    pub entrypoint: Span,
    pub name: String,
    pub target_ns: String,
    /// The entries in the order of the head; of two entries of one name the
    /// later counts.
    pub index: Vec<IndexEntry>,
}

#[derive(Debug)]
pub struct SchemaBundle {
    pub header: SchemaBundleHeader,
    /// The contents of the schemas, one behind the other.
    pub buffer: Vec<u8>,
}

pub struct EntryView {
    pub entrypoint: bool,
    pub name: Seq<char>,
    pub span: Span,
}

pub struct BundleView {
    pub name: Seq<char>,
    pub target_ns: Seq<char>,
    pub entries: Seq<EntryView>,
    pub buffer: Seq<u8>,
}

/// The block that a compressed block holds, by
/// `lz4_flex::decompress_size_prepended`.
pub uninterp spec fn lz4_decompressed(block: Seq<u8>) -> Option<Seq<u8>>;

/// Decompresses a block with `lz4_flex::decompress_size_prepended`. A block
/// that cannot be decompressed, also one whose size is given too small, is
/// `None`: the decoder that is built by default answers it with an error.
#[verifier::external_body]
pub(crate) fn decompress(block: &[u8]) -> (data: Option<Vec<u8>>)
    ensures
        crate::event::option_view(data) == lz4_decompressed(block@),
{
    lz4_flex::decompress_size_prepended(block).ok()
}

/// Reads a little-endian number of four bytes with `LittleEndian::read_u32`.
#[verifier::external_body]
fn read_u32(bytes: &[u8]) -> (n: u32)
    requires
        bytes@.len() == 4,
    ensures
        n == spec_u32_from_le_bytes(bytes@),
{
    LittleEndian::read_u32(bytes)
}

/// Reads a little-endian number of eight bytes with `LittleEndian::read_u64`.
#[verifier::external_body]
fn read_u64(bytes: &[u8]) -> (n: u64)
    requires
        bytes@.len() == 8,
    ensures
        n == spec_u64_from_le_bytes(bytes@),
{
    LittleEndian::read_u64(bytes)
}

/// The number in the four bytes at `pos`, if there are four.
pub open spec fn u32_at(data: Seq<u8>, pos: int) -> Option<u32> {
    if 0 <= pos && pos + 4 <= data.len() {
        Some(spec_u32_from_le_bytes(data.subrange(pos, pos + 4)))
    } else {
        None
    }
}

/// The number in the eight bytes at `pos`, if there are eight.
pub open spec fn u64_at(data: Seq<u8>, pos: int) -> Option<u64> {
    if 0 <= pos && pos + 8 <= data.len() {
        Some(spec_u64_from_le_bytes(data.subrange(pos, pos + 8)))
    } else {
        None
    }
}

/// The string at `pos` and where the data goes on behind it.
pub open spec fn string_at(data: Seq<u8>, pos: int) -> Result<(Seq<char>, int), ReaderError> {
    match u32_at(data, pos) {
        None => Err(ReaderError::Io),
        Some(len) => if pos + 4 + len > data.len() {
            Err(ReaderError::Io)
        } else {
            let bytes = data.subrange(pos + 4, pos + 4 + len);
            if valid_utf8(bytes) {
                Ok((decode_utf8(bytes), pos + 4 + len))
            } else {
                Err(ReaderError::Utf8Error)
            }
        },
    }
}

/// The entry at `pos` and where the data goes on behind it: a byte that is 1
/// for the entrypoint, the start and the end of the content, and the name.
pub open spec fn entry_at(data: Seq<u8>, pos: int) -> Result<(EntryView, int), ReaderError> {
    if pos < 0 || pos + 17 > data.len() {
        Err(ReaderError::Io)
    } else {
        match string_at(data, pos + 17) {
            Err(e) => Err(e),
            Ok((name, next)) => Ok(
                (
                    EntryView {
                        entrypoint: data[pos] == 1,
                        name,
                        span: Span {
                            start: u64_at(data, pos + 1)->0,
                            end: u64_at(data, pos + 9)->0,
                        },
                    },
                    next,
                ),
            ),
        }
    }
}

/// The entries from `pos` to the end of the head.
pub open spec fn entries_from(data: Seq<u8>, pos: int, head: int) -> Result<
    Seq<EntryView>,
    ReaderError,
>
    decreases data.len() - pos,
{
    if pos == head {
        Ok(Seq::empty())
    } else if pos > head {
        Err(ReaderError::InvalidHead)
    } else {
        match entry_at(data, pos) {
            Err(e) => Err(e),
            Ok((entry, next)) => if pos < next <= data.len() {
                match entries_from(data, next, head) {
                    Err(e) => Err(e),
                    Ok(rest) => Ok(seq![entry] + rest),
                }
            } else {
                Err(ReaderError::Io)
            },
        }
    }
}

/// What a decompressed bundle holds.
pub open spec fn bundle_of(data: Seq<u8>) -> Result<BundleView, ReaderError> {
    match u32_at(data, 0) {
        None => Err(ReaderError::Io),
        Some(magic) => if magic != MAGIC_BYTE {
            Err(ReaderError::InvalidFormat)
        } else {
            match u64_at(data, 4) {
                None => Err(ReaderError::Io),
                Some(head) => match string_at(data, 12) {
                    Err(e) => Err(e),
                    Ok((name, behind_name)) => match string_at(data, behind_name) {
                        Err(e) => Err(e),
                        Ok((target_ns, behind_ns)) => match entries_from(
                            data,
                            behind_ns,
                            head as int,
                        ) {
                            Err(e) => Err(e),
                            Ok(entries) => Ok(
                                BundleView {
                                    name,
                                    target_ns,
                                    entries,
                                    buffer: data.skip(head as int),
                                },
                            ),
                        },
                    },
                },
            }
        },
    }
}

/// The range of the last entry that is marked as the entrypoint; the empty
/// range at 0 where none is.
pub open spec fn entrypoint_of(entries: Seq<EntryView>) -> Span
    decreases entries.len(),
{
    if entries.len() == 0 {
        Span { start: 0, end: 0 }
    } else if entries.last().entrypoint {
        entries.last().span
    } else {
        entrypoint_of(entries.drop_last())
    }
}

pub open spec fn index_view(index: Seq<IndexEntry>) -> Seq<(Seq<char>, Span)> {
    Seq::new(index.len(), |i: int| (index[i].name@, index[i].span))
}

pub open spec fn entries_index(entries: Seq<EntryView>) -> Seq<(Seq<char>, Span)> {
    Seq::new(entries.len(), |i: int| (entries[i].name, entries[i].span))
}

impl SchemaBundle {
    /// Whether the bundle holds what `view` says.
    pub open spec fn holds(&self, view: BundleView) -> bool {
        &&& self.header.name@ == view.name
        &&& self.header.target_ns@ == view.target_ns
        &&& self.header.entrypoint == entrypoint_of(view.entries)
        &&& index_view(self.header.index@) == entries_index(view.entries)
        &&& self.buffer@ == view.buffer
    }

    /// What a compressed bundle holds.
    pub open spec fn of_slice(block: Seq<u8>) -> Result<BundleView, ReaderError> {
        match lz4_decompressed(block) {
            None => Err(ReaderError::DecompressError),
            Some(data) => bundle_of(data),
        }
    }

    /// The content in a span; `None` for a span that does not lie in the
    /// contents.
    pub open spec fn content(&self, span: Span) -> Option<Seq<u8>> {
        if span.start <= span.end <= self.buffer.len() {
            Some(self.buffer@.subrange(span.start as int, span.end as int))
        } else {
            None
        }
    }

    /// The span of the last of the first `n` entries that has this name.
    pub open spec fn span_of(&self, name: Seq<char>, n: int) -> Option<Span>
        decreases n,
    {
        if n <= 0 {
            None
        } else if self.header.index[n - 1].name@ == name {
            Some(self.header.index[n - 1].span)
        } else {
            self.span_of(name, n - 1)
        }
    }

    /// The content of the schema of this name.
    pub open spec fn resolved(&self, name: Seq<char>) -> Option<Seq<u8>> {
        match self.span_of(name, self.header.index.len() as int) {
            Some(span) => self.content(span),
            None => None,
        }
    }

    pub fn name(&self) -> (name: &str)
        ensures
            name@ == self.header.name@,
    {
        self.header.name.as_str()
    }

    pub fn target_ns(&self) -> (target_ns: &str)
        ensures
            target_ns@ == self.header.target_ns@,
    {
        self.header.target_ns.as_str()
    }

    fn slice(&self, span: Span) -> (content: Option<&[u8]>)
        ensures
            match self.content(span) {
                Some(expected) => content matches Some(c) && c@ == expected,
                None => content is None,
            },
    {
        if span.start <= span.end && span.end <= self.buffer.len() as u64 {
            Some(slice_subrange(self.buffer.as_slice(), span.start as usize, span.end as usize))
        } else {
            None
        }
    }

    /// The content of the schema that the bundle is entered by; nothing
    /// where the head names a range that does not lie in the contents.
    pub fn entry(&self) -> (content: &[u8])
        ensures
            content@ == match self.content(self.header.entrypoint) {
                Some(expected) => expected,
                None => Seq::empty(),
            },
    {
        match self.slice(self.header.entrypoint) {
            Some(content) => content,
            None => slice_subrange(self.buffer.as_slice(), 0, 0),
        }
    }

    /// The content of the schema of this name; of two schemas of one name
    /// the later in the head.
    pub fn find(&self, name: &str) -> (content: Option<&[u8]>)
        ensures
            match self.resolved(name@) {
                Some(expected) => content matches Some(c) && c@ == expected,
                None => content is None,
            },
    {
        let mut n: usize = self.header.index.len();
        while n > 0
            invariant
                n <= self.header.index.len(),
                self.span_of(name@, self.header.index.len() as int) == self.span_of(name@, n as int),
            decreases n,
        {
            let entry = &self.header.index[n - 1];
            if str_eq(entry.name.as_str(), name) {
                return self.slice(entry.span);
            }
            n -= 1;
        }
        None
    }

    /// Reads a bundle.
    pub fn from_slice(b: &[u8]) -> (bundle: ReaderResult<SchemaBundle>)
        ensures
            match SchemaBundle::of_slice(b@) {
                Ok(view) => bundle matches Ok(read) && read.holds(view),
                Err(e) => bundle == Err::<SchemaBundle, ReaderError>(e),
            },
    {
        match decompress(b) {
            None => Err(ReaderError::DecompressError),
            Some(data) => SchemaBundle::from_data(data),
        }
    }

    /// Reads a bundle that is decompressed.
    pub fn from_data(data: Vec<u8>) -> (bundle: ReaderResult<SchemaBundle>)
        ensures
            match bundle_of(data@) {
                Ok(view) => bundle matches Ok(read) && read.holds(view),
                Err(e) => bundle == Err::<SchemaBundle, ReaderError>(e),
            },
    {
        let magic = match take_u32(&data, 0) {
            Some(magic) => magic,
            None => {
                return Err(ReaderError::Io);
            },
        };
        if magic != MAGIC_BYTE {
            return Err(ReaderError::InvalidFormat);
        }
        let head = match take_u64(&data, 4) {
            Some(head) => head,
            None => {
                return Err(ReaderError::Io);
            },
        };
        let (name, behind_name) = match read_string(&data, 12) {
            Ok(read) => read,
            Err(e) => {
                return Err(e);
            },
        };
        let (target_ns, behind_ns) = match read_string(&data, behind_name) {
            Ok(read) => read,
            Err(e) => {
                return Err(e);
            },
        };
        let ghost whole = entries_from(data@, behind_ns as int, head as int);
        let ghost mut read: Seq<EntryView> = Seq::empty();
        let mut index: Vec<IndexEntry> = Vec::new();
        let mut entrypoint = Span { start: 0, end: 0 };
        let mut pos: usize = behind_ns;
        assert(index_view(index@) =~= entries_index(read));
        let ghost expected = match whole {
            Err(e) => Err(e),
            Ok(entries) => Ok(
                BundleView {
                    name: name@,
                    target_ns: target_ns@,
                    entries,
                    buffer: data@.skip(head as int),
                },
            ),
        };
        assert(bundle_of(data@) == expected);
        assert(Seq::<EntryView>::empty() + whole->Ok_0 =~= whole->Ok_0);
        loop
            invariant_except_break
                pos <= data.len(),
                bundle_of(data@) == expected,
                whole is Err ==> expected == Err::<BundleView, ReaderError>(whole->Err_0),
                whole == entries_from(data@, behind_ns as int, head as int),
                whole == match entries_from(data@, pos as int, head as int) {
                    Ok(rest) => Ok(read + rest),
                    Err(e) => Err(e),
                },
                index.len() == read.len(),
                index_view(index@) == entries_index(read),
                entrypoint == entrypoint_of(read),
            ensures
                pos == head,
                pos <= data.len(),
                whole == Ok::<Seq<EntryView>, ReaderError>(read),
                index_view(index@) == entries_index(read),
                entrypoint == entrypoint_of(read),
            decreases data.len() - pos,
        {
            if pos as u64 == head {
                assert(read + Seq::<EntryView>::empty() =~= read);
                break;
            }
            if pos as u64 > head {
                return Err(ReaderError::InvalidHead);
            }
            if data.len() - pos < 17 {
                return Err(ReaderError::Io);
            }
            let flag = data[pos] == 1;
            let start = match take_u64(&data, pos + 1) {
                Some(n) => n,
                None => {
                    return Err(ReaderError::Io);
                },
            };
            let end = match take_u64(&data, pos + 9) {
                Some(n) => n,
                None => {
                    return Err(ReaderError::Io);
                },
            };
            let (name, next) = match read_string(&data, pos + 17) {
                Ok(read) => read,
                Err(e) => {
                    return Err(e);
                },
            };
            let span = Span { start, end };
            if flag {
                entrypoint = span;
            }
            let ghost old_index = index@;
            let ghost old_read = read;
            let ghost entry = EntryView { entrypoint: flag, name: name@, span };
            index.push(IndexEntry { name, span });
            proof {
                let rest = entries_from(data@, next as int, head as int);
                let longer = old_read.push(entry);
                assert(longer.drop_last() =~= old_read);
                if rest is Ok {
                    assert(old_read + (seq![entry] + rest->Ok_0) =~= longer + rest->Ok_0);
                }
                assert forall|i: int| 0 <= i < index@.len() implies index_view(index@)[i]
                    == entries_index(longer)[i] by {
                    if i < old_index.len() {
                        assert(index@[i] == old_index[i]);
                        assert(index_view(old_index)[i] == entries_index(old_read)[i]);
                    }
                }
                assert(index_view(index@) =~= entries_index(longer));
                read = longer;
            }
            pos = next;
        }
        let ghost all = data@;
        let mut data = data;
        let buffer = data.split_off(pos);
        assert(buffer@ =~= all.skip(head as int));
        Ok(SchemaBundle { header: SchemaBundleHeader { entrypoint, name, target_ns, index }, buffer })
    }
}

impl XmlSchemaResolver for SchemaBundle {
    fn entrypoint(&self) -> (content: &[u8])
        ensures
            content@ == match self.content(self.header.entrypoint) {
                Some(expected) => expected,
                None => Seq::empty(),
            },
    {
        self.entry()
    }

    fn resolve(&self, name: &str) -> (content: Option<&[u8]>)
        ensures
            match self.resolved(name@) {
                Some(expected) => content matches Some(c) && c@ == expected,
                None => content is None,
            },
    {
        self.find(name)
    }
}

fn take_u32(data: &Vec<u8>, pos: usize) -> (n: Option<u32>)
    ensures
        n == u32_at(data@, pos as int),
{
    if pos <= data.len() && data.len() - pos >= 4 {
        Some(read_u32(slice_subrange(data.as_slice(), pos, pos + 4)))
    } else {
        None
    }
}

fn take_u64(data: &Vec<u8>, pos: usize) -> (n: Option<u64>)
    ensures
        n == u64_at(data@, pos as int),
{
    if pos <= data.len() && data.len() - pos >= 8 {
        Some(read_u64(slice_subrange(data.as_slice(), pos, pos + 8)))
    } else {
        None
    }
}

/// Reads the string at `pos`.
fn read_string(data: &Vec<u8>, pos: usize) -> (read: ReaderResult<(String, usize)>)
    ensures
        match string_at(data@, pos as int) {
            Ok((text, next)) => read matches Ok((s, n)) && s@ == text && n == next && pos < n
                <= data.len(),
            Err(e) => read == Err::<(String, usize), ReaderError>(e),
        },
{
    let len = match take_u32(data, pos) {
        Some(len) => len as usize,
        None => {
            return Err(ReaderError::Io);
        },
    };
    if data.len() - pos - 4 < len {
        return Err(ReaderError::Io);
    }
    let bytes = slice_subrange(data.as_slice(), pos + 4, pos + 4 + len);
    let mut buf: Vec<u8> = Vec::new();
    crate::text::append_bytes(&mut buf, bytes);
    assert(buf@ =~= bytes@);
    match string_from_utf8(buf) {
        Some(text) => Ok((text, pos + 4 + len)),
        None => Err(ReaderError::Utf8Error),
    }
}

} // verus!
