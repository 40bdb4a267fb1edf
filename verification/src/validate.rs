//! What validation against a schema reports.

use crate::event::{
    document_events, next_event, open_reader, pending_events, EventKind, RawEventView,
};
use crate::event::is_utf8;
use crate::text::{
    append_bytes, bytes_eq, copy_bytes, copy_range, first_index, lemma_first_index_is, local_name,
    local_part, strip, stripped,
};
use vstd::prelude::*;
use vstd::utf8::valid_utf8;

verus! {

/// How grave a finding is.
#[derive(Debug, Clone, Copy, PartialEq, Eq, Structural)]
pub enum ErrorLevel {
    Unset,
    Warning,
    Error,
    Fatal,
}

impl ErrorLevel {
    pub open spec fn of_code(code: int) -> ErrorLevel {
        if code == 1 {
            ErrorLevel::Warning
        } else if code == 2 {
            ErrorLevel::Error
        } else if code == 3 {
            ErrorLevel::Fatal
        } else {
            ErrorLevel::Unset
        }
    }

    /// The level that the validator's number stands for: 1 a warning, 2 an
    /// error, 3 a fatal error, any other number none.
    pub fn from_code(code: i32) -> (level: ErrorLevel)
        ensures
            level == ErrorLevel::of_code(code as int),
    {
        match code {
            1 => ErrorLevel::Warning,
            2 => ErrorLevel::Error,
            3 => ErrorLevel::Fatal,
            _ => ErrorLevel::Unset,
        }
    }
}

/// One finding of the validator.
#[derive(Debug)]
pub struct XmlValidationErrorEntry {
    pub message: String,
    pub line: i32,
    pub level: ErrorLevel,
}

/// The findings of one validation.
#[derive(Debug)]
pub struct XmlValidationError {
    pub errors: Vec<XmlValidationErrorEntry>,
}

impl Default for XmlValidationError {
    fn default() -> (error: XmlValidationError)
        ensures
            error.errors@.len() == 0,
    {
        XmlValidationError { errors: Vec::new() }
    }
}

/// Why a document could not be validated, or did not pass.
#[derive(Debug)]
pub enum ValidationError {
    /// The validator is in use and cannot be locked.
    Lock,
    /// The root element names no schema location.
    NoSchemaLocation,
    /// No schema is registered under this location.
    SchemaNotFound(Vec<u8>),
    /// The validator failed.
    Internal,
    /// The document does not keep the schema.
    Validation(XmlValidationError),
}

pub type ValidationResult<T> = Result<T, ValidationError>;

/// The mark that the validator is set up.
pub struct InitState;

impl InitState {
    pub fn get(&self) -> (ready: bool)
        ensures
            ready,
    {
        true
    }
}

/// What the validator's return code says of a document: 0 that it passed, a
/// negative number that the validator failed, a positive one that the
/// document has the findings collected.
pub fn validation_outcome(code: i32, findings: XmlValidationError) -> (outcome: ValidationResult<()>)
    ensures
        code == 0 ==> outcome is Ok,
        code < 0 ==> outcome matches Err(ValidationError::Internal),
        code > 0 ==> (outcome matches Err(ValidationError::Validation(f)) && f == findings),
{
    if code == 0 {
        Ok(())
    } else if code < 0 {
        Err(ValidationError::Internal)
    } else {
        Err(ValidationError::Validation(findings))
    }
}


/// How far the validator has read a schema that is handed to it in pieces.
#[derive(Debug, Clone, Copy)]
pub struct ReadCtx {
    /// The bytes that are still to be handed out.
    pub remaining_length: i32,
    /// The bytes that were handed out.
    pub offset: isize,
}

impl ReadCtx {
    /// Nothing is counted twice: what was handed out and what remains make
    /// up a length that a C `int` holds.
    pub open spec fn wf(&self) -> bool {
        0 <= self.remaining_length && 0 <= self.offset && self.offset + self.remaining_length
            <= i32::MAX
    }

    /// The reading of a schema of `len` bytes, before anything is handed out.
    pub fn new(len: i32) -> (ctx: ReadCtx)
        requires
            len >= 0,
        ensures
            ctx.wf(),
            ctx.remaining_length == len,
            ctx.offset == 0,
    {
        ReadCtx { remaining_length: len, offset: 0 }
    }

    /// Takes the next piece of at most `len` bytes: returns its length, which
    /// is `len` or what remains if that is less, and counts it as handed out.
    pub fn advance(&mut self, len: i32) -> (taken: i32)
        requires
            old(self).wf(),
            len >= 0,
        ensures
            final(self).wf(),
            taken == if len > old(self).remaining_length {
                old(self).remaining_length
            } else {
                len
            },
            final(self).remaining_length == old(self).remaining_length - taken,
            final(self).offset == old(self).offset + taken,
    {
        let mut taken = len;
        if taken > self.remaining_length {
            taken = self.remaining_length;
        }
        self.remaining_length -= taken;
        self.offset += taken as isize;
        taken
    }
}

/// The name under which the schema of a bundle is registered: the target
/// namespace, a space, and the name of the bundle.
pub fn schema_location_key(target_ns: &[u8], name: &[u8]) -> (key: Vec<u8>)
    ensures
        key@ == target_ns@ + seq![0x20u8] + name@,
{
    let mut key = copy_bytes(target_ns);
    key.push(0x20);
    append_bytes(&mut key, name);
    key
}

/// The last component of a path, as `Path::file_name` gives it. What
/// counts as a separator is decided by the platform the library is built for.
pub uninterp spec fn file_name_of(path: Seq<u8>) -> Option<Seq<u8>>;

/// Takes the last component of a path with `Path::file_name`.
#[verifier::external_body]
pub(crate) fn file_name(path: &[u8]) -> (name: Option<Vec<u8>>)
    requires
        valid_utf8(path@),
    ensures
        crate::event::option_view(name) == file_name_of(path@),
{
    let path = std::path::Path::new(std::str::from_utf8(path).unwrap());
    path.file_name().map(|name| name.to_str().unwrap().as_bytes().to_vec())
}

/// The bytes `schemaLocation`.
pub open spec fn schema_location_name() -> Seq<u8> {
    seq![
        0x73u8, 0x63u8, 0x68u8, 0x65u8, 0x6du8, 0x61u8, 0x4cu8, 0x6fu8, 0x63u8, 0x61u8, 0x74u8,
        0x69u8, 0x6fu8, 0x6eu8,
    ]
}

/// The bytes `noNamespaceSchemaLocation`.
pub open spec fn no_namespace_schema_location_name() -> Seq<u8> {
    seq![
        0x6eu8, 0x6fu8, 0x4eu8, 0x61u8, 0x6du8, 0x65u8, 0x73u8, 0x70u8, 0x61u8, 0x63u8, 0x65u8,
        0x53u8, 0x63u8, 0x68u8, 0x65u8, 0x6du8, 0x61u8, 0x4cu8, 0x6fu8, 0x63u8, 0x61u8, 0x74u8,
        0x69u8, 0x6fu8, 0x6eu8,
    ]
}

/// Whether an attribute of this name says where the schema is.
pub open spec fn names_location(key: Seq<u8>) -> bool {
    local_part(key) == schema_location_name() || local_part(key)
        == no_namespace_schema_location_name()
}

/// The attributes of the first opening tag at or behind `k`.
pub open spec fn first_start(events: Seq<RawEventView>, k: int) -> Option<
    Seq<Option<(Seq<u8>, Seq<u8>)>>,
>
    decreases events.len() - k,
{
    if k < 0 || k >= events.len() {
        None
    } else if events[k].kind == EventKind::Start {
        Some(events[k].attributes)
    } else if events[k].kind == EventKind::Eof || events[k].kind == EventKind::Malformed {
        None
    } else {
        first_start(events, k + 1)
    }
}

/// The value of the first attribute at or behind `k` that says where the
/// schema is and whose value is UTF-8.
pub open spec fn find_location(attributes: Seq<Option<(Seq<u8>, Seq<u8>)>>, k: int) -> Option<
    Seq<u8>,
>
    decreases attributes.len() - k,
{
    if k < 0 || k >= attributes.len() {
        None
    } else {
        match attributes[k] {
            Some((key, value)) => if names_location(key) && valid_utf8(value) {
                Some(value)
            } else {
                find_location(attributes, k + 1)
            },
            None => find_location(attributes, k + 1),
        }
    }
}

/// The schema location that the first opening tag of a document names, as
/// it stands there.
pub open spec fn root_schema_location(doc: Seq<u8>) -> Option<Seq<u8>> {
    match first_start(document_events(doc), 0) {
        Some(attributes) => find_location(attributes, 0),
        None => None,
    }
}

/// A schema location as schemas are registered under it: of a namespace and
/// a path with a space between them, the namespace without the white space
/// around it and the last component of the path. A location without a space,
/// or whose path has no last component, stays as it is.
pub open spec fn normalized_location(location: Seq<u8>) -> Seq<u8> {
    let space = first_index(location, |b: u8| b == 0x20);
    if space < location.len() {
        let path = location.skip(space as int + 1);
        if valid_utf8(path) {
            match file_name_of(path) {
                Some(name) => stripped(location.take(space as int)) + seq![0x20u8] + name,
                None => location,
            }
        } else {
            location
        }
    } else {
        location
    }
}

fn names_location_exec(key: &[u8]) -> (names: bool)
    ensures
        names == names_location(key@),
{
    let local = local_name(key);
    let schema_location: [u8; 14] = [
        0x73, 0x63, 0x68, 0x65, 0x6d, 0x61, 0x4c, 0x6f, 0x63, 0x61, 0x74, 0x69, 0x6f, 0x6e,
    ];
    let no_namespace: [u8; 25] = [
        0x6e, 0x6f, 0x4e, 0x61, 0x6d, 0x65, 0x73, 0x70, 0x61, 0x63, 0x65, 0x53, 0x63, 0x68, 0x65,
        0x6d, 0x61, 0x4c, 0x6f, 0x63, 0x61, 0x74, 0x69, 0x6f, 0x6e,
    ];
    assert(schema_location@ =~= schema_location_name());
    assert(no_namespace@ =~= no_namespace_schema_location_name());
    bytes_eq(local.as_slice(), schema_location.as_slice()) || bytes_eq(
        local.as_slice(),
        no_namespace.as_slice(),
    )
}

/// Brings a schema location into the form under which schemas are
/// registered.
pub fn normalize_location(location: Vec<u8>) -> (normal: Vec<u8>)
    ensures
        normal@ == normalized_location(location@),
{
    let mut space: usize = 0;
    while space < location.len() && location[space] != 0x20
        invariant
            space <= location.len(),
            forall|j: int| 0 <= j < space ==> #[trigger] location@[j] != 0x20,
        decreases location.len() - space,
    {
        space += 1;
    }
    proof {
        lemma_first_index_is(location@, |b: u8| b == 0x20, space as nat);
    }
    if space >= location.len() {
        return location;
    }
    let path = copy_range(location.as_slice(), space + 1, location.len());
    assert(path@ =~= location@.skip(space as int + 1));
    if !is_utf8(path.as_slice()) {
        return location;
    }
    match file_name(path.as_slice()) {
        None => location,
        Some(name) => {
            let namespace = copy_range(location.as_slice(), 0, space);
            assert(namespace@ =~= location@.take(space as int));
            let mut normal = strip(namespace.as_slice());
            normal.push(0x20);
            append_bytes(&mut normal, name.as_slice());
            normal
        },
    }
}

/// Finds the schema location that the root element of a document names.
pub fn find_root_xsi_schema_location(xml: &[u8]) -> (location: Result<Vec<u8>, ValidationError>)
    ensures
        match root_schema_location(xml@) {
            Some(found) => location matches Ok(l) && l@ == normalized_location(found),
            None => location matches Err(ValidationError::NoSchemaLocation),
        },
{
    let mut reader = open_reader(xml);
    let ghost whole = first_start(document_events(xml@), 0);
    let mut found: Option<Vec<Option<(Vec<u8>, Vec<u8>)>>> = None;
    let ghost mut k: int = 0;
    assert(document_events(xml@).skip(0) =~= document_events(xml@));
    loop
        invariant_except_break
            found is None,
            whole == first_start(document_events(xml@), 0),
            0 <= k <= document_events(xml@).len(),
            pending_events(reader) == document_events(xml@).skip(k),
            whole == first_start(document_events(xml@), k),
        ensures
            match found {
                Some(attributes) => whole == Some(attributes.deep_view()),
                None => whole is None,
            },
        decreases pending_events(reader).len(),
    {
        let event = next_event(&mut reader);
        proof {
            assert(document_events(xml@).skip(k).len() > 0);
            assert(document_events(xml@).skip(k)[0] == document_events(xml@)[k]);
        }
        match event.kind {
            EventKind::Start => {
                found = Some(event.attributes);
                break;
            },
            EventKind::Eof => {
                break;
            },
            EventKind::Malformed => {
                break;
            },
            _ => {
                proof {
                    assert(document_events(xml@).skip(k).skip(1) =~= document_events(xml@).skip(
                        k + 1,
                    ));
                    k = k + 1;
                }
            },
        }
    }
    let attributes = match found {
        Some(attributes) => attributes,
        None => {
            return Err(ValidationError::NoSchemaLocation);
        },
    };
    let ghost listed = attributes.deep_view();
    let mut k: usize = 0;
    while k < attributes.len()
        invariant
            k <= attributes.len(),
            attributes.deep_view() == listed,
            root_schema_location(xml@) == find_location(listed, 0),
            find_location(listed, 0) == find_location(listed, k as int),
        decreases attributes.len() - k,
    {
        match &attributes[k] {
            Some(pair) => {
                assert(pair.0.deep_view() =~= pair.0@);
                assert(pair.1.deep_view() =~= pair.1@);
                if names_location_exec(pair.0.as_slice()) && is_utf8(pair.1.as_slice()) {
                    return Ok(normalize_location(copy_bytes(pair.1.as_slice())));
                }
            },
            None => {},
        }
        k += 1;
    }
    Err(ValidationError::NoSchemaLocation)
}

} // verus!
