//! Collecting the schemas of a bundle: from the schema that is registered,
//! along its imports and includes, to every schema it builds on.
//!
//! Getting the content of a schema is the caller's part. The caller asks
//! `Collection::next` for the schema to get, gets its content, hands it to
//! `Collection::collect`, and goes on until nothing is left to get.

use crate::de::XmlDeserializeError;
use crate::descriptor::Bindings;
use crate::ser::string_from_utf8;
use crate::symbol::str_eq;
use crate::writer::{
    create_filepath, joined_path, parent_path, resolved_url, url_of, NamedEntry, SchemaEntry,
    SchemaLocation, WriterError,
};
use crate::xsd::{locations_view, Xsd, XsdImportOrInclude};
use vstd::prelude::*;
use vstd::utf8::{decode_utf8, encode_utf8, valid_utf8};

verus! {

/// Why a bundle could not be built.
#[derive(Debug, PartialEq, Eq)]
pub enum BuildError {
    Fmt,
    Io,
    WriterError(WriterError),
    XmlDeserialize(XmlDeserializeError),
}

pub type BuildResult<T> = Result<T, BuildError>;

/// A schema that is to be collected, or was.
#[derive(Debug)]
pub struct Schema {
    /// Whether the bundle is entered by this schema.
    pub entrypoint: bool,
    pub location: SchemaLocation,
    pub content: String,
    /// The file that the bundle is written to, where that is given.
    pub filename: Option<String>,
}

/// The state of collecting the schemas of one bundle.
#[derive(Debug)]
pub struct Collection {
    /// The location of the schema that was collected last; references are
    /// resolved against it.
    pub root: SchemaLocation,
    /// The schemas that were collected, in the order in which they were.
    pub schemas: Vec<(SchemaLocation, SchemaEntry)>,
    /// The schemas that are still to be got; the last is got next.
    pub pending: Vec<Schema>,
    /// The file that the bundle is written to, once the entrypoint is collected.
    pub filepath: Option<String>,
    /// How many schemas were collected.
    pub counter: usize,
}

pub open spec fn same_location(a: SchemaLocation, b: SchemaLocation) -> bool {
    match (a, b) {
        (SchemaLocation::Path(x), SchemaLocation::Path(y)) => x@ == y@,
        (SchemaLocation::Url(x), SchemaLocation::Url(y)) => x@ == y@,
        _ => false,
    }
}

/// Whether a schema of this location is among the first `n` collected.
pub open spec fn is_collected(
    schemas: Seq<(SchemaLocation, SchemaEntry)>,
    location: SchemaLocation,
    n: int,
) -> bool
    decreases n,
{
    if n <= 0 {
        false
    } else {
        same_location(schemas[n - 1].0, location) || is_collected(schemas, location, n - 1)
    }
}

/// The place of the schema of this location among the first `n` collected.
pub open spec fn found_at(
    schemas: Seq<(SchemaLocation, SchemaEntry)>,
    location: SchemaLocation,
    n: int,
) -> Option<int>
    decreases n,
{
    if n <= 0 {
        None
    } else if same_location(schemas[n - 1].0, location) {
        Some(n - 1)
    } else {
        found_at(schemas, location, n - 1)
    }
}

/// Whether no location occurs twice among the schemas.
pub open spec fn no_location_twice(schemas: Seq<(SchemaLocation, SchemaEntry)>) -> bool {
    forall|i: int, j: int|
        0 <= i < j < schemas.len() ==> !same_location(
            (#[trigger] schemas[i]).0,
            (#[trigger] schemas[j]).0,
        )
}

/// Whether an entry is what collecting `schema` makes, for a target
/// namespace of these bytes.
pub open spec fn entry_of(entry: SchemaEntry, schema: Schema, tns: Seq<u8>) -> bool {
    &&& entry.entrypoint == schema.entrypoint
    &&& entry.content == schema.content
    &&& entry.target_namespace@ == decode_utf8(tns)
}

proof fn lemma_found_at(schemas: Seq<(SchemaLocation, SchemaEntry)>, location: SchemaLocation, n: int)
    requires
        0 <= n <= schemas.len(),
    ensures
        match found_at(schemas, location, n) {
            Some(i) => 0 <= i < n && same_location(schemas[i].0, location),
            None => forall|i: int| 0 <= i < n ==> !same_location((#[trigger] schemas[i]).0, location),
        },
    decreases n,
{
    if n > 0 && !same_location(schemas[n - 1].0, location) {
        lemma_found_at(schemas, location, n - 1);
    }
}

/// The last of the first `n` pending schemas that is not collected yet.
pub open spec fn last_open(
    pending: Seq<Schema>,
    schemas: Seq<(SchemaLocation, SchemaEntry)>,
    n: int,
) -> Option<int>
    decreases n,
{
    if n <= 0 {
        None
    } else if !is_collected(schemas, pending[n - 1].location, schemas.len() as int) {
        Some(n - 1)
    } else {
        last_open(pending, schemas, n - 1)
    }
}

/// The location that a reference stands for when it is met in the schema at
/// `root`: a reference that begins with `http` is a URL, which it must then
/// be; any other is resolved against `root`, and is a path of its own where
/// that cannot be done.
pub open spec fn resolved(root: SchemaLocation, reference: Seq<char>) -> Result<
    (bool, Seq<char>),
    WriterError,
> {
    if SchemaLocation::begins_with_http(reference) {
        match url_of(reference) {
            Some(url) => Ok((true, url)),
            None => Err(WriterError::UrlParse),
        }
    } else {
        match root {
            SchemaLocation::Url(base) => match resolved_url(base@, reference) {
                Some(url) => Ok((true, url)),
                None => Ok((false, reference)),
            },
            SchemaLocation::Path(path) => Ok(
                (
                    false,
                    joined_path(
                        match parent_path(path@) {
                            Some(dir) => dir,
                            None => Seq::empty(),
                        },
                        reference,
                    ),
                ),
            ),
        }
    }
}

pub open spec fn location_view(location: SchemaLocation) -> (bool, Seq<char>) {
    match location {
        SchemaLocation::Url(url) => (true, url@),
        SchemaLocation::Path(path) => (false, path@),
    }
}

fn same_location_exec(a: &SchemaLocation, b: &SchemaLocation) -> (same: bool)
    ensures
        same == same_location(*a, *b),
{
    match a {
        SchemaLocation::Path(x) => match b {
            SchemaLocation::Path(y) => str_eq(x.as_str(), y.as_str()),
            SchemaLocation::Url(_) => false,
        },
        SchemaLocation::Url(x) => match b {
            SchemaLocation::Url(y) => str_eq(x.as_str(), y.as_str()),
            SchemaLocation::Path(_) => false,
        },
    }
}

fn copy_location(location: &SchemaLocation) -> (copy: SchemaLocation)
    ensures
        location_view(copy) == location_view(*location),
        same_location(copy, *location),
{
    match location {
        SchemaLocation::Path(path) => SchemaLocation::Path(path.as_str().to_owned()),
        SchemaLocation::Url(url) => SchemaLocation::Url(url.as_str().to_owned()),
    }
}

fn resolve(root: &SchemaLocation, reference: &str) -> (location: Result<
    SchemaLocation,
    WriterError,
>)
    ensures
        match resolved(*root, reference@) {
            Ok(expected) => location matches Ok(l) && location_view(l) == expected,
            Err(e) => location == Err::<SchemaLocation, WriterError>(e),
        },
{
    match SchemaLocation::from_str(reference) {
        Err(e) => Err(e),
        Ok(SchemaLocation::Url(url)) => Ok(SchemaLocation::Url(url)),
        Ok(SchemaLocation::Path(own)) => match root.try_join(reference) {
            Ok(joined) => Ok(joined),
            Err(_) => Ok(SchemaLocation::Path(own)),
        },
    }
}

impl Schema {
    /// The schema that a bundle is entered by, by the URL or path it is
    /// registered under.
    pub fn register(url_or_path: &str) -> (schema: Result<Schema, WriterError>)
        ensures
            match schema {
                Ok(s) => s.entrypoint && s.filename is None && s.content@.len() == 0 && (
                SchemaLocation::from_str_spec(url_or_path@) == Ok::<(bool, Seq<char>), WriterError>(
                    location_view(s.location),
                )),
                Err(e) => SchemaLocation::from_str_spec(url_or_path@) == Err::<
                    (bool, Seq<char>),
                    WriterError,
                >(e),
            },
    {
        match SchemaLocation::from_str(url_or_path) {
            Ok(location) => Ok(
                Schema { entrypoint: true, location, content: String::new(), filename: None },
            ),
            Err(e) => Err(e),
        }
    }

    /// The same with the file that the bundle is written to.
    pub fn register_with_filename(url_or_path: &str, filename: &str) -> (schema: Result<
        Schema,
        WriterError,
    >)
        ensures
            match schema {
                Ok(s) => s.entrypoint && s.filename is Some && s.filename->0@ == filename@
                    && s.content@.len() == 0 && (
                SchemaLocation::from_str_spec(url_or_path@) == Ok::<(bool, Seq<char>), WriterError>(
                    location_view(s.location),
                )),
                Err(e) => SchemaLocation::from_str_spec(url_or_path@) == Err::<
                    (bool, Seq<char>),
                    WriterError,
                >(e),
            },
    {
        match SchemaLocation::from_str(url_or_path) {
            Ok(location) => Ok(
                Schema {
                    entrypoint: true,
                    location,
                    content: String::new(),
                    filename: Some(filename.to_owned()),
                },
            ),
            Err(e) => Err(e),
        }
    }
}

impl SchemaLocation {
    /// The location that text names, as `from_str` gives it.
    pub open spec fn from_str_spec(s: Seq<char>) -> Result<(bool, Seq<char>), WriterError> {
        if SchemaLocation::begins_with_http(s) {
            match url_of(s) {
                Some(url) => Ok((true, url)),
                None => Err(WriterError::UrlParse),
            }
        } else {
            Ok((false, s))
        }
    }
}

impl Collection {
    /// The collection that begins with the schema that is registered.
    pub fn new(input: Schema) -> (collection: Collection)
        ensures
            location_view(collection.root) == location_view(input.location),
            collection.schemas@.len() == 0,
            collection.pending@ == seq![input],
            collection.filepath is None,
            collection.counter == 0,
            collection.wf(),
    {
        let root = copy_location(&input.location);
        let mut pending: Vec<Schema> = Vec::new();
        pending.push(input);
        Collection { root, schemas: Vec::new(), pending, filepath: None, counter: 0 }
    }

    /// The collection is valid: no location occurs twice among the schemas
    /// that were collected.
    pub open spec fn wf(&self) -> bool {
        no_location_twice(self.schemas@)
    }

    fn place(&self, location: &SchemaLocation) -> (place: Option<usize>)
        ensures
            match place {
                Some(i) => found_at(self.schemas@, *location, self.schemas.len() as int) == Some(
                    i as int,
                ) && i < self.schemas.len(),
                None => found_at(self.schemas@, *location, self.schemas.len() as int) is None,
            },
    {
        let mut n: usize = self.schemas.len();
        while n > 0
            invariant
                n <= self.schemas.len(),
                found_at(self.schemas@, *location, self.schemas.len() as int) == found_at(
                    self.schemas@,
                    *location,
                    n as int,
                ),
            decreases n,
        {
            if same_location_exec(&self.schemas[n - 1].0, location) {
                return Some(n - 1);
            }
            n -= 1;
        }
        None
    }

    fn has(&self, location: &SchemaLocation) -> (has: bool)
        ensures
            has == is_collected(self.schemas@, *location, self.schemas.len() as int),
    {
        let mut n: usize = self.schemas.len();
        while n > 0
            invariant
                n <= self.schemas.len(),
                is_collected(self.schemas@, *location, self.schemas.len() as int) == is_collected(
                    self.schemas@,
                    *location,
                    n as int,
                ),
            decreases n,
        {
            if same_location_exec(&self.schemas[n - 1].0, location) {
                return true;
            }
            n -= 1;
        }
        false
    }

    /// The schema to get next: the last of the pending schemas that is not
    /// collected yet. It and the schemas behind it are pending no longer.
    /// `None` says that the collection is complete.
    pub fn next(&mut self) -> (schema: Option<Schema>)
        ensures
            final(self).root == old(self).root,
            final(self).schemas == old(self).schemas,
            final(self).filepath == old(self).filepath,
            final(self).counter == old(self).counter,
            match last_open(old(self).pending@, old(self).schemas@, old(self).pending.len() as int) {
                Some(i) => schema == Some(old(self).pending[i]) && final(self).pending@ == old(self).pending@.take(i),
                None => schema is None && final(self).pending@.len() == 0,
            },
    {
        loop
            invariant
                self.root == old(self).root,
                self.schemas == old(self).schemas,
                self.filepath == old(self).filepath,
                self.counter == old(self).counter,
                self.pending.len() <= old(self).pending.len(),
                self.pending@ == old(self).pending@.take(self.pending.len() as int),
                last_open(old(self).pending@, old(self).schemas@, old(self).pending.len() as int)
                    == last_open(
                    old(self).pending@,
                    old(self).schemas@,
                    self.pending.len() as int,
                ),
            decreases self.pending.len(),
        {
            let ghost before = self.pending@;
            match self.pending.pop() {
                None => {
                    return None;
                },
                Some(schema) => {
                    assert(schema == old(self).pending[self.pending.len() as int]);
                    assert(self.pending@ =~= old(self).pending@.take(self.pending.len() as int));
                    if !self.has(&schema.location) {
                        return Some(schema);
                    }
                },
            }
        }
    }

    /// The schemas as they go into the bundle, in the order in which they
    /// were collected, each under the name of its location; the error of the
    /// first location that has no name.
    pub fn entries(self) -> (entries: Result<Vec<NamedEntry>, WriterError>)
        ensures
            match names_from(self.schemas@, 0) {
                Ok(names) => {
                    &&& entries matches Ok(named)
                    &&& named.len() == self.schemas.len()
                    &&& forall|i: int|
                        0 <= i < named.len() ==> (#[trigger] named[i]).name@ == names[i]
                            && named[i].entry == self.schemas[i].1
                },
                Err(e) => entries == Err::<Vec<NamedEntry>, WriterError>(e),
            },
    {
        let ghost whole = names_from(self.schemas@, 0);
        let ghost all = self.schemas@;
        let ghost mut seen: Seq<Seq<char>> = Seq::empty();
        let mut named: Vec<NamedEntry> = Vec::new();
        let mut schemas = self.schemas;
        assert(all.skip(0) =~= all);
        while schemas.len() > 0
            invariant
                named.len() + schemas.len() == all.len(),
                all == self.schemas@,
                schemas@ == all.skip(named.len() as int),
                seen.len() == named.len(),
                whole == names_from(all, 0),
                whole == match names_from(all, named.len() as int) {
                    Ok(rest) => Ok(seen + rest),
                    Err(e) => Err(e),
                },
                forall|i: int|
                    0 <= i < named.len() ==> (#[trigger] named[i]).name@ == seen[i]
                        && named[i].entry == all[i].1,
            decreases schemas.len(),
        {
            let ghost k = named.len() as int;
            let ghost before = named@;
            let (location, entry) = schemas.remove(0);
            assert(location == all[k].0 && entry == all[k].1);
            assert(schemas@ =~= all.skip(k + 1));
            match location.entry_name() {
                Ok(name) => {
                    proof {
                        let rest = names_from(all, k + 1);
                        let longer = seen.push(name@);
                        if rest is Ok {
                            assert(seen + (seq![name@] + rest->Ok_0) =~= longer + rest->Ok_0);
                        }
                        seen = longer;
                    }
                    named.push(NamedEntry { name, entry });
                    assert forall|i: int| 0 <= i < named.len() implies (#[trigger] named[i]).name@
                        == seen[i] && named[i].entry == all[i].1 by {
                        if i < k {
                            assert(named[i] == before[i]);
                        }
                    }
                },
                Err(e) => {
                    return Err(e);
                },
            }
        }
        proof {
            assert(seen + Seq::<Seq<char>>::empty() =~= seen);
        }
        Ok(named)
    }
}

/// The names of the locations of the schemas at and behind `k`, or the
/// error of the first that has none.
pub open spec fn names_from(schemas: Seq<(SchemaLocation, SchemaEntry)>, k: int) -> Result<
    Seq<Seq<char>>,
    WriterError,
>
    decreases schemas.len() - k,
{
    if k < 0 || k >= schemas.len() {
        Ok(Seq::empty())
    } else {
        match schemas[k].0.name() {
            Err(e) => Err(e),
            Ok(first) => match names_from(schemas, k + 1) {
                Err(e) => Err(e),
                Ok(rest) => Ok(seq![first] + rest),
            },
        }
    }
}

/// The locations that the references at and behind `k` stand for when they
/// are met in the schema at `root`, or the first error among them:
/// `Utf8Error` for a reference that is not UTF-8.
pub open spec fn references_resolved(root: SchemaLocation, references: Seq<Seq<u8>>, k: int) -> Result<
    Seq<(bool, Seq<char>)>,
    WriterError,
>
    decreases references.len() - k,
{
    if k < 0 || k >= references.len() {
        Ok(Seq::empty())
    } else if !valid_utf8(references[k]) {
        Err(WriterError::Utf8Error)
    } else {
        match resolved(root, decode_utf8(references[k])) {
            Err(e) => Err(e),
            Ok(first) => match references_resolved(root, references, k + 1) {
                Err(e) => Err(e),
                Ok(rest) => Ok(seq![first] + rest),
            },
        }
    }
}

/// Whether `schema` is pending as a schema that another builds on: it is
/// no entrypoint, has no content yet and no file, and comes from `location`.
pub open spec fn is_reference(schema: Schema, location: (bool, Seq<char>)) -> bool {
    &&& !schema.entrypoint
    &&& schema.filename is None
    &&& schema.content@.len() == 0
    &&& location_view(schema.location) == location
}

/// What collecting a schema adds to what is pending: the schemas that it
/// imports, then those that it includes.
pub open spec fn found_references(root: SchemaLocation, xsd: (Seq<u8>, Seq<Seq<u8>>, Seq<Seq<u8>>)) -> Result<
    Seq<(bool, Seq<char>)>,
    WriterError,
> {
    if !valid_utf8(xsd.0) {
        Err(WriterError::Utf8Error)
    } else {
        references_resolved(root, xsd.2 + xsd.1, 0)
    }
}

fn resolve_all(root: &SchemaLocation, list: &Vec<XsdImportOrInclude>, found: &mut Vec<Schema>) -> (done:
    Result<(), WriterError>)
    ensures
        match references_resolved(*root, locations_view(list@), 0) {
            Ok(locations) => {
                &&& done is Ok
                &&& final(found)@.len() == old(found)@.len() + locations.len()
                &&& final(found)@.take(old(found)@.len() as int) == old(found)@
                &&& forall|i: int|
                    0 <= i < locations.len() ==> is_reference(
                        #[trigger] final(found)@[old(found)@.len() + i],
                        locations[i],
                    )
            },
            Err(e) => done == Err::<(), WriterError>(e),
        },
{
    let ghost whole = references_resolved(*root, locations_view(list@), 0);
    let ghost mut seen: Seq<(bool, Seq<char>)> = Seq::empty();
    let mut k: usize = 0;
    assert(found@.take(old(found)@.len() as int) =~= old(found)@);
    while k < list.len()
        invariant
            k <= list.len(),
            whole == references_resolved(*root, locations_view(list@), 0),
            whole == match references_resolved(*root, locations_view(list@), k as int) {
                Ok(rest) => Ok(seen + rest),
                Err(e) => Err(e),
            },
            found@.len() == old(found)@.len() + seen.len(),
            found@.take(old(found)@.len() as int) == old(found)@,
            forall|i: int|
                0 <= i < seen.len() ==> is_reference(
                    #[trigger] found@[old(found)@.len() + i],
                    seen[i],
                ),
        decreases list.len() - k,
    {
        let ghost before = found@;
        let mut bytes: Vec<u8> = Vec::new();
        crate::text::append_bytes(&mut bytes, list[k].schema_location.as_slice());
        assert(bytes@ =~= locations_view(list@)[k as int]);
        let reference = match string_from_utf8(bytes) {
            Some(reference) => reference,
            None => {
                return Err(WriterError::Utf8Error);
            },
        };
        let location = match resolve(root, reference.as_str()) {
            Ok(location) => location,
            Err(e) => {
                return Err(e);
            },
        };
        let ghost first = location_view(location);
        let schema = Schema { entrypoint: false, location, content: String::new(), filename: None };
        found.push(schema);
        proof {
            let rest = references_resolved(*root, locations_view(list@), k + 1);
            let longer = seen.push(first);
            if rest is Ok {
                assert(seen + (seq![first] + rest->Ok_0) =~= longer + rest->Ok_0);
            }
            assert(found@.take(old(found)@.len() as int) =~= before.take(old(found)@.len() as int));
            assert forall|i: int| 0 <= i < longer.len() implies is_reference(
                #[trigger] found@[old(found)@.len() + i],
                longer[i],
            ) by {
                if i < seen.len() {
                    assert(found@[old(found)@.len() + i] == before[old(found)@.len() + i]);
                }
            }
            seen = longer;
        }
        k += 1;
    }
    proof {
        assert(seen + Seq::<(bool, Seq<char>)>::empty() =~= seen);
    }
    Ok(())
}

impl Collection {
    /// Collects a schema whose content was got: reads what it imports and
    /// includes, by the bindings of `table`, and puts those schemas among the
    /// pending ones, each at the location that its reference stands for when
    /// met in the schema that was collected before. The entrypoint decides the
    /// file of the bundle: the file it was registered with, or else the file
    /// for its target namespace in `out_dir`.
    ///
    /// A schema of a location that was collected before takes the place of
    /// that schema; any other is the last of the collected. So a valid
    /// collection stays valid.
    ///
    /// On an error the collection stays as it was.
    pub fn collect(&mut self, schema: Schema, table: &Bindings, out_dir: &str) -> (done: BuildResult<
        (),
    >)
        ensures
            old(self).wf() ==> final(self).wf(),
            match Xsd::of_document(table, encode_utf8(schema.content@)) {
                Err(e) => done matches Err(BuildError::XmlDeserialize(got)) && got.deep_view() == e
                    && *final(self) == *old(self),
                Ok(xsd) => match found_references(old(self).root, xsd) {
                    Err(e) => done == Err::<(), BuildError>(BuildError::WriterError(e)) && *final(self) == *old(self),
                    Ok(locations) => {
                        &&& done is Ok
                        &&& location_view(final(self).root) == location_view(schema.location)
                        &&& final(self).counter == if old(self).counter < usize::MAX {
                            old(self).counter + 1
                        } else {
                            old(self).counter as int
                        }
                        &&& match found_at(
                            old(self).schemas@,
                            schema.location,
                            old(self).schemas@.len() as int,
                        ) {
                            Some(i) => {
                                &&& final(self).schemas@.len() == old(self).schemas@.len()
                                &&& final(self).schemas@ == old(self).schemas@.update(
                                    i,
                                    final(self).schemas@[i],
                                )
                                &&& final(self).schemas@[i].0 == old(self).schemas@[i].0
                                &&& entry_of(final(self).schemas@[i].1, schema, xsd.0)
                            },
                            None => {
                                &&& final(self).schemas@.len() == old(self).schemas@.len() + 1
                                &&& final(self).schemas@.drop_last() == old(self).schemas@
                                &&& final(self).schemas@.last().0 == schema.location
                                &&& entry_of(final(self).schemas@.last().1, schema, xsd.0)
                            },
                        }
                        &&& final(self).pending@.len() == old(self).pending@.len() + locations.len()
                        &&& final(self).pending@.take(old(self).pending@.len() as int) == old(self).pending@
                        &&& forall|i: int|
                            0 <= i < locations.len() ==> is_reference(
                                #[trigger] final(self).pending@[old(self).pending@.len() + i],
                                locations[i],
                            )
                        &&& if schema.entrypoint {
                            final(self).filepath matches Some(file) && file@ == match schema.filename {
                                Some(given) => given@,
                                None => joined_path(
                                    out_dir@,
                                    crate::writer::url_uuid(encode_utf8(decode_utf8(xsd.0)))
                                        + ".xsdb"@,
                                ),
                            }
                        } else {
                            final(self).filepath == old(self).filepath
                        }
                    },
                },
            },
    {
        let xsd = match Xsd::from_reader(table, schema.content.as_str().as_bytes()) {
            Ok(xsd) => xsd,
            Err(e) => {
                return Err(BuildError::XmlDeserialize(e));
            },
        };
        let ghost said = xsd.view_of();
        let Xsd { tns, includes, imports } = xsd;
        let tns = match string_from_utf8(tns) {
            Some(tns) => tns,
            None => {
                return Err(BuildError::WriterError(WriterError::Utf8Error));
            },
        };
        let mut all: Vec<XsdImportOrInclude> = imports;
        let mut includes = includes;
        let ghost first = all@;
        let ghost second = includes@;
        all.append(&mut includes);
        assert(locations_view(all@) =~= said.2 + said.1);
        let mut found: Vec<Schema> = Vec::new();
        match resolve_all(&self.root, &all, &mut found) {
            Ok(()) => {},
            Err(e) => {
                return Err(BuildError::WriterError(e));
            },
        }
        let ghost locations = found_references(old(self).root, said)->Ok_0;
        let ghost added = found@;
        assert(added.len() == locations.len());
        assert forall|i: int| 0 <= i < locations.len() implies is_reference(
            #[trigger] added[i],
            locations[i],
        ) by {
            assert(is_reference(found@[0 + i], locations[i]));
        }
        if schema.entrypoint {
            let file = match &schema.filename {
                Some(given) => given.as_str().to_owned(),
                None => create_filepath(out_dir, tns.as_str()),
            };
            self.filepath = Some(file);
        }
        self.pending.append(&mut found);
        self.root = copy_location(&schema.location);
        let place = self.place(&schema.location);
        let Schema { entrypoint, location, content, filename } = schema;
        let entry = SchemaEntry::new(tns, entrypoint, content);
        proof {
            lemma_found_at(self.schemas@, location, self.schemas.len() as int);
        }
        match place {
            Some(i) => {
                let (key, _) = self.schemas.remove(i);
                self.schemas.insert(i, (key, entry));
                proof {
                    let before = old(self).schemas@;
                    let after = self.schemas@;
                    assert(after =~= before.update(i as int, after[i as int]));
                    if no_location_twice(before) {
                        assert forall|a: int, b: int| 0 <= a < b < after.len() implies !same_location(
                            (#[trigger] after[a]).0,
                            (#[trigger] after[b]).0,
                        ) by {
                            assert(after[a].0 == before[a].0);
                            assert(after[b].0 == before[b].0);
                        }
                    }
                }
            },
            None => {
                self.schemas.push((location, entry));
                proof {
                    let before = old(self).schemas@;
                    let after = self.schemas@;
                    assert(after.drop_last() =~= before);
                    if no_location_twice(before) {
                        assert forall|a: int, b: int| 0 <= a < b < after.len() implies !same_location(
                            (#[trigger] after[a]).0,
                            (#[trigger] after[b]).0,
                        ) by {
                            assert(after[a] == before[a]);
                            if b < before.len() {
                                assert(after[b] == before[b]);
                            } else {
                                assert(!same_location(before[a].0, location));
                            }
                        }
                    }
                }
            },
        }
        if self.counter < usize::MAX {
            self.counter += 1;
        }
        proof {
            assert(self.pending@ =~= old(self).pending@ + added);
            assert(self.pending@.take(old(self).pending@.len() as int) =~= old(self).pending@);
            assert forall|i: int| 0 <= i < locations.len() implies is_reference(
                #[trigger] self.pending@[old(self).pending@.len() + i],
                locations[i],
            ) by {
                assert(self.pending@[old(self).pending@.len() + i] == added[i]);
            }
        }
        Ok(())
    }
}

} // verus!
