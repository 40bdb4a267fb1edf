//! The stream of events that a document is read as.

use crate::text::{copy_bytes, copy_range, name_len, tag_name_len};
use quick_xml::events::{BytesStart, Event};
use quick_xml::name::Namespace;
use quick_xml::{NsReader, Reader};
use vstd::prelude::*;
use vstd::utf8::valid_utf8;

verus! {

/// The namespace that an element name resolves to in the scope it stands in.
#[derive(Debug, PartialEq, Eq)]
pub enum ResolvedNamespace {
    /// The name is bound to the namespace with this URI.
    Bound(Vec<u8>),
    /// The name has no prefix and no default namespace is in scope.
    Unbound,
    /// The name carries a prefix that no declaration in scope binds.
    Unknown,
}

pub enum NamespaceView {
    Bound(Seq<u8>),
    Unbound,
    Unknown,
}

impl DeepView for ResolvedNamespace {
    type V = NamespaceView;

    open spec fn deep_view(&self) -> NamespaceView {
        match self {
            ResolvedNamespace::Bound(uri) => NamespaceView::Bound(uri@),
            ResolvedNamespace::Unbound => NamespaceView::Unbound,
            ResolvedNamespace::Unknown => NamespaceView::Unknown,
        }
    }
}

/// What kind of event the tokenizer met.
#[derive(Debug, Clone, Copy, PartialEq, Eq, Structural)]
pub enum EventKind {
    Start,
    Empty,
    End,
    Text,
    /// A CDATA section.
    CData,
    Comment,
    /// The XML declaration.
    Decl,
    /// A processing instruction.
    PI,
    DocType,
    Eof,
    /// A syntax error; nothing follows it.
    Malformed,
}

/// An event as the tokenizer hands it out: the bytes between the angle
/// brackets, or the bytes of the text, untouched.
#[derive(Debug, PartialEq, Eq)]
pub struct RawEvent {
    pub kind: EventKind,
    /// The URI that the name is bound to; `Some(None)` for a name that is
    /// unbound, `None` for one whose prefix is unknown.
    pub namespace: Option<Option<Vec<u8>>>,
    pub content: Vec<u8>,
    /// The attributes of a tag, as key and raw value; `None` stands for one
    /// that cannot be read. Empty for any other event.
    pub attributes: Vec<Option<(Vec<u8>, Vec<u8>)>>,
}

pub open spec fn raw_namespace(namespace: Option<Option<Vec<u8>>>) -> NamespaceView {
    match namespace {
        Some(Some(uri)) => NamespaceView::Bound(uri@),
        Some(None) => NamespaceView::Unbound,
        None => NamespaceView::Unknown,
    }
}

pub struct RawEventView {
    pub kind: EventKind,
    pub namespace: NamespaceView,
    pub content: Seq<u8>,
    pub attributes: Seq<Option<(Seq<u8>, Seq<u8>)>>,
}

impl DeepView for RawEvent {
    type V = RawEventView;

    open spec fn deep_view(&self) -> RawEventView {
        RawEventView {
            kind: self.kind,
            namespace: raw_namespace(self.namespace),
            content: self.content@,
            attributes: self.attributes.deep_view(),
        }
    }
}

/// Why a piece of text has no readable value.
#[derive(Debug, Clone, Copy, PartialEq, Eq, Structural)]
pub enum TextError {
    /// The bytes are not UTF-8.
    NotUtf8,
    /// An entity or character reference in it cannot be resolved.
    BadEscape,
}

/// One attribute of a tag, its value unescaped.
#[derive(Debug, PartialEq, Eq)]
pub struct XmlAttribute {
    /// The qualified name of the attribute.
    pub key: Vec<u8>,
    pub value: Result<Vec<u8>, TextError>,
}

pub struct AttributeView {
    pub key: Seq<u8>,
    pub value: Result<Seq<u8>, TextError>,
}

pub open spec fn option_view(bytes: Option<Vec<u8>>) -> Option<Seq<u8>> {
    match bytes {
        Some(bytes) => Some(bytes@),
        None => None,
    }
}

pub open spec fn text_view(text: Result<Vec<u8>, TextError>) -> Result<Seq<u8>, TextError> {
    match text {
        Ok(bytes) => Ok(bytes@),
        Err(e) => Err(e),
    }
}

impl DeepView for XmlAttribute {
    type V = AttributeView;

    open spec fn deep_view(&self) -> AttributeView {
        AttributeView { key: self.key@, value: text_view(self.value) }
    }
}

/// An opening, closing or empty tag.
#[derive(Debug, PartialEq, Eq)]
pub struct XmlTag {
    pub namespace: ResolvedNamespace,
    /// The qualified name, prefix included.
    pub name: Vec<u8>,
    /// The attributes in document order; a closing tag has none.
    pub attributes: Vec<XmlAttribute>,
}

pub struct TagView {
    pub namespace: NamespaceView,
    pub name: Seq<u8>,
    pub attributes: Seq<AttributeView>,
}

impl DeepView for XmlTag {
    type V = TagView;

    open spec fn deep_view(&self) -> TagView {
        TagView {
            namespace: self.namespace.deep_view(),
            name: self.name@,
            attributes: self.attributes.deep_view(),
        }
    }
}

/// One event of a document, ready for binding: names split off, attributes
/// parsed, text unescaped.
#[derive(Debug, PartialEq, Eq)]
pub enum XmlEvent {
    Start(XmlTag),
    Empty(XmlTag),
    End(XmlTag),
    /// Character data, trimmed and unescaped.
    Text(Result<Vec<u8>, TextError>),
    /// A comment, CDATA section, declaration, processing instruction or doctype.
    Other,
    Eof,
    /// The document is broken here; nothing follows.
    Malformed,
}

pub enum EventView {
    Start(TagView),
    Empty(TagView),
    End(TagView),
    Text(Result<Seq<u8>, TextError>),
    Other,
    Eof,
    Malformed,
}

impl DeepView for XmlEvent {
    type V = EventView;

    open spec fn deep_view(&self) -> EventView {
        match self {
            XmlEvent::Start(tag) => EventView::Start(tag.deep_view()),
            XmlEvent::Empty(tag) => EventView::Empty(tag.deep_view()),
            XmlEvent::End(tag) => EventView::End(tag.deep_view()),
            XmlEvent::Text(text) => EventView::Text(text_view(*text)),
            XmlEvent::Other => EventView::Other,
            XmlEvent::Eof => EventView::Eof,
            XmlEvent::Malformed => EventView::Malformed,
        }
    }
}

impl EventView {
    /// Whether a stream ends with this event.
    pub open spec fn is_terminal(self) -> bool {
        self is Eof || self is Malformed
    }
}

#[verifier::external_type_specification]
#[verifier::external_body]
#[verifier::reject_recursive_types(R)]
pub struct ExNsReader<R>(NsReader<R>);

/// The events that a reader will still hand out, up to and including the
/// first `Eof` or `Malformed`.
pub uninterp spec fn pending_events(reader: NsReader<&[u8]>) -> Seq<RawEventView>;

/// The events that a document is read as, up to and including the first `Eof`
/// or `Malformed`, with text trimmed and empty elements kept as they stand.
pub uninterp spec fn document_events(doc: Seq<u8>) -> Seq<RawEventView>;

/// The events that a reader will hand out once it is set up as decoding
/// sets it up: text is trimmed, comments are not checked, and empty elements
/// stay as they stand.
pub uninterp spec fn settled_events(reader: NsReader<&[u8]>) -> Seq<RawEventView>;

#[verifier::external_type_specification]
#[verifier::external_body]
#[verifier::reject_recursive_types(R)]
pub struct ExReader<R>(Reader<R>);

/// The events that a reader without namespaces will still hand out, up to
/// and including the first `Eof` or `Malformed`. None of their names is
/// resolved.
pub uninterp spec fn plain_pending(reader: Reader<&[u8]>) -> Seq<RawEventView>;

/// The events that a reader without namespaces will hand out once it is set
/// up as decoding by paths sets it up: comments are not checked, empty
/// elements stay as they stand, and a closing tag need not name what it
/// closes. Text is not trimmed.
pub uninterp spec fn plain_settled(reader: Reader<&[u8]>) -> Seq<RawEventView>;

/// The events that a document is read as by a reader without namespaces
/// that is set up as decoding by paths sets it up.
pub uninterp spec fn plain_document_events(doc: Seq<u8>) -> Seq<RawEventView>;

#[verifier::external_type_specification]
#[verifier::external_body]
pub struct ExEvent<'a>(Event<'a>);

/// Which kind of event an event of the tokenizer is. It is never
/// `Malformed`.
pub uninterp spec fn event_kind(event: Event<'static>) -> EventKind;

/// The bytes of an event: what stands between the angle brackets, or the
/// text, untouched.
pub uninterp spec fn event_content(event: Event<'static>) -> Seq<u8>;

/// The attributes of an event that is a tag, as key and raw value, by
/// `BytesStart::attributes`; `None` stands for one that cannot be read. Any
/// other event has none.
pub uninterp spec fn event_attributes(event: Event<'static>) -> Seq<Option<(Seq<u8>, Seq<u8>)>>;

/// What was read: the event with the namespace its name resolves to, or
/// `Malformed` for an error of the reader.
pub open spec fn read_view(read: Option<(Option<Option<Vec<u8>>>, Event<'static>)>) -> RawEventView {
    match read {
        Some((namespace, event)) => RawEventView {
            kind: event_kind(event),
            namespace: raw_namespace(namespace),
            content: event_content(event),
            attributes: event_attributes(event),
        },
        None => RawEventView {
            kind: EventKind::Malformed,
            namespace: NamespaceView::Unknown,
            content: Seq::empty(),
            attributes: Seq::empty(),
        },
    }
}

/// The same for a reader that resolves no names.
pub open spec fn plain_read_view(read: Option<Event<'static>>) -> RawEventView {
    match read {
        Some(event) => read_view(Some((None, event))),
        None => read_view(None),
    }
}

/// The text that escaped text stands for, if every reference in it resolves.
pub uninterp spec fn unescaped(raw: Seq<u8>) -> Option<Seq<u8>>;

/// Makes a namespace-aware reader over `doc` with `NsReader::from_reader` and
/// sets it to trim text. What it will hand out is what the document is read as.
#[verifier::external_body]
pub(crate) fn open_reader<'a>(doc: &'a [u8]) -> (reader: NsReader<&'a [u8]>)
    ensures
        pending_events(reader) == document_events(doc@),
{
    let mut reader = NsReader::from_reader(doc);
    reader.config_mut().trim_text(true);
    reader
}

/// Reads one event with `NsReader::read_resolved_event`, with the
/// namespace that its name resolves to; `None` for an error of the reader.
/// Unless the event ends the stream, the reader goes on with the events
/// behind it.
#[verifier::external_body]
fn read_next(reader: &mut NsReader<&[u8]>) -> (read: Option<
    (Option<Option<Vec<u8>>>, Event<'static>),
>)
    ensures
        pending_events(*old(reader)).len() > 0,
        read_view(read) == pending_events(*old(reader))[0],
        read_view(read).kind != EventKind::Eof && read_view(read).kind != EventKind::Malformed
            ==> pending_events(*final(reader)) == pending_events(*old(reader)).skip(1),
{
    reader.read_resolved_event().ok().map(
        |(ns, event)|
            (
                Option::<Namespace>::try_from(ns).ok().map(|ns| ns.map(|n| n.0.to_vec())),
                event.into_owned(),
            ),
    )
}

/// Tells which kind of event an event of the tokenizer is.
#[verifier::external_body]
fn kind_of(event: &Event<'static>) -> (kind: EventKind)
    ensures
        kind == event_kind(*event),
        kind != EventKind::Malformed,
{
    match event {
        Event::Start(_) => EventKind::Start,
        Event::Empty(_) => EventKind::Empty,
        Event::End(_) => EventKind::End,
        Event::Text(_) => EventKind::Text,
        Event::CData(_) => EventKind::CData,
        Event::Comment(_) => EventKind::Comment,
        Event::Decl(_) => EventKind::Decl,
        Event::PI(_) => EventKind::PI,
        Event::DocType(_) => EventKind::DocType,
        Event::Eof => EventKind::Eof,
    }
}

/// Takes the bytes of an event, which it derefs to.
#[verifier::external_body]
fn content_of(event: &Event<'static>) -> (content: Vec<u8>)
    ensures
        content@ == event_content(*event),
{
    event.to_vec()
}

/// Reads the attributes of a tag with `BytesStart::attributes`; any other
/// event has none.
#[verifier::external_body]
fn attributes_of(event: &Event<'static>) -> (attributes: Vec<Option<(Vec<u8>, Vec<u8>)>>)
    ensures
        attributes.deep_view() == event_attributes(*event),
{
    match event {
        Event::Start(e) | Event::Empty(e) => e.attributes().map(
            |found| found.ok().map(|a| (a.key.0.to_vec(), a.value.into_owned())),
        ).collect(),
        _ => Vec::new(),
    }
}

/// The raw event of what was read.
fn raw_event(read: Option<(Option<Option<Vec<u8>>>, Event<'static>)>) -> (event: RawEvent)
    ensures
        event.deep_view() == read_view(read),
{
    match read {
        None => {
            let event = RawEvent {
                kind: EventKind::Malformed,
                namespace: None,
                content: Vec::new(),
                attributes: Vec::new(),
            };
            assert(event.attributes.deep_view() =~= Seq::empty());
            event
        },
        Some((namespace, event)) => RawEvent {
            kind: kind_of(&event),
            namespace,
            content: content_of(&event),
            attributes: attributes_of(&event),
        },
    }
}

/// Reads one event: its kind, the namespace its name resolves to, its
/// bytes and, for a tag, its attributes. An error of the reader comes out as
/// `Malformed`. Unless the event ends the stream, the reader goes on with the
/// events behind it.
pub(crate) fn next_event(reader: &mut NsReader<&[u8]>) -> (event: RawEvent)
    ensures
        pending_events(*old(reader)).len() > 0,
        event.deep_view() == pending_events(*old(reader))[0],
        event.kind != EventKind::Eof && event.kind != EventKind::Malformed ==> pending_events(
            *final(reader),
        ) == pending_events(*old(reader)).skip(1),
{
    raw_event(read_next(reader))
}

/// Sets a reader up for decoding through `NsReader::config_mut`: text is
/// trimmed, comments are not checked, empty elements stay as they stand.
#[verifier::external_body]
pub(crate) fn settle_reader<'a>(reader: NsReader<&'a [u8]>) -> (settled: NsReader<&'a [u8]>)
    ensures
        pending_events(settled) == settled_events(reader),
{
    let mut settled = reader;
    settled.config_mut().trim_text(true);
    settled.config_mut().check_comments = false;
    settled.config_mut().expand_empty_elements = false;
    settled
}

/// Makes a reader without namespaces over `doc` with `Reader::from_reader`.
/// Once it is set up, it hands out what the document is read as.
#[verifier::external_body]
pub(crate) fn open_plain_reader<'a>(doc: &'a [u8]) -> (reader: Reader<&'a [u8]>)
    ensures
        plain_settled(reader) == plain_document_events(doc@),
{
    Reader::from_reader(doc)
}

/// Sets a reader without namespaces up for decoding by paths through
/// `Reader::config_mut`: comments are not checked, empty elements stay as
/// they stand, and closing names are not checked.
#[verifier::external_body]
pub(crate) fn settle_plain_reader<'a>(reader: Reader<&'a [u8]>) -> (settled: Reader<&'a [u8]>)
    ensures
        plain_pending(settled) == plain_settled(reader),
{
    let mut settled = reader;
    settled.config_mut().check_comments = false;
    settled.config_mut().expand_empty_elements = false;
    settled.config_mut().check_end_names = false;
    settled
}

/// Reads one event with `Reader::read_event`; `None` for an error of the
/// reader. Unless the event ends the stream, the reader goes on with the
/// events behind it.
#[verifier::external_body]
fn read_next_plain(reader: &mut Reader<&[u8]>) -> (read: Option<Event<'static>>)
    ensures
        plain_pending(*old(reader)).len() > 0,
        plain_read_view(read) == plain_pending(*old(reader))[0],
        plain_read_view(read).kind != EventKind::Eof && plain_read_view(read).kind
            != EventKind::Malformed ==> plain_pending(*final(reader)) == plain_pending(
            *old(reader),
        ).skip(1),
{
    reader.read_event().ok().map(|event| event.into_owned())
}

/// Reads one event of a reader without namespaces: its kind, its bytes
/// and, for a tag, its attributes; no name is resolved. An error of the reader
/// comes out as `Malformed`. Unless the event ends the stream, the reader goes
/// on with the events behind it.
pub(crate) fn next_plain_event(reader: &mut Reader<&[u8]>) -> (event: RawEvent)
    ensures
        plain_pending(*old(reader)).len() > 0,
        event.deep_view() == plain_pending(*old(reader))[0],
        event.kind != EventKind::Eof && event.kind != EventKind::Malformed ==> plain_pending(
            *final(reader),
        ) == plain_pending(*old(reader)).skip(1),
{
    match read_next_plain(reader) {
        Some(event) => raw_event(Some((None, event))),
        None => raw_event(None),
    }
}

/// Whether `bytes` is UTF-8, by `std::str::from_utf8`.
#[verifier::external_body]
pub(crate) fn is_utf8(bytes: &[u8]) -> (valid: bool)
    ensures
        valid == valid_utf8(bytes@),
{
    std::str::from_utf8(bytes).is_ok()
}

/// Resolves the references in escaped text with `quick_xml::escape::unescape`.
/// Text without an ampersand stands for itself.
#[verifier::external_body]
fn unescape_utf8(raw: &[u8]) -> (text: Option<Vec<u8>>)
    requires
        valid_utf8(raw@),
    ensures
        option_view(text) == unescaped(raw@),
        !raw@.contains(0x26u8) ==> option_view(text) == Some(raw@),
{
    let text = std::str::from_utf8(raw).unwrap();
    quick_xml::escape::unescape(text).ok().map(|plain| plain.into_owned().into_bytes())
}

/// The value of a piece of raw text.
pub open spec fn cooked_text(raw: Seq<u8>) -> Result<Seq<u8>, TextError> {
    if !valid_utf8(raw) {
        Err(TextError::NotUtf8)
    } else {
        match unescaped(raw) {
            Some(text) => Ok(text),
            None => Err(TextError::BadEscape),
        }
    }
}

/// The readable ones among the attributes of a tag, their values unescaped.
pub open spec fn cooked_attributes(raw: Seq<Option<(Seq<u8>, Seq<u8>)>>) -> Seq<AttributeView>
    decreases raw.len(),
{
    if raw.len() == 0 {
        Seq::empty()
    } else {
        let front = cooked_attributes(raw.drop_last());
        match raw.last() {
            Some((key, value)) => front.push(AttributeView { key, value: cooked_text(value) }),
            None => front,
        }
    }
}

/// The event that a raw event stands for. The name of a tag ends at the
/// first white space of its bytes. A CDATA section, a comment, a declaration,
/// a processing instruction and a doctype count for nothing.
pub open spec fn cooked(raw: RawEventView) -> EventView {
    match raw.kind {
        EventKind::Start => EventView::Start(cooked_tag(raw)),
        EventKind::Empty => EventView::Empty(cooked_tag(raw)),
        EventKind::End => EventView::End(
            TagView { namespace: raw.namespace, name: raw.content, attributes: Seq::empty() },
        ),
        EventKind::Text => EventView::Text(cooked_text(raw.content)),
        EventKind::CData => EventView::Other,
        EventKind::Comment => EventView::Other,
        EventKind::Decl => EventView::Other,
        EventKind::PI => EventView::Other,
        EventKind::DocType => EventView::Other,
        EventKind::Eof => EventView::Eof,
        EventKind::Malformed => EventView::Malformed,
    }
}

/// The tag that the raw event of a tag stands for.
pub open spec fn cooked_tag(raw: RawEventView) -> TagView {
    TagView {
        namespace: raw.namespace,
        name: raw.content.take(name_len(raw.content) as int),
        attributes: cooked_attributes(raw.attributes),
    }
}

/// The events that a raw stream stands for, up to and including the first
/// that ends it.
pub open spec fn cooked_stream(raw: Seq<RawEventView>) -> Seq<EventView>
    decreases raw.len(),
{
    if raw.len() == 0 {
        Seq::empty()
    } else if cooked(raw[0]).is_terminal() {
        seq![cooked(raw[0])]
    } else {
        seq![cooked(raw[0])] + cooked_stream(raw.skip(1))
    }
}

/// The events that a document is read as, ready for binding.
pub open spec fn events_of_document(doc: Seq<u8>) -> Seq<EventView> {
    cooked_stream(document_events(doc))
}

fn cook_text(raw: &[u8]) -> (text: Result<Vec<u8>, TextError>)
    ensures
        text_view(text) == cooked_text(raw@),
{
    if !is_utf8(raw) {
        Err(TextError::NotUtf8)
    } else {
        match unescape_utf8(raw) {
            Some(text) => Ok(text),
            None => Err(TextError::BadEscape),
        }
    }
}

fn cook_attributes(raw: Vec<Option<(Vec<u8>, Vec<u8>)>>) -> (attributes: Vec<XmlAttribute>)
    ensures
        attributes.deep_view() == cooked_attributes(raw.deep_view()),
{
    let mut attributes: Vec<XmlAttribute> = Vec::new();
    let mut i: usize = 0;
    assert(raw.deep_view().take(0) =~= Seq::empty());
    while i < raw.len()
        invariant
            i <= raw.len(),
            attributes.deep_view() == cooked_attributes(raw.deep_view().take(i as int)),
        decreases raw.len() - i,
    {
        let ghost before = attributes.deep_view();
        proof {
            let longer = raw.deep_view().take(i + 1);
            assert(longer.drop_last() =~= raw.deep_view().take(i as int));
            assert(longer.last() == raw[i as int].deep_view());
        }
        match &raw[i] {
            Some(pair) => {
                assert(pair.0.deep_view() =~= pair.0@);
                assert(pair.1.deep_view() =~= pair.1@);
                let value = cook_text(pair.1.as_slice());
                let key = copy_bytes(pair.0.as_slice());
                let attribute = XmlAttribute { key, value };
                attributes.push(attribute);
                assert(attributes.deep_view() =~= before.push(attribute.deep_view()));
            },
            None => {},
        }
        i += 1;
    }
    assert(raw.deep_view().take(raw.len() as int) =~= raw.deep_view());
    attributes
}

fn resolved(namespace: Option<Option<Vec<u8>>>) -> (resolved: ResolvedNamespace)
    ensures
        resolved.deep_view() == raw_namespace(namespace),
{
    match namespace {
        Some(Some(uri)) => ResolvedNamespace::Bound(uri),
        Some(None) => ResolvedNamespace::Unbound,
        None => ResolvedNamespace::Unknown,
    }
}

fn cook(raw: RawEvent) -> (event: XmlEvent)
    ensures
        event.deep_view() == cooked(raw.deep_view()),
{
    match raw.kind {
        EventKind::Start | EventKind::Empty => {
            let len = tag_name_len(raw.content.as_slice());
            let name = copy_range(raw.content.as_slice(), 0, len);
            let is_start = matches!(raw.kind, EventKind::Start);
            let tag = XmlTag {
                namespace: resolved(raw.namespace),
                name,
                attributes: cook_attributes(raw.attributes),
            };
            if is_start {
                XmlEvent::Start(tag)
            } else {
                XmlEvent::Empty(tag)
            }
        },
        EventKind::End => {
            let tag = XmlTag {
                namespace: resolved(raw.namespace),
                name: raw.content,
                attributes: Vec::new(),
            };
            assert(tag.attributes.deep_view() =~= Seq::empty());
            XmlEvent::End(tag)
        },
        EventKind::Text => XmlEvent::Text(cook_text(raw.content.as_slice())),
        EventKind::CData => XmlEvent::Other,
        EventKind::Comment => XmlEvent::Other,
        EventKind::Decl => XmlEvent::Other,
        EventKind::PI => XmlEvent::Other,
        EventKind::DocType => XmlEvent::Other,
        EventKind::Eof => XmlEvent::Eof,
        EventKind::Malformed => XmlEvent::Malformed,
    }
}

/// Whether a stream ends with this event.
pub fn is_terminal(event: &XmlEvent) -> (terminal: bool)
    ensures
        terminal == event.deep_view().is_terminal(),
{
    matches!(event, XmlEvent::Eof | XmlEvent::Malformed)
}

/// Reads out what a reader still holds, as events.
pub fn read_events(reader: NsReader<&[u8]>) -> (events: Vec<XmlEvent>)
    ensures
        events.deep_view() == cooked_stream(pending_events(reader)),
{
    let ghost whole = cooked_stream(pending_events(reader));
    let mut reader = reader;
    let mut events: Vec<XmlEvent> = Vec::new();
    assert(events.deep_view() =~= Seq::empty());
    loop
        invariant_except_break
            events.deep_view() + cooked_stream(pending_events(reader)) == whole,
        ensures
            events.deep_view() == whole,
        decreases pending_events(reader).len(),
    {
        let ghost before = events.deep_view();
        let ghost pending = pending_events(reader);
        let raw = next_event(&mut reader);
        let event = cook(raw);
        let terminal = is_terminal(&event);
        events.push(event);
        assert(events.deep_view() =~= before.push(event.deep_view()));
        if terminal {
            assert(events.deep_view() =~= before + cooked_stream(pending));
            break;
        }
        assert(events.deep_view() + cooked_stream(pending.skip(1)) =~= before + cooked_stream(
            pending,
        ));
    }
    events
}

/// The events that a document is read as without namespaces, ready for
/// binding by paths.
pub open spec fn plain_events_of_document(doc: Seq<u8>) -> Seq<EventView> {
    cooked_stream(plain_document_events(doc))
}

/// Reads out what a reader without namespaces still holds, as events.
pub fn read_plain_events(reader: Reader<&[u8]>) -> (events: Vec<XmlEvent>)
    ensures
        events.deep_view() == cooked_stream(plain_pending(reader)),
{
    let ghost whole = cooked_stream(plain_pending(reader));
    let mut reader = reader;
    let mut events: Vec<XmlEvent> = Vec::new();
    assert(events.deep_view() =~= Seq::empty());
    loop
        invariant_except_break
            events.deep_view() + cooked_stream(plain_pending(reader)) == whole,
        ensures
            events.deep_view() == whole,
        decreases plain_pending(reader).len(),
    {
        let ghost before = events.deep_view();
        let ghost pending = plain_pending(reader);
        let raw = next_plain_event(&mut reader);
        let event = cook(raw);
        let terminal = is_terminal(&event);
        events.push(event);
        assert(events.deep_view() =~= before.push(event.deep_view()));
        if terminal {
            assert(events.deep_view() =~= before + cooked_stream(pending));
            break;
        }
        assert(events.deep_view() + cooked_stream(pending.skip(1)) =~= before + cooked_stream(
            pending,
        ));
    }
    events
}

/// Reads a document into its events.
pub fn tokenize(doc: &[u8]) -> (events: Vec<XmlEvent>)
    ensures
        events.deep_view() == events_of_document(doc@),
{
    read_events(open_reader(doc))
}

} // verus!
