//! Decoding by paths: text is bound to a field by the path of elements that
//! leads to it, and names are matched by their local parts alone.

use crate::container::EleType;
use crate::de::{assign, scalar_zero, ErrorView, Outcome, Progress, XmlDeserializeError};
use crate::decode::{kind_eq, outcome_view, progress_view, slots_view};
use crate::descriptor::{Cardinality, ValueKind};
use crate::event::{
    cooked_stream, open_plain_reader, plain_events_of_document, plain_settled, read_plain_events,
    settle_plain_reader, text_view, AttributeView, EventView, TagView, TextError, XmlAttribute,
    XmlEvent, XmlTag,
};
use quick_xml::Reader;
use crate::scalar::{bool_of_text, number_of_text, parse_bool, parse_number};
use crate::text::{bytes_eq, copy_bytes, local_name, local_part};
use crate::ty::S;
use crate::value::{lemma_list_view, value_view, values_view, Value, ValueView};
use vstd::prelude::*;
use vstd::string::StringSliceAdditionalSpecFns;

verus! {

pub type XmlBorrowError = XmlDeserializeError;

pub type XmlBorrowResult<T> = Result<T, XmlBorrowError>;

/// The path of the elements that are open, by their local names.
#[derive(Debug)]
pub struct Pointer {
    path: Vec<Option<Vec<u8>>>,
    idx: usize,
}

impl Pointer {
    /// The pointer is valid: it keeps a name for each open element.
    pub closed spec fn wf(&self) -> bool {
        &&& self.idx <= self.path.len()
        &&& forall|i: int| 0 <= i < self.idx ==> (#[trigger] self.path[i]) is Some
    }

    /// The local names of the open elements, the outermost first. The
    /// pointer keeps each tag's name whole; a prefix does not count.
    pub closed spec fn names(&self) -> Seq<Seq<u8>> {
        Seq::new(self.idx as nat, |i: int| local_part(self.path[i]->0@))
    }

    /// A pointer at the top of a document: no element is open, and nothing
    /// is kept of earlier ones.
    pub fn new() -> (p: Pointer)
        ensures
            p.wf(),
            p.names() == Seq::<Seq<u8>>::empty(),
    {
        let p = Pointer { path: Vec::new(), idx: 0 };
        assert(p.names() =~= Seq::<Seq<u8>>::empty());
        p
    }

    /// Enters the element of a tag of this name: the path is one longer, and
    /// its last segment is the local part of the name.
    pub fn visit(&mut self, name: Vec<u8>)
        requires
            old(self).wf(),
            old(self).names().len() < usize::MAX,
        ensures
            final(self).wf(),
            final(self).names() == old(self).names().push(local_part(name@)),
    {
        if self.path.len() < self.idx + 1 {
            self.path.push(Some(name));
        } else {
            self.path[self.idx] = Some(name);
        }
        self.idx += 1;
        assert(self.names() =~= old(self).names().push(local_part(name@)));
    }

    /// Leaves the innermost element, if any is open.
    pub fn leave(&mut self)
        requires
            old(self).wf(),
        ensures
            final(self).wf(),
            final(self).names() == if old(self).names().len() > 0 {
                old(self).names().drop_last()
            } else {
                old(self).names()
            },
    {
        if self.idx > 0 {
            self.idx -= 1;
            self.path[self.idx] = None;
            assert(self.names() =~= old(self).names().drop_last());
        } else {
            assert(self.names() =~= old(self).names());
        }
    }

    /// How many elements are open.
    pub fn depth(&self) -> (depth: usize)
        requires
            self.wf(),
        ensures
            depth == self.names().len(),
    {
        self.idx
    }

    /// Whether the open elements are those of `other`: there are as many,
    /// and the local name of each is the name at its place in `other`.
    pub fn eq(&self, other: &Vec<Vec<u8>>) -> (equal: bool)
        requires
            self.wf(),
        ensures
            equal == (self.names() == path_view(other@)),
            equal == (self.names().len() == other.len() && forall|i: int|
                0 <= i < other.len() ==> (#[trigger] self.names()[i]) == other[i]@),
    {
        if self.idx != other.len() {
            assert(self.names().len() != path_view(other@).len());
            return false;
        }
        let mut i: usize = 0;
        while i < self.idx
            invariant
                self.wf(),
                i <= self.idx,
                self.idx == other.len(),
                forall|j: int| 0 <= j < i ==> self.names()[j] == path_view(other@)[j],
                forall|j: int|
                    0 <= j < i ==> local_part((#[trigger] self.path[j])->0@) == other[j]@,
            decreases self.idx - i,
        {
            match &self.path[i] {
                Some(name) => {
                    let local = local_name(name.as_slice());
                    if !bytes_eq(local.as_slice(), other[i].as_slice()) {
                        assert(self.names()[i as int] != path_view(other@)[i as int]);
                        return false;
                    }
                },
                None => {
                    return false;
                },
            }
            i += 1;
        }
        assert(self.names() =~= path_view(other@));
        true
    }
}

pub open spec fn path_view(path: Seq<Vec<u8>>) -> Seq<Seq<u8>> {
    Seq::new(path.len(), |i: int| path[i]@)
}

/// One field of a container that is decoded by paths.
#[derive(Debug, PartialEq, Eq)]
pub struct BorrowField {
    /// `Attr`, `Child`, `SelfClosedChild` or `Text`.
    pub ty: EleType,
    /// The local name of the attribute or tag.
    pub name: Vec<u8>,
    /// For text: the local names of the elements that lead to it, from the
    /// container inwards.
    pub path: Vec<Vec<u8>>,
    pub cardinality: Cardinality,
    /// What the field holds; a nested container is named by its position in
    /// the table.
    pub value_kind: ValueKind,
    /// A missing scalar becomes the zero value of its kind.
    pub default: bool,
}

/// The binding rules of one type that is decoded by paths.
#[derive(Debug, PartialEq, Eq)]
pub struct BorrowContainer {
    pub fields: Vec<BorrowField>,
    /// The local name of the root element, where the container is one.
    pub root: Option<Vec<u8>>,
}

#[derive(Debug, PartialEq, Eq)]
pub struct BorrowBindings {
    pub containers: Vec<BorrowContainer>,
}

impl BorrowField {
    /// A required field of the given kind; text is bound to the element of
    /// the field's name.
    pub fn new(ty: EleType, name: &[u8], value_kind: ValueKind) -> (f: BorrowField)
        ensures
            f.ty == ty,
            f.name@ == name@,
            path_view(f.path@) == seq![name@],
            f.cardinality == Cardinality::Required,
            f.value_kind == value_kind,
            !f.default,
    {
        let mut path: Vec<Vec<u8>> = Vec::new();
        path.push(copy_bytes(name));
        assert(path_view(path@) =~= seq![name@]);
        BorrowField {
            ty,
            name: copy_bytes(name),
            path,
            cardinality: Cardinality::Required,
            value_kind,
            default: false,
        }
    }

    pub fn optional(self) -> (f: BorrowField)
        ensures
            f == (BorrowField { cardinality: Cardinality::Optional, ..self }),
    {
        BorrowField { cardinality: Cardinality::Optional, ..self }
    }

    pub fn repeated(self) -> (f: BorrowField)
        ensures
            f == (BorrowField { cardinality: Cardinality::Repeated, ..self }),
    {
        BorrowField { cardinality: Cardinality::Repeated, ..self }
    }

    pub fn with_default(self) -> (f: BorrowField)
        ensures
            f == (BorrowField { default: true, ..self }),
    {
        BorrowField { default: true, ..self }
    }

    /// The same field with its text at the end of another path.
    pub fn with_path(self, path: Vec<Vec<u8>>) -> (f: BorrowField)
        ensures
            f == (BorrowField { path, ..self }),
    {
        BorrowField { path, ..self }
    }
}

/// The value that text writes, read as it stands: numbers and booleans admit
/// no white space around them.
pub open spec fn exact_scalar(kind: ValueKind, text: Seq<u8>) -> Option<ValueView> {
    match kind {
        ValueKind::String => Some(ValueView::Text(text)),
        ValueKind::Bool => match bool_of_text(text) {
            Some(b) => Some(ValueView::Bool(b)),
            None => None,
        },
        ValueKind::Number(ty) => match number_of_text(text, ty) {
            Some(n) => Some(ValueView::Number(n)),
            None => None,
        },
        ValueKind::NestedBindable(_) => None,
    }
}

/// The value of a scalar read from `text`, or the error in its place.
pub open spec fn borrowed_scalar(kind: ValueKind, text: Result<Seq<u8>, TextError>) -> Outcome {
    match text {
        Err(TextError::NotUtf8) => Err(ErrorView::EncodingError),
        Err(TextError::BadEscape) => Err(ErrorView::MalformedInput),
        Ok(t) => match exact_scalar(kind, t) {
            Some(v) => Ok(v),
            None => Err(ErrorView::ValueParseError),
        },
    }
}

pub open spec fn borrow_slot(f: BorrowField) -> ValueView {
    if f.cardinality == Cardinality::Repeated {
        ValueView::List(Seq::empty())
    } else {
        ValueView::Absent
    }
}

pub open spec fn borrow_slots(fields: Seq<BorrowField>) -> Seq<ValueView> {
    Seq::new(fields.len(), |i: int| borrow_slot(fields[i]))
}

/// The first field of the given kind at or behind `from` that has this name.
pub open spec fn find_named(fields: Seq<BorrowField>, kind: EleType, name: Seq<u8>, from: int) -> Option<
    int,
>
    decreases fields.len() - from,
{
    if from < 0 || from >= fields.len() {
        None
    } else if fields[from].ty == kind && fields[from].name@ == name {
        Some(from)
    } else {
        find_named(fields, kind, name, from + 1)
    }
}

/// Reads the attributes at and behind `k` into the attribute fields of
/// their local names.
pub open spec fn borrow_attributes(
    fields: Seq<BorrowField>,
    attributes: Seq<AttributeView>,
    k: int,
    slots: Seq<ValueView>,
) -> Result<Seq<ValueView>, ErrorView>
    decreases attributes.len() - k,
{
    if k < 0 || k >= attributes.len() {
        Ok(slots)
    } else {
        match find_named(fields, EleType::Attr, local_part(attributes[k].key), 0) {
            None => borrow_attributes(fields, attributes, k + 1, slots),
            Some(i) => match borrowed_scalar(fields[i].value_kind, attributes[k].value) {
                Err(e) => Err(e),
                Ok(v) => borrow_attributes(
                    fields,
                    attributes,
                    k + 1,
                    assign(slots, i, fields[i].cardinality, v),
                ),
            },
        }
    }
}

/// Gives a piece of text to every text field at or behind `k` whose path is `p`.
pub open spec fn borrow_text(
    fields: Seq<BorrowField>,
    p: Seq<Seq<u8>>,
    text: Result<Seq<u8>, TextError>,
    k: int,
    slots: Seq<ValueView>,
) -> Result<Seq<ValueView>, ErrorView>
    decreases fields.len() - k,
{
    if k < 0 || k >= fields.len() {
        Ok(slots)
    } else if fields[k].ty == EleType::Text && path_view(fields[k].path@) == p {
        match borrowed_scalar(fields[k].value_kind, text) {
            Err(e) => Err(e),
            Ok(v) => borrow_text(fields, p, text, k + 1, assign(slots, k, fields[k].cardinality, v)),
        }
    } else {
        borrow_text(fields, p, text, k + 1, slots)
    }
}

pub open spec fn borrow_missing(f: BorrowField, slot: ValueView) -> bool {
    f.cardinality == Cardinality::Required && slot is Absent && !f.default
}

pub open spec fn find_borrow_missing(fields: Seq<BorrowField>, slots: Seq<ValueView>, from: int) -> Option<
    int,
>
    decreases fields.len() - from,
{
    if from < 0 || from >= fields.len() {
        None
    } else if borrow_missing(fields[from], slots[from]) {
        Some(from)
    } else {
        find_borrow_missing(fields, slots, from + 1)
    }
}

pub open spec fn borrow_final(f: BorrowField, slot: ValueView) -> ValueView {
    if f.cardinality == Cardinality::Required && slot is Absent {
        scalar_zero(f.value_kind)
    } else {
        slot
    }
}

/// The struct value that the slots make, or the error for the first field
/// that is missing.
pub open spec fn borrow_finish(fields: Seq<BorrowField>, slots: Seq<ValueView>) -> Outcome {
    match find_borrow_missing(fields, slots, 0) {
        Some(i) => if fields[i].ty == EleType::Attr {
            Err(ErrorView::MissingAttribute(fields[i].name@))
        } else {
            Err(ErrorView::MissingElement(fields[i].name@))
        },
        None => Ok(
            ValueView::Struct(Seq::new(fields.len(), |i: int| borrow_final(fields[i], slots[i]))),
        ),
    }
}

/// Decodes the container `r` that was opened by `start`: its attributes,
/// and, unless the element is empty, its content from `pos` on.
pub open spec fn borrow_container(
    table: &BorrowBindings,
    r: int,
    start: TagView,
    is_empty: bool,
    stream: Seq<EventView>,
    pos: int,
) -> (Outcome, int)
    decreases stream.len() - pos, 2nat,
{
    if r < 0 || r >= table.containers.len() {
        (Err(ErrorView::MalformedInput), pos)
    } else {
        let fields = table.containers[r].fields@;
        match borrow_attributes(fields, start.attributes, 0, borrow_slots(fields)) {
            Err(e) => (Err(e), pos),
            Ok(slots) => if is_empty {
                (borrow_finish(fields, slots), pos)
            } else {
                let content = borrow_content(table, r, start.name, stream, pos, slots, Seq::empty());
                match content.slots {
                    Err(e) => (Err(e), content.next),
                    Ok(done) => (borrow_finish(fields, done), content.next),
                }
            },
        }
    }
}

/// Reads the content of the container `r` from `pos` to the closing tag
/// named `tag`, or to the end of the stream; `p` is the path of the elements
/// that are open inside the container.
///
/// An opening tag with the name of a child field is an occurrence of the
/// first such field; any other opening tag is entered. An empty tag with the
/// name of a self-closed child field is an occurrence of the first such field.
/// Text goes to the text fields of the path at which it stands.
pub open spec fn borrow_content(
    table: &BorrowBindings,
    r: int,
    tag: Seq<u8>,
    stream: Seq<EventView>,
    pos: int,
    slots: Seq<ValueView>,
    p: Seq<Seq<u8>>,
) -> Progress
    decreases stream.len() - pos, 1nat,
{
    if r < 0 || r >= table.containers.len() || pos < 0 || pos >= stream.len() {
        Progress { slots: Ok(slots), next: pos }
    } else {
        let fields = table.containers[r].fields@;
        match stream[pos] {
            EventView::Start(t) => match find_named(fields, EleType::Child, local_part(t.name), 0) {
                Some(i) => match fields[i].value_kind {
                    ValueKind::NestedBindable(inner) => {
                        let nested = borrow_container(table, inner as int, t, false, stream, pos + 1);
                        match nested.0 {
                            Err(e) => Progress { slots: Err(e), next: nested.1 },
                            Ok(v) => if pos < nested.1 <= stream.len() {
                                borrow_content(
                                    table,
                                    r,
                                    tag,
                                    stream,
                                    nested.1,
                                    assign(slots, i, fields[i].cardinality, v),
                                    p,
                                )
                            } else {
                                Progress { slots: Err(ErrorView::MalformedInput), next: pos + 1 }
                            },
                        }
                    },
                    _ => borrow_content(
                        table,
                        r,
                        tag,
                        stream,
                        pos + 1,
                        slots,
                        p.push(local_part(t.name)),
                    ),
                },
                None => borrow_content(
                    table,
                    r,
                    tag,
                    stream,
                    pos + 1,
                    slots,
                    p.push(local_part(t.name)),
                ),
            },
            EventView::Empty(t) => match find_named(
                fields,
                EleType::SelfClosedChild,
                local_part(t.name),
                0,
            ) {
                Some(i) => match fields[i].value_kind {
                    ValueKind::NestedBindable(inner) => {
                        let nested = borrow_container(table, inner as int, t, true, stream, pos + 1);
                        match nested.0 {
                            Err(e) => Progress { slots: Err(e), next: nested.1 },
                            Ok(v) => if pos < nested.1 <= stream.len() {
                                borrow_content(
                                    table,
                                    r,
                                    tag,
                                    stream,
                                    nested.1,
                                    assign(slots, i, fields[i].cardinality, v),
                                    p,
                                )
                            } else {
                                Progress { slots: Err(ErrorView::MalformedInput), next: pos + 1 }
                            },
                        }
                    },
                    ValueKind::Bool => borrow_content(
                        table,
                        r,
                        tag,
                        stream,
                        pos + 1,
                        assign(slots, i, fields[i].cardinality, ValueView::Bool(true)),
                        p,
                    ),
                    _ => borrow_content(table, r, tag, stream, pos + 1, slots, p),
                },
                None => borrow_content(table, r, tag, stream, pos + 1, slots, p),
            },
            EventView::Text(text) => match borrow_text(fields, p, text, 0, slots) {
                Err(e) => Progress { slots: Err(e), next: pos + 1 },
                Ok(after) => borrow_content(table, r, tag, stream, pos + 1, after, p),
            },
            EventView::End(end) => if end.name == tag {
                Progress { slots: Ok(slots), next: pos + 1 }
            } else {
                borrow_content(
                    table,
                    r,
                    tag,
                    stream,
                    pos + 1,
                    slots,
                    if p.len() > 0 {
                        p.drop_last()
                    } else {
                        p
                    },
                )
            },
            EventView::Eof => Progress { slots: Ok(slots), next: pos },
            EventView::Malformed => Progress { slots: Err(ErrorView::MalformedInput), next: pos },
            _ => borrow_content(table, r, tag, stream, pos + 1, slots, p),
        }
    }
}

/// Looks from `pos` on for the root element of the container `r` and
/// decodes it. Where the container names its root, the first element must be
/// it; where it names none, every element at the top is decoded and the last
/// counts.
pub open spec fn borrow_root(
    table: &BorrowBindings,
    r: int,
    stream: Seq<EventView>,
    pos: int,
    found: Option<ValueView>,
) -> Outcome
    decreases stream.len() - pos,
{
    if r < 0 || r >= table.containers.len() {
        Err(ErrorView::MissingRoot)
    } else {
        let root = table.containers[r].root;
        let at_end = match found {
            Some(v) => Ok(v),
            None => match root {
                Some(name) => Err(ErrorView::MissingElement(name@)),
                None => Err(ErrorView::MissingRoot),
            },
        };
        if pos < 0 || pos >= stream.len() {
            at_end
        } else {
            match stream[pos] {
                EventView::Start(t) => if root is Some && local_part(t.name) != root->0@ {
                    at_end
                } else {
                    let value = borrow_container(table, r, t, false, stream, pos + 1);
                    match value.0 {
                        Err(e) => Err(e),
                        Ok(v) => if pos < value.1 <= stream.len() {
                            borrow_root(table, r, stream, value.1, Some(v))
                        } else {
                            Err(ErrorView::MalformedInput)
                        },
                    }
                },
                EventView::Eof => at_end,
                EventView::Malformed => Err(ErrorView::MalformedInput),
                _ => borrow_root(table, r, stream, pos + 1, found),
            }
        }
    }
}

/// The value that a stream of events decodes to by paths.
pub open spec fn borrow_stream(table: &BorrowBindings, r: int, stream: Seq<EventView>) -> Outcome {
    borrow_root(table, r, stream, 0, None)
}


fn exact_scalar_exec(kind: ValueKind, text: &[u8]) -> (value: Option<Value>)
    ensures
        match value {
            Some(v) => exact_scalar(kind, text@) == Some(v.deep_view()),
            None => exact_scalar(kind, text@) is None,
        },
{
    match kind {
        ValueKind::String => Some(Value::Text(copy_bytes(text))),
        ValueKind::Bool => match parse_bool(text) {
            Some(b) => Some(Value::Bool(b)),
            None => None,
        },
        ValueKind::Number(ty) => match parse_number(text, ty) {
            Some(n) => Some(Value::Number(n)),
            None => None,
        },
        ValueKind::NestedBindable(_) => None,
    }
}

fn borrowed_scalar_exec(kind: ValueKind, text: &Result<Vec<u8>, TextError>) -> (value: Result<
    Value,
    XmlDeserializeError,
>)
    ensures
        outcome_view(value) == borrowed_scalar(kind, text_view(*text)),
{
    match text {
        Err(TextError::NotUtf8) => Err(XmlDeserializeError::EncodingError),
        Err(TextError::BadEscape) => Err(XmlDeserializeError::MalformedInput),
        Ok(t) => match exact_scalar_exec(kind, t.as_slice()) {
            Some(v) => Ok(v),
            None => Err(XmlDeserializeError::ValueParseError),
        },
    }
}

fn scalar_zero_value(kind: ValueKind) -> (value: Value)
    ensures
        value.deep_view() == scalar_zero(kind),
{
    match kind {
        ValueKind::String => Value::Text(Vec::new()),
        ValueKind::Bool => Value::Bool(false),
        ValueKind::Number(_) => Value::Number(0),
        ValueKind::NestedBindable(_) => Value::Absent,
    }
}

fn put(slots: &mut Vec<Value>, i: usize, card: Cardinality, v: Value)
    requires
        i < old(slots).len(),
    ensures
        final(slots).len() == old(slots).len(),
        values_view(final(slots)@) == assign(
            values_view(old(slots)@),
            i as int,
            card,
            v.deep_view(),
        ),
{
    let ghost before = slots@;
    let ghost value = v.deep_view();
    let mut taken = Value::Absent;
    std::mem::swap(&mut slots[i], &mut taken);
    let stored = match card {
        Cardinality::Repeated => match taken {
            Value::List(mut items) => {
                proof {
                    lemma_list_view(items);
                    crate::value::lemma_values_view_push(items@, v);
                }
                items.push(v);
                proof {
                    lemma_list_view(items);
                }
                Value::List(items)
            },
            _ => {
                let mut items: Vec<Value> = Vec::new();
                items.push(v);
                proof {
                    lemma_list_view(items);
                    assert(values_view(items@) =~= seq![value]);
                }
                Value::List(items)
            },
        },
        _ => v,
    };
    slots[i] = stored;
    assert(values_view(slots@) =~= assign(values_view(before), i as int, card, value));
}

fn borrow_slots_exec(fields: &Vec<BorrowField>) -> (slots: Vec<Value>)
    ensures
        values_view(slots@) == borrow_slots(fields@),
        slots.len() == fields.len(),
{
    let mut slots: Vec<Value> = Vec::new();
    let mut i: usize = 0;
    while i < fields.len()
        invariant
            i <= fields.len(),
            slots.len() == i,
            forall|j: int| 0 <= j < i ==> value_view(#[trigger] slots@[j]) == borrow_slot(fields@[j]),
        decreases fields.len() - i,
    {
        match fields[i].cardinality {
            Cardinality::Repeated => {
                let items: Vec<Value> = Vec::new();
                proof {
                    lemma_list_view(items);
                    assert(values_view(items@) =~= Seq::empty());
                }
                slots.push(Value::List(items));
            },
            _ => {
                slots.push(Value::Absent);
            },
        }
        i += 1;
    }
    assert(values_view(slots@) =~= borrow_slots(fields@));
    slots
}

fn find_named_exec(fields: &Vec<BorrowField>, kind: EleType, name: &[u8]) -> (found: Option<usize>)
    ensures
        match found {
            Some(i) => find_named(fields@, kind, name@, 0) == Some(i as int) && i < fields.len(),
            None => find_named(fields@, kind, name@, 0) is None,
        },
{
    let mut i: usize = 0;
    while i < fields.len()
        invariant
            i <= fields.len(),
            find_named(fields@, kind, name@, 0) == find_named(fields@, kind, name@, i as int),
        decreases fields.len() - i,
    {
        if kind_eq(fields[i].ty, kind) && bytes_eq(fields[i].name.as_slice(), name) {
            return Some(i);
        }
        i += 1;
    }
    None
}

fn borrow_attributes_exec(
    fields: &Vec<BorrowField>,
    attributes: &Vec<XmlAttribute>,
    initial: Vec<Value>,
) -> (after: Result<Vec<Value>, XmlDeserializeError>)
    requires
        initial.len() == fields.len(),
    ensures
        slots_view(after) == borrow_attributes(
            fields@,
            attributes.deep_view(),
            0,
            values_view(initial@),
        ),
        after matches Ok(s) ==> s.len() == fields.len(),
{
    let ghost whole = borrow_attributes(fields@, attributes.deep_view(), 0, values_view(initial@));
    let mut slots = initial;
    let mut k: usize = 0;
    while k < attributes.len()
        invariant
            k <= attributes.len(),
            slots.len() == fields.len(),
            whole == borrow_attributes(fields@, attributes.deep_view(), 0, values_view(initial@)),
            whole == borrow_attributes(
                fields@,
                attributes.deep_view(),
                k as int,
                values_view(slots@),
            ),
        decreases attributes.len() - k,
    {
        let attribute = &attributes[k];
        let local = local_name(attribute.key.as_slice());
        match find_named_exec(fields, EleType::Attr, local.as_slice()) {
            None => {},
            Some(i) => {
                match borrowed_scalar_exec(fields[i].value_kind, &attribute.value) {
                    Err(e) => {
                        return Err(e);
                    },
                    Ok(v) => {
                        put(&mut slots, i, fields[i].cardinality, v);
                    },
                }
            },
        }
        k += 1;
    }
    Ok(slots)
}

fn same_path(path: &Vec<Vec<u8>>, p: &Pointer) -> (same: bool)
    requires
        p.wf(),
    ensures
        same == (path_view(path@) == p.names()),
{
    p.eq(path)
}

fn borrow_text_exec(
    fields: &Vec<BorrowField>,
    p: &Pointer,
    text: &Result<Vec<u8>, TextError>,
    initial: Vec<Value>,
) -> (after: Result<Vec<Value>, XmlDeserializeError>)
    requires
        p.wf(),
        initial.len() == fields.len(),
    ensures
        slots_view(after) == borrow_text(
            fields@,
            p.names(),
            text_view(*text),
            0,
            values_view(initial@),
        ),
        after matches Ok(s) ==> s.len() == fields.len(),
{
    let ghost whole = borrow_text(fields@, p.names(), text_view(*text), 0, values_view(initial@));
    let mut slots = initial;
    let mut k: usize = 0;
    while k < fields.len()
        invariant
            p.wf(),
            k <= fields.len(),
            slots.len() == fields.len(),
            whole == borrow_text(fields@, p.names(), text_view(*text), 0, values_view(initial@)),
            whole == borrow_text(
                fields@,
                p.names(),
                text_view(*text),
                k as int,
                values_view(slots@),
            ),
        decreases fields.len() - k,
    {
        if kind_eq(fields[k].ty, EleType::Text) && same_path(&fields[k].path, p) {
            match borrowed_scalar_exec(fields[k].value_kind, text) {
                Err(e) => {
                    return Err(e);
                },
                Ok(v) => {
                    put(&mut slots, k, fields[k].cardinality, v);
                },
            }
        }
        k += 1;
    }
    Ok(slots)
}

fn find_borrow_missing_exec(fields: &Vec<BorrowField>, slots: &Vec<Value>) -> (found: Option<usize>)
    requires
        slots.len() == fields.len(),
    ensures
        match found {
            Some(i) => find_borrow_missing(fields@, values_view(slots@), 0) == Some(i as int) && i
                < fields.len(),
            None => find_borrow_missing(fields@, values_view(slots@), 0) is None,
        },
{
    let mut i: usize = 0;
    while i < fields.len()
        invariant
            i <= fields.len(),
            slots.len() == fields.len(),
            find_borrow_missing(fields@, values_view(slots@), 0) == find_borrow_missing(
                fields@,
                values_view(slots@),
                i as int,
            ),
        decreases fields.len() - i,
    {
        let f = &fields[i];
        if matches!(f.cardinality, Cardinality::Required) && slots[i].is_absent() && !f.default {
            return Some(i);
        }
        i += 1;
    }
    None
}

fn borrow_finish_exec(fields: &Vec<BorrowField>, slots: Vec<Value>) -> (value: Result<
    Value,
    XmlDeserializeError,
>)
    requires
        slots.len() == fields.len(),
    ensures
        outcome_view(value) == borrow_finish(fields@, values_view(slots@)),
{
    match find_borrow_missing_exec(fields, &slots) {
        Some(i) => {
            let name = S(copy_bytes(fields[i].name.as_slice()));
            if kind_eq(fields[i].ty, EleType::Attr) {
                Err(XmlDeserializeError::MissingAttribute(name))
            } else {
                Err(XmlDeserializeError::MissingElement(name))
            }
        },
        None => {
            let ghost read = values_view(slots@);
            let mut slots = slots;
            let mut values: Vec<Value> = Vec::new();
            let mut i: usize = 0;
            while i < fields.len()
                invariant
                    i <= fields.len(),
                    slots.len() == fields.len(),
                    read.len() == fields.len(),
                    values.len() == i,
                    forall|j: int| i <= j < fields.len() ==> value_view(#[trigger] slots@[j]) == read[j],
                    forall|j: int|
                        0 <= j < i ==> value_view(#[trigger] values@[j]) == borrow_final(
                            fields@[j],
                            read[j],
                        ),
                decreases fields.len() - i,
            {
                let f = &fields[i];
                let mut taken = Value::Absent;
                std::mem::swap(&mut slots[i], &mut taken);
                let value = if matches!(f.cardinality, Cardinality::Required) && taken.is_absent() {
                    scalar_zero_value(f.value_kind)
                } else {
                    taken
                };
                values.push(value);
                i += 1;
            }
            proof {
                lemma_list_view(values);
                assert(values_view(values@) =~= borrow_finish(fields@, read)->Ok_0->Struct_0);
            }
            Ok(Value::Struct(values))
        },
    }
}

/// Decodes the container `r` that was opened by `start`.
pub fn borrow_container_exec(
    table: &BorrowBindings,
    r: usize,
    start: &XmlTag,
    is_empty: bool,
    events: &Vec<XmlEvent>,
    pos: usize,
) -> (d: (Result<Value, XmlDeserializeError>, usize))
    requires
        pos <= events.len(),
    ensures
        (outcome_view(d.0), d.1 as int) == borrow_container(
            table,
            r as int,
            start.deep_view(),
            is_empty,
            events.deep_view(),
            pos as int,
        ),
        pos <= d.1 <= events.len(),
    decreases events.len() - pos, 2nat,
{
    if r >= table.containers.len() {
        return (Err(XmlDeserializeError::MalformedInput), pos);
    }
    let fields = &table.containers[r].fields;
    let slots = borrow_slots_exec(fields);
    match borrow_attributes_exec(fields, &start.attributes, slots) {
        Err(e) => (Err(e), pos),
        Ok(slots) => {
            if is_empty {
                (borrow_finish_exec(fields, slots), pos)
            } else {
                let content = borrow_content_exec(table, r, start.name.as_slice(), events, pos, slots);
                match content.0 {
                    Err(e) => (Err(e), content.1),
                    Ok(done) => (borrow_finish_exec(fields, done), content.1),
                }
            }
        },
    }
}

/// Reads the content of the container `r` up to the closing tag named `tag`.
fn borrow_content_exec(
    table: &BorrowBindings,
    r: usize,
    tag: &[u8],
    events: &Vec<XmlEvent>,
    pos: usize,
    initial: Vec<Value>,
) -> (p: (Result<Vec<Value>, XmlDeserializeError>, usize))
    requires
        r < table.containers.len(),
        initial.len() == table.containers[r as int].fields.len(),
        pos <= events.len(),
    ensures
        progress_view(p) == borrow_content(
            table,
            r as int,
            tag@,
            events.deep_view(),
            pos as int,
            values_view(initial@),
            Seq::empty(),
        ),
        pos <= p.1 <= events.len(),
        p.0 matches Ok(s) ==> s.len() == initial.len(),
    decreases events.len() - pos, 1nat,
{
    let ghost whole = borrow_content(
        table,
        r as int,
        tag@,
        events.deep_view(),
        pos as int,
        values_view(initial@),
        Seq::empty(),
    );
    let fields = &table.containers[r].fields;
    let mut slots = initial;
    let mut open = Pointer::new();
    let mut at: usize = pos;
    while at < events.len()
        invariant
            r < table.containers.len(),
            *fields == table.containers[r as int].fields,
            pos <= at <= events.len(),
            open.wf(),
            open.idx <= at - pos,
            slots.len() == fields.len(),
            initial.len() == fields.len(),
            whole == borrow_content(
                table,
                r as int,
                tag@,
                events.deep_view(),
                pos as int,
                values_view(initial@),
                Seq::empty(),
            ),
            whole == borrow_content(
                table,
                r as int,
                tag@,
                events.deep_view(),
                at as int,
                values_view(slots@),
                open.names(),
            ),
        decreases events.len() - at,
    {
        match &events[at] {
            XmlEvent::Start(t) => {
                let local = local_name(t.name.as_slice());
                let mut entered = true;
                match find_named_exec(fields, EleType::Child, local.as_slice()) {
                    Some(i) => match fields[i].value_kind {
                        ValueKind::NestedBindable(inner) => {
                            let nested = borrow_container_exec(table, inner, t, false, events, at + 1);
                            match nested.0 {
                                Err(e) => {
                                    return (Err(e), nested.1);
                                },
                                Ok(v) => {
                                    put(&mut slots, i, fields[i].cardinality, v);
                                    at = nested.1;
                                    entered = false;
                                },
                            }
                        },
                        _ => {},
                    },
                    None => {},
                }
                if entered {
                    open.visit(copy_bytes(t.name.as_slice()));
                    at += 1;
                }
            },
            XmlEvent::Empty(t) => {
                let local = local_name(t.name.as_slice());
                let mut next = at + 1;
                match find_named_exec(fields, EleType::SelfClosedChild, local.as_slice()) {
                    Some(i) => match fields[i].value_kind {
                        ValueKind::NestedBindable(inner) => {
                            let nested = borrow_container_exec(table, inner, t, true, events, at + 1);
                            match nested.0 {
                                Err(e) => {
                                    return (Err(e), nested.1);
                                },
                                Ok(v) => {
                                    put(&mut slots, i, fields[i].cardinality, v);
                                    next = nested.1;
                                },
                            }
                        },
                        ValueKind::Bool => {
                            put(&mut slots, i, fields[i].cardinality, Value::Bool(true));
                        },
                        _ => {},
                    },
                    None => {},
                }
                at = next;
            },
            XmlEvent::Text(text) => {
                match borrow_text_exec(fields, &open, text, slots) {
                    Err(e) => {
                        return (Err(e), at + 1);
                    },
                    Ok(after) => {
                        slots = after;
                        at += 1;
                    },
                }
            },
            XmlEvent::End(end) => {
                if bytes_eq(end.name.as_slice(), tag) {
                    return (Ok(slots), at + 1);
                }
                open.leave();
                at += 1;
            },
            XmlEvent::Eof => {
                return (Ok(slots), at);
            },
            XmlEvent::Malformed => {
                return (Err(XmlDeserializeError::MalformedInput), at);
            },
            _ => {
                at += 1;
            },
        }
    }
    (Ok(slots), at)
}

/// Decodes a stream of events by paths, as a document whose root is the
/// container `r`.
pub fn borrow_events(table: &BorrowBindings, r: usize, events: &Vec<XmlEvent>) -> (value:
    XmlBorrowResult<Value>)
    ensures
        outcome_view(value) == borrow_stream(table, r as int, events.deep_view()),
{
    if r >= table.containers.len() {
        return Err(XmlDeserializeError::MissingRoot);
    }
    let root = &table.containers[r].root;
    let ghost whole = borrow_root(table, r as int, events.deep_view(), 0, None);
    let mut found: Option<Value> = None;
    let mut at: usize = 0;
    while at < events.len()
        invariant
            r < table.containers.len(),
            *root == table.containers[r as int].root,
            at <= events.len(),
            whole == borrow_root(table, r as int, events.deep_view(), 0, None),
            whole == borrow_root(
                table,
                r as int,
                events.deep_view(),
                at as int,
                match found {
                    Some(v) => Some(v.deep_view()),
                    None => None,
                },
            ),
        decreases events.len() - at,
    {
        match &events[at] {
            XmlEvent::Start(t) => {
                let is_other = match root {
                    Some(name) => {
                        let local = local_name(t.name.as_slice());
                        !bytes_eq(local.as_slice(), name.as_slice())
                    },
                    None => false,
                };
                if is_other {
                    return borrow_outcome(found, root);
                }
                let value = borrow_container_exec(table, r, t, false, events, at + 1);
                match value.0 {
                    Err(e) => {
                        return Err(e);
                    },
                    Ok(v) => {
                        found = Some(v);
                        at = value.1;
                    },
                }
            },
            XmlEvent::Eof => {
                return borrow_outcome(found, root);
            },
            XmlEvent::Malformed => {
                return Err(XmlDeserializeError::MalformedInput);
            },
            _ => {
                at += 1;
            },
        }
    }
    borrow_outcome(found, root)
}

/// What decoding gives once the stream is read: the root that was found, or
/// the error that names what is missing.
fn borrow_outcome(found: Option<Value>, root: &Option<Vec<u8>>) -> (value: XmlBorrowResult<Value>)
    ensures
        outcome_view(value) == match found {
            Some(v) => Ok(v.deep_view()),
            None => match *root {
                Some(name) => Err(ErrorView::MissingElement(name@)),
                None => Err(ErrorView::MissingRoot),
            },
        },
{
    match found {
        Some(v) => Ok(v),
        None => match root {
            Some(name) => Err(XmlDeserializeError::MissingElement(S(copy_bytes(name.as_slice())))),
            None => Err(XmlDeserializeError::MissingRoot),
        },
    }
}

/// Decodes what a reader without namespaces still holds by paths. The
/// reader is first set up for it: it does not check comments, leaves empty
/// elements as they stand, and does not hold a closing tag to the name of what
/// it closes. Text is not trimmed.
pub fn borrow_with_reader(table: &BorrowBindings, r: usize, reader: Reader<&[u8]>) -> (value:
    XmlBorrowResult<Value>)
    ensures
        outcome_view(value) == borrow_stream(table, r as int, cooked_stream(plain_settled(reader))),
{
    let events = read_plain_events(settle_plain_reader(reader));
    borrow_events(table, r, &events)
}

/// Decodes a document given as text by paths.
pub fn from_str(table: &BorrowBindings, r: usize, s: &str) -> (value: XmlBorrowResult<Value>)
    ensures
        outcome_view(value) == borrow_stream(
            table,
            r as int,
            plain_events_of_document(s.spec_bytes()),
        ),
{
    borrow_with_reader(table, r, open_plain_reader(s.as_bytes()))
}

} // verus!
