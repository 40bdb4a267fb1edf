//! Reading back what was written: the events that markup stands for.
//!
//! This is XML's own rule, written out: a tag is read as it stands, its
//! name resolved by the namespace declarations in force; text is read trimmed
//! and with its references resolved. Declarations that name the reserved
//! prefixes `xml` and `xmlns`, or their namespaces, are not covered. The rule
//! says what a reader owes; the reader that the tokenizer calls is not held to
//! it here.

use crate::event::{AttributeView, EventView, NamespaceView, TagView};
use crate::ser::{escape_byte, escaped, MarkupAttributeView, MarkupTagView, MarkupView};
use crate::text::{first_index, is_space, leading_spaces, trailing_spaces, trimmed};
use vstd::prelude::*;

verus! {

/// Whether `e` goes on at `at` with the bytes of `word`.
pub open spec fn has_at(e: Seq<u8>, at: int, word: Seq<u8>) -> bool {
    0 <= at && at + word.len() <= e.len() && e.subrange(at, at + word.len()) == word
}

/// The text that escaped text stands for, as far as it is escaped by the
/// five references that escaping writes: each of them is the character it
/// names, every other byte is itself.
pub open spec fn plain_text(e: Seq<u8>) -> Seq<u8>
    decreases e.len(),
{
    if e.len() == 0 {
        Seq::empty()
    } else if has_at(e, 0, escape_byte(0x3c)) {
        seq![0x3cu8] + plain_text(e.skip(4))
    } else if has_at(e, 0, escape_byte(0x3e)) {
        seq![0x3eu8] + plain_text(e.skip(4))
    } else if has_at(e, 0, escape_byte(0x26)) {
        seq![0x26u8] + plain_text(e.skip(5))
    } else if has_at(e, 0, escape_byte(0x27)) {
        seq![0x27u8] + plain_text(e.skip(6))
    } else if has_at(e, 0, escape_byte(0x22)) {
        seq![0x22u8] + plain_text(e.skip(6))
    } else {
        seq![e[0]] + plain_text(e.skip(1))
    }
}

proof fn lemma_escaped_front(s: Seq<u8>)
    requires
        s.len() > 0,
    ensures
        escaped(s) == escape_byte(s[0]) + escaped(s.skip(1)),
    decreases s.len(),
{
    if s.len() == 1 {
        assert(s.drop_last() =~= Seq::<u8>::empty());
        assert(s.skip(1) =~= Seq::<u8>::empty());
        assert(escaped(s) =~= escape_byte(s[0]) + escaped(s.skip(1)));
    } else {
        lemma_escaped_front(s.drop_last());
        assert(s.drop_last().skip(1) =~= s.skip(1).drop_last());
        assert(s.drop_last()[0] == s[0]);
        assert(s.skip(1).last() == s.last());
        assert(escaped(s) =~= escape_byte(s[0]) + escaped(s.skip(1)));
    }
}

proof fn lemma_plain_text_front(b: u8, rest: Seq<u8>)
    ensures
        plain_text(escape_byte(b) + rest) == seq![b] + plain_text(rest),
{
    let word = escape_byte(b);
    let e = word + rest;
    assert(e.subrange(0, word.len() as int) =~= word);
    assert(e.skip(word.len() as int) =~= rest);
    assert(e[0] == word[0]);
    if b == 0x3c || b == 0x3e || b == 0x26 || b == 0x27 || b == 0x22 {
        assert(e[0] == 0x26);
        assert(e[1] == word[1]);
        assert(e[2] == word[2]);
        if e.len() >= 4 {
            assert(e.subrange(0, 4)[1] == e[1]);
            assert(e.subrange(0, 4)[2] == e[2]);
        }
        if e.len() >= 5 {
            assert(e.subrange(0, 5)[1] == e[1]);
            assert(e.subrange(0, 5)[2] == e[2]);
        }
        if e.len() >= 6 {
            assert(e.subrange(0, 6)[1] == e[1]);
            assert(e.subrange(0, 6)[2] == e[2]);
        }
    } else {
        assert(e[0] != 0x26);
        if e.len() >= 4 {
            assert(e.subrange(0, 4)[0] == e[0]);
        }
        if e.len() >= 5 {
            assert(e.subrange(0, 5)[0] == e[0]);
        }
        if e.len() >= 6 {
            assert(e.subrange(0, 6)[0] == e[0]);
        }
    }
}

/// Escaping loses nothing: the text that escaped text stands for is the
/// text that was escaped.
pub proof fn lemma_escaping_round_trip(s: Seq<u8>)
    ensures
        plain_text(escaped(s)) == s,
    decreases s.len(),
{
    if s.len() > 0 {
        lemma_escaped_front(s);
        lemma_plain_text_front(s[0], escaped(s.skip(1)));
        lemma_escaping_round_trip(s.skip(1));
        assert(seq![s[0]] + s.skip(1) =~= s);
    }
}


/// A prefix bound to a namespace; the empty prefix stands for the default
/// namespace.
pub struct Binding {
    pub prefix: Seq<u8>,
    pub uri: Seq<u8>,
}

/// The bindings in force at a place, the latest last.
pub type Scope = Seq<Binding>;

/// The bytes of `xmlns`.
pub open spec fn xmlns() -> Seq<u8> {
    seq![0x78u8, 0x6du8, 0x6cu8, 0x6eu8, 0x73u8]
}

/// The bytes of `xml`.
pub open spec fn xml() -> Seq<u8> {
    seq![0x78u8, 0x6du8, 0x6cu8]
}

/// The namespace that the prefix `xml` is bound to from the start.
pub open spec fn xml_space() -> Seq<u8> {
    seq![
        0x68u8, 0x74u8, 0x74u8, 0x70u8, 0x3au8, 0x2fu8, 0x2fu8, 0x77u8, 0x77u8, 0x77u8, 0x2eu8,
        0x77u8, 0x33u8, 0x2eu8, 0x6fu8, 0x72u8, 0x67u8, 0x2fu8, 0x58u8, 0x4du8, 0x4cu8, 0x2fu8,
        0x31u8, 0x39u8, 0x39u8, 0x38u8, 0x2fu8, 0x6eu8, 0x61u8, 0x6du8, 0x65u8, 0x73u8, 0x70u8,
        0x61u8, 0x63u8, 0x65u8,
    ]
}

/// The namespace that the prefix `xmlns` is bound to from the start.
pub open spec fn xmlns_space() -> Seq<u8> {
    seq![
        0x68u8, 0x74u8, 0x74u8, 0x70u8, 0x3au8, 0x2fu8, 0x2fu8, 0x77u8, 0x77u8, 0x77u8, 0x2eu8,
        0x77u8, 0x33u8, 0x2eu8, 0x6fu8, 0x72u8, 0x67u8, 0x2fu8, 0x32u8, 0x30u8, 0x30u8, 0x30u8,
        0x2fu8, 0x78u8, 0x6du8, 0x6cu8, 0x6eu8, 0x73u8, 0x2fu8,
    ]
}

/// The binding that an attribute declares, if it declares one: `xmlns`
/// binds the default namespace, `xmlns:` and a prefix bind that prefix, each
/// to the value as it is written.
pub open spec fn declared(a: MarkupAttributeView) -> Option<Binding> {
    if a.key == xmlns() {
        Some(Binding { prefix: Seq::empty(), uri: a.value })
    } else if a.key.len() > 5 && a.key.take(5) == xmlns() && a.key[5] == 0x3a {
        Some(Binding { prefix: a.key.skip(6), uri: a.value })
    } else {
        None
    }
}

/// The scope inside a tag with these attributes that stands in `scope`.
pub open spec fn scope_with(scope: Scope, attributes: Seq<MarkupAttributeView>) -> Scope
    decreases attributes.len(),
{
    if attributes.len() == 0 {
        scope
    } else {
        let front = scope_with(scope, attributes.drop_last());
        match declared(attributes.last()) {
            Some(binding) => front.push(binding),
            None => front,
        }
    }
}

/// The namespace that a prefix is bound to: by the latest binding of it
/// in the scope, and for `xml` and `xmlns` from the start.
pub open spec fn bound_to(scope: Scope, prefix: Seq<u8>) -> Option<Seq<u8>>
    decreases scope.len(),
{
    if scope.len() == 0 {
        if prefix == xml() {
            Some(xml_space())
        } else if prefix == xmlns() {
            Some(xmlns_space())
        } else {
            None
        }
    } else if scope.last().prefix == prefix {
        Some(scope.last().uri)
    } else {
        bound_to(scope.drop_last(), prefix)
    }
}

/// What the name of an element resolves to in a scope. A name with a
/// prefix is bound to the namespace of the prefix, and unknown where the
/// prefix is not bound or bound to nothing. A name without one is bound to
/// the default namespace where there is one, and else unbound.
pub open spec fn resolve(scope: Scope, name: Seq<u8>) -> NamespaceView {
    let colon = first_index(name, |b: u8| b == 0x3a);
    if colon < name.len() {
        match bound_to(scope, name.take(colon as int)) {
            Some(uri) => if uri.len() > 0 {
                NamespaceView::Bound(uri)
            } else {
                NamespaceView::Unknown
            },
            None => NamespaceView::Unknown,
        }
    } else {
        match bound_to(scope, Seq::empty()) {
            Some(uri) => if uri.len() > 0 {
                NamespaceView::Bound(uri)
            } else {
                NamespaceView::Unbound
            },
            None => NamespaceView::Unbound,
        }
    }
}

/// The attributes that written attributes are read as.
pub open spec fn attributes_read(attributes: Seq<MarkupAttributeView>) -> Seq<AttributeView> {
    Seq::new(
        attributes.len(),
        |i: int| AttributeView { key: attributes[i].key, value: Ok(plain_text(attributes[i].value)) },
    )
}

/// The tag that a written tag is read as where it stands in `scope`: its
/// name resolves in the scope with what the tag itself declares.
pub open spec fn tag_read(tag: MarkupTagView, scope: Scope) -> TagView {
    TagView {
        namespace: resolve(scope_with(scope, tag.attributes), tag.name),
        name: tag.name,
        attributes: attributes_read(tag.attributes),
    }
}

/// The closing tag that a written closing tag is read as in the scope of
/// the element it closes.
pub open spec fn end_read(name: Seq<u8>, scope: Scope) -> TagView {
    TagView { namespace: resolve(scope, name), name, attributes: Seq::empty() }
}

/// The scope of the innermost open element; the empty scope where none is
/// open.
pub open spec fn top(open: Seq<Scope>) -> Scope {
    if open.len() == 0 {
        Seq::empty()
    } else {
        open.last()
    }
}

/// The scopes of the open elements behind one piece of markup.
pub open spec fn open_behind_piece(m: MarkupView, open: Seq<Scope>) -> Seq<Scope> {
    match m {
        MarkupView::Start(tag) => open.push(scope_with(top(open), tag.attributes)),
        MarkupView::End(_) => if open.len() == 0 {
            open
        } else {
            open.drop_last()
        },
        _ => open,
    }
}

/// The events that one piece of markup is read as where the elements of
/// these scopes are open: a tag is itself, with its name resolved; text is
/// trimmed and unescaped, and text that is white space alone is no event.
pub open spec fn piece_read(m: MarkupView, open: Seq<Scope>) -> Seq<EventView> {
    match m {
        MarkupView::Start(tag) => seq![EventView::Start(tag_read(tag, top(open)))],
        MarkupView::Empty(tag) => seq![EventView::Empty(tag_read(tag, top(open)))],
        MarkupView::End(name) => seq![EventView::End(end_read(name, top(open)))],
        MarkupView::Text(text) => if trimmed(text).len() == 0 {
            Seq::empty()
        } else {
            seq![EventView::Text(Ok(plain_text(trimmed(text))))]
        },
    }
}

/// The scopes of the open elements behind markup.
pub open spec fn open_behind_markup(markup: Seq<MarkupView>, open: Seq<Scope>) -> Seq<Scope>
    decreases markup.len(),
{
    if markup.len() == 0 {
        open
    } else {
        open_behind_piece(markup.last(), open_behind_markup(markup.drop_last(), open))
    }
}

/// The events that markup is read as where the elements of these scopes
/// are open.
pub open spec fn markup_read(markup: Seq<MarkupView>, open: Seq<Scope>) -> Seq<EventView>
    decreases markup.len(),
{
    if markup.len() == 0 {
        Seq::empty()
    } else {
        markup_read(markup.drop_last(), open) + piece_read(
            markup.last(),
            open_behind_markup(markup.drop_last(), open),
        )
    }
}

pub proof fn lemma_markup_read_concat(a: Seq<MarkupView>, b: Seq<MarkupView>, open: Seq<Scope>)
    ensures
        markup_read(a + b, open) == markup_read(a, open) + markup_read(
            b,
            open_behind_markup(a, open),
        ),
        open_behind_markup(a + b, open) == open_behind_markup(b, open_behind_markup(a, open)),
    decreases b.len(),
{
    let mid = open_behind_markup(a, open);
    if b.len() == 0 {
        assert(a + b =~= a);
        assert(markup_read(a, open) + markup_read(b, mid) =~= markup_read(a, open));
    } else {
        lemma_markup_read_concat(a, b.drop_last(), open);
        assert((a + b).drop_last() =~= a + b.drop_last());
        assert((a + b).last() == b.last());
        assert(markup_read(a + b, open) =~= markup_read(a, open) + markup_read(b, mid));
    }
}

pub proof fn lemma_markup_read_one(m: MarkupView, open: Seq<Scope>)
    ensures
        markup_read(seq![m], open) == piece_read(m, open),
        open_behind_markup(seq![m], open) == open_behind_piece(m, open),
{
    reveal_with_fuel(markup_read, 2);
    reveal_with_fuel(open_behind_markup, 2);
    assert(seq![m].drop_last() =~= Seq::<MarkupView>::empty());
    assert(seq![m].last() == m);
    assert(Seq::<EventView>::empty() + piece_read(m, open) =~= piece_read(m, open));
}

/// Whether text is read as it is written: it does not begin or end with
/// white space.
pub open spec fn stable_text(t: Seq<u8>) -> bool {
    t.len() == 0 || (!is_space(t[0]) && !is_space(t.last()))
}

proof fn lemma_trimmed_stable(t: Seq<u8>)
    requires
        stable_text(t),
    ensures
        trimmed(t) == t,
{
    if t.len() == 0 {
        assert(leading_spaces(t) == 0);
        assert(t.skip(0) =~= t);
        assert(trailing_spaces(t) == 0);
        assert(t.take(0) =~= t);
    } else {
        assert(leading_spaces(t) == 0);
        assert(t.skip(0) =~= t);
        assert(trailing_spaces(t) == 0);
        assert(t.take(t.len() as int) =~= t);
    }
}

proof fn lemma_escaped_shape(t: Seq<u8>)
    requires
        t.len() > 0,
    ensures
        escaped(t).len() > 0,
        is_space(escaped(t)[0]) == is_space(t[0]),
        is_space(escaped(t).last()) == is_space(t.last()),
{
    lemma_escaped_front(t);
    let first = escape_byte(t[0]);
    assert(escaped(t)[0] == first[0]);
    let last = escape_byte(t.last());
    assert(escaped(t) == escaped(t.drop_last()) + last);
    assert(escaped(t).last() == last.last());
}

/// Text that is stable is read as it was written.
pub proof fn lemma_text_read(t: Seq<u8>)
    requires
        stable_text(t),
        t.len() > 0,
    ensures
        forall|open: Seq<Scope>|
            #[trigger] piece_read(MarkupView::Text(escaped(t)), open) == seq![
                EventView::Text(Ok(t)),
            ],
{
    lemma_escaped_shape(t);
    lemma_trimmed_stable(escaped(t));
    lemma_escaping_round_trip(t);
}

} // verus!
