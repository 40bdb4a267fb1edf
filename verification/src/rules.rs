//! Checking descriptors against the rules of the data model.

use crate::container::EleType;
use crate::decode::kind_eq;
use crate::descriptor::{
    fields_wf, same_name, Bindings, Cardinality, ContainerDescriptor, FieldDescriptor, ValueKind,
};
use crate::symbol::str_eq;
use crate::text::bytes_eq;
use vstd::prelude::*;

verus! {

impl Cardinality {
    /// How often a field of a type of this name occurs: any number of times
    /// for `Vec`, at most once for `Option`, once for any other.
    pub open spec fn of_type_name(name: Seq<char>) -> Cardinality {
        if name == "Vec"@ {
            Cardinality::Repeated
        } else if name == "Option"@ {
            Cardinality::Optional
        } else {
            Cardinality::Required
        }
    }

    /// How often a field of a type of this name occurs.
    pub fn from_type_name(name: &str) -> (cardinality: Cardinality)
        ensures
            cardinality == Cardinality::of_type_name(name@),
    {
        if str_eq(name, "Vec") {
            Cardinality::Repeated
        } else if str_eq(name, "Option") {
            Cardinality::Optional
        } else {
            Cardinality::Required
        }
    }
}

/// Whether the kind can be bound. A number of a type that is no integer
/// type is refused.
fn kind_ok(kind: ValueKind, table: &Bindings) -> (ok: bool)
    ensures
        ok == ValueKind::wf(kind, table),
{
    match kind {
        ValueKind::Number(ty) => ty.is_integer(),
        ValueKind::NestedBindable(r) => r < table.containers.len(),
        _ => true,
    }
}

fn field_ok(f: &FieldDescriptor, table: &Bindings) -> (ok: bool)
    ensures
        ok == f.wf(table),
{
    let nested = matches!(f.value_kind, ValueKind::NestedBindable(_));
    let is_bool = matches!(f.value_kind, ValueKind::Bool);
    let is_string = matches!(f.value_kind, ValueKind::String);
    let repeated = matches!(f.cardinality, Cardinality::Repeated);
    let required = matches!(f.cardinality, Cardinality::Required);
    let attr = kind_eq(f.ty, EleType::Attr);
    let xmlns = kind_eq(f.ty, EleType::XmlNs);
    if f.name.is_none() && !(kind_eq(f.ty, EleType::Text) || kind_eq(f.ty, EleType::Untag)
        || kind_eq(f.ty, EleType::Any)) {
        return false;
    }
    if !kind_ok(f.value_kind, table) {
        return false;
    }
    if attr && (nested || repeated) {
        return false;
    }
    if kind_eq(f.ty, EleType::Text) && nested {
        return false;
    }
    if kind_eq(f.ty, EleType::SelfClosedChild) && !(is_bool || nested) {
        return false;
    }
    if kind_eq(f.ty, EleType::Untag) {
        match f.value_kind {
            ValueKind::NestedBindable(r) => {
                if !table.containers[r].is_enum() {
                    return false;
                }
            },
            _ => {
                return false;
            },
        }
    }
    if kind_eq(f.ty, EleType::Any) && !is_string {
        return false;
    }
    if xmlns && f.value.is_none() {
        return false;
    }
    if f.value.is_some() && !((attr || xmlns) && is_string && required) {
        return false;
    }
    true
}

fn is_child_exec(f: &FieldDescriptor) -> (child: bool)
    ensures
        child == f.is_child(),
{
    kind_eq(f.ty, EleType::Child) || kind_eq(f.ty, EleType::SelfClosedChild)
}

fn same_name_exec(a: &Option<Vec<u8>>, b: &Option<Vec<u8>>) -> (same: bool)
    ensures
        same == same_name(*a, *b),
{
    match a {
        Some(x) => match b {
            Some(y) => bytes_eq(x.as_slice(), y.as_slice()),
            None => false,
        },
        None => false,
    }
}

/// Whether two fields of one container can stand together.
pub open spec fn can_stand_together(a: FieldDescriptor, b: FieldDescriptor) -> bool {
    &&& !(a.ty == EleType::Attr && b.ty == EleType::Attr && same_name(a.name, b.name))
    &&& !(a.is_child() && b.is_child() && (a.ns is Some) == (b.ns is Some) && same_name(
        a.name,
        b.name,
    ))
    &&& !(a.ty == EleType::Text && b.is_child())
    &&& !(a.is_child() && b.ty == EleType::Text)
    &&& !(a.ty == EleType::Text && b.ty == EleType::Text)
    &&& !(a.ty == EleType::Any && b.ty == EleType::Any)
}

fn can_stand_together_exec(a: &FieldDescriptor, b: &FieldDescriptor) -> (ok: bool)
    ensures
        ok == can_stand_together(*a, *b),
{
    let a_attr = kind_eq(a.ty, EleType::Attr);
    let b_attr = kind_eq(b.ty, EleType::Attr);
    let a_text = kind_eq(a.ty, EleType::Text);
    let b_text = kind_eq(b.ty, EleType::Text);
    let a_any = kind_eq(a.ty, EleType::Any);
    let b_any = kind_eq(b.ty, EleType::Any);
    let a_child = is_child_exec(a);
    let b_child = is_child_exec(b);
    if a_attr && b_attr && same_name_exec(&a.name, &b.name) {
        return false;
    }
    if a_child && b_child && a.ns.is_some() == b.ns.is_some() && same_name_exec(&a.name, &b.name) {
        return false;
    }
    !(a_text && b_child) && !(a_child && b_text) && !(a_text && b_text) && !(a_any && b_any)
}

proof fn lemma_fields_wf(fields: Seq<FieldDescriptor>)
    ensures
        fields_wf(fields) <==> forall|i: int, j: int|
            0 <= i < j < fields.len() ==> can_stand_together(#[trigger] fields[i], #[trigger] fields[j]),
{
    let pairs = forall|i: int, j: int|
        0 <= i < j < fields.len() ==> can_stand_together(#[trigger] fields[i], #[trigger] fields[j]);
    if pairs {
        assert forall|i: int, j: int|
            0 <= i < fields.len() && 0 <= j < fields.len() && #[trigger] fields[i].ty
                == EleType::Text implies !#[trigger] fields[j].is_child() by {
            if i < j {
                assert(can_stand_together(fields[i], fields[j]));
            } else if j < i {
                assert(can_stand_together(fields[j], fields[i]));
            }
        }
        assert(fields_wf(fields));
    }
    if fields_wf(fields) {
        assert forall|i: int, j: int| 0 <= i < j < fields.len() implies can_stand_together(
            #[trigger] fields[i],
            #[trigger] fields[j],
        ) by {
            if fields[j].ty == EleType::Text {
                assert(!fields[i].is_child());
            }
        }
    }
}

fn fields_ok(fields: &Vec<FieldDescriptor>) -> (ok: bool)
    ensures
        ok == fields_wf(fields@),
{
    proof {
        lemma_fields_wf(fields@);
    }
    let mut i: usize = 0;
    while i < fields.len()
        invariant
            i <= fields.len(),
            forall|a: int, b: int|
                0 <= a < b < fields.len() && a < i ==> can_stand_together(
                    #[trigger] fields@[a],
                    #[trigger] fields@[b],
                ),
        decreases fields.len() - i,
    {
        let mut j: usize = i + 1;
        while j < fields.len()
            invariant
                i < j <= fields.len(),
                forall|a: int, b: int|
                    0 <= a < b < fields.len() && a < i ==> can_stand_together(
                        #[trigger] fields@[a],
                        #[trigger] fields@[b],
                    ),
                forall|b: int| i < b < j ==> can_stand_together(fields@[i as int], #[trigger] fields@[b]),
            decreases fields.len() - j,
        {
            if !can_stand_together_exec(&fields[i], &fields[j]) {
                assert(!can_stand_together(fields@[i as int], fields@[j as int]));
                return false;
            }
            j += 1;
        }
        i += 1;
    }
    true
}

impl ContainerDescriptor {
    /// Whether the container keeps the rules of the data model in `table`.
    pub fn validate(&self, table: &Bindings) -> (ok: bool)
        ensures
            ok == self.wf(table),
    {
        match self {
            ContainerDescriptor::Struct { fields, .. } => {
                let mut i: usize = 0;
                while i < fields.len()
                    invariant
                        i <= fields.len(),
                        *self is Struct,
                        self->fields == *fields,
                        forall|k: int| 0 <= k < i ==> (#[trigger] fields@[k]).wf(table),
                    decreases fields.len() - i,
                {
                    if !field_ok(&fields[i], table) {
                        return false;
                    }
                    i += 1;
                }
                fields_ok(fields)
            },
            ContainerDescriptor::Enum { variants, .. } => {
                let mut i: usize = 0;
                while i < variants.len()
                    invariant
                        i <= variants.len(),
                        *self is Enum,
                        self->variants == *variants,
                        forall|k: int|
                            0 <= k < i ==> match (#[trigger] variants@[k]).payload {
                                Some(kind) => ValueKind::wf(kind, table),
                                None => true,
                            },
                    decreases variants.len() - i,
                {
                    let ok = match variants[i].payload {
                        Some(kind) => kind_ok(kind, table),
                        None => true,
                    };
                    if !ok {
                        return false;
                    }
                    i += 1;
                }
                true
            },
        }
    }
}

impl Bindings {
    /// Whether every container keeps the rules of the data model and every
    /// nested container that is named exists.
    pub fn validate(&self) -> (ok: bool)
        ensures
            ok == self.wf(),
    {
        let mut i: usize = 0;
        while i < self.containers.len()
            invariant
                i <= self.containers.len(),
                forall|k: int| 0 <= k < i ==> (#[trigger] self.containers@[k]).wf(self),
            decreases self.containers.len() - i,
        {
            if !self.containers[i].validate(self) {
                return false;
            }
            i += 1;
        }
        true
    }
}

/// The fields of `kind`, by their positions, in descriptor order.
pub open spec fn positions_of(fields: Seq<FieldDescriptor>, kind: EleType, n: int) -> Seq<usize>
    decreases n,
{
    if n <= 0 {
        Seq::empty()
    } else if fields[n - 1].ty == kind {
        positions_of(fields, kind, n - 1).push((n - 1) as usize)
    } else {
        positions_of(fields, kind, n - 1)
    }
}

/// The last of the first `n` fields that is of `kind`.
pub open spec fn last_of(fields: Seq<FieldDescriptor>, kind: EleType, n: int) -> Option<usize>
    decreases n,
{
    if n <= 0 {
        None
    } else if fields[n - 1].ty == kind {
        Some((n - 1) as usize)
    } else {
        last_of(fields, kind, n - 1)
    }
}

/// The fields of a struct container sorted by where they stand in the
/// markup, each by its position among the fields.
#[derive(Debug, PartialEq, Eq)]
pub struct FieldsSummary {
    pub children: Vec<usize>,
    pub text: Option<usize>,
    pub attrs: Vec<usize>,
    pub self_closed_children: Vec<usize>,
    pub untags: Vec<usize>,
    pub any: Option<usize>,
    pub xmlns: Option<usize>,
}

impl FieldsSummary {
    /// Sorts the fields by kind. Of the kinds that a container has one field
    /// of at most, the last field counts.
    pub fn from_fields(fields: &Vec<FieldDescriptor>) -> (summary: FieldsSummary)
        ensures
            summary.children@ == positions_of(fields@, EleType::Child, fields.len() as int),
            summary.attrs@ == positions_of(fields@, EleType::Attr, fields.len() as int),
            summary.self_closed_children@ == positions_of(
                fields@,
                EleType::SelfClosedChild,
                fields.len() as int,
            ),
            summary.untags@ == positions_of(fields@, EleType::Untag, fields.len() as int),
            summary.text == last_of(fields@, EleType::Text, fields.len() as int),
            summary.any == last_of(fields@, EleType::Any, fields.len() as int),
            summary.xmlns == last_of(fields@, EleType::XmlNs, fields.len() as int),
    {
        let mut summary = FieldsSummary {
            children: Vec::new(),
            text: None,
            attrs: Vec::new(),
            self_closed_children: Vec::new(),
            untags: Vec::new(),
            any: None,
            xmlns: None,
        };
        let mut i: usize = 0;
        while i < fields.len()
            invariant
                i <= fields.len(),
                summary.children@ == positions_of(fields@, EleType::Child, i as int),
                summary.attrs@ == positions_of(fields@, EleType::Attr, i as int),
                summary.self_closed_children@ == positions_of(
                    fields@,
                    EleType::SelfClosedChild,
                    i as int,
                ),
                summary.untags@ == positions_of(fields@, EleType::Untag, i as int),
                summary.text == last_of(fields@, EleType::Text, i as int),
                summary.any == last_of(fields@, EleType::Any, i as int),
                summary.xmlns == last_of(fields@, EleType::XmlNs, i as int),
            decreases fields.len() - i,
        {
            match fields[i].ty {
                EleType::Attr => summary.attrs.push(i),
                EleType::Child => summary.children.push(i),
                EleType::Text => summary.text = Some(i),
                EleType::SelfClosedChild => summary.self_closed_children.push(i),
                EleType::Untag => summary.untags.push(i),
                EleType::Any => summary.any = Some(i),
                EleType::XmlNs => summary.xmlns = Some(i),
            }
            i += 1;
        }
        summary
    }
}

} // verus!
