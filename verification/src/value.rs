//! The values that documents are bound to.

use crate::de::XmlDeserializeError;
use crate::symbol::str_eq;
use vstd::prelude::*;

verus! {

/// A bound value. A struct container is the list of its fields' values in
/// descriptor order; an optional field that is not there is `Absent`; a
/// variant without payload carries `Absent`.
#[derive(Debug, PartialEq, Eq)]
pub enum Value {
    Text(Vec<u8>),
    Bool(bool),
    Number(i128),
    Absent,
    List(Vec<Value>),
    Struct(Vec<Value>),
    /// The variant at this position of its enum container, with its payload.
    Variant(usize, Box<Value>),
}

pub enum ValueView {
    Text(Seq<u8>),
    Bool(bool),
    Number(int),
    Absent,
    List(Seq<ValueView>),
    Struct(Seq<ValueView>),
    Variant(nat, Box<ValueView>),
}

pub open spec fn value_view(v: Value) -> ValueView
    decreases v,
{
    match v {
        Value::Text(t) => ValueView::Text(t@),
        Value::Bool(b) => ValueView::Bool(b),
        Value::Number(n) => ValueView::Number(n as int),
        Value::Absent => ValueView::Absent,
        Value::List(items) => ValueView::List(
            Seq::new(
                items.len() as nat,
                |i: int|
                    if 0 <= i < items.len() {
                        value_view(items[i])
                    } else {
                        ValueView::Absent
                    },
            ),
        ),
        Value::Struct(items) => ValueView::Struct(
            Seq::new(
                items.len() as nat,
                |i: int|
                    if 0 <= i < items.len() {
                        value_view(items[i])
                    } else {
                        ValueView::Absent
                    },
            ),
        ),
        Value::Variant(i, p) => ValueView::Variant(i as nat, Box::new(value_view(*p))),
    }
}

impl DeepView for Value {
    type V = ValueView;

    open spec fn deep_view(&self) -> ValueView {
        value_view(*self)
    }
}

/// The views of a list of values.
pub open spec fn values_view(items: Seq<Value>) -> Seq<ValueView> {
    Seq::new(items.len(), |i: int| value_view(items[i]))
}

pub proof fn lemma_list_view(items: Vec<Value>)
    ensures
        value_view(Value::List(items)) == ValueView::List(values_view(items@)),
        value_view(Value::Struct(items)) == ValueView::Struct(values_view(items@)),
{
    assert(value_view(Value::List(items))->List_0 =~= values_view(items@));
    assert(value_view(Value::Struct(items))->Struct_0 =~= values_view(items@));
}

pub proof fn lemma_values_view_push(items: Seq<Value>, v: Value)
    ensures
        values_view(items.push(v)) == values_view(items).push(value_view(v)),
{
    assert(values_view(items.push(v)) =~= values_view(items).push(value_view(v)));
}

impl Value {
    pub fn is_absent(&self) -> (absent: bool)
        ensures
            absent == (self.deep_view() is Absent),
    {
        matches!(self, Value::Absent)
    }

    /// The bytes of a text value.
    pub fn as_text(&self) -> (text: Option<&Vec<u8>>)
        ensures
            match text {
                Some(t) => self.deep_view() == ValueView::Text(t@),
                None => !(self.deep_view() is Text),
            },
    {
        match self {
            Value::Text(t) => Some(t),
            _ => None,
        }
    }

    pub fn as_bool(&self) -> (flag: Option<bool>)
        ensures
            match flag {
                Some(b) => self.deep_view() == ValueView::Bool(b),
                None => !(self.deep_view() is Bool),
            },
    {
        match self {
            Value::Bool(b) => Some(*b),
            _ => None,
        }
    }

    pub fn as_number(&self) -> (number: Option<i128>)
        ensures
            match number {
                Some(n) => self.deep_view() == ValueView::Number(n as int),
                None => !(self.deep_view() is Number),
            },
    {
        match self {
            Value::Number(n) => Some(*n),
            _ => None,
        }
    }

    /// The items of a list, or the fields of a struct container.
    pub fn items(&self) -> (items: Option<&Vec<Value>>)
        ensures
            match items {
                Some(list) => self.deep_view() == ValueView::List(values_view(list@))
                    || self.deep_view() == ValueView::Struct(values_view(list@)),
                None => !(self.deep_view() is List) && !(self.deep_view() is Struct),
            },
    {
        match self {
            Value::List(items) => {
                proof {
                    lemma_list_view(*items);
                }
                Some(items)
            },
            Value::Struct(items) => {
                proof {
                    lemma_list_view(*items);
                }
                Some(items)
            },
            _ => None,
        }
    }
}


/// A string that is written as a constant and read as whatever the document
/// holds: `output_value` is what is written, `input_value` what was read.
#[derive(Debug)]
pub struct ConstStr {
    pub input_value: String,
    pub output_value: &'static str,
}

impl Default for ConstStr {
    fn default() -> (value: ConstStr)
        ensures
            value.input_value@.len() == 0,
            value.output_value@.len() == 0,
    {
        proof {
            reveal_strlit("");
        }
        ConstStr { input_value: String::new(), output_value: "" }
    }
}

impl ConstStr {
    /// Whether two constants are taken as equal: where both name what they
    /// write, they write the same; in any other case they are.
    pub open spec fn spec_eq(&self, other: &ConstStr) -> bool {
        if self.output_value@.len() != 0 && other.output_value@.len() != 0 {
            self.output_value@ == other.output_value@
        } else {
            true
        }
    }

    /// The constant that is written as `value`.
    pub fn from(value: &'static str) -> (constant: ConstStr)
        ensures
            constant.input_value@.len() == 0,
            constant.output_value@ == value@,
    {
        ConstStr { input_value: String::new(), output_value: value }
    }

    pub fn eq(&self, other: &ConstStr) -> (equal: bool)
        ensures
            equal == self.spec_eq(other),
    {
        if !self.output_value.is_empty() && !other.output_value.is_empty() {
            return str_eq(self.output_value, other.output_value);
        }
        true
    }

    /// What was read.
    pub fn as_ref(&self) -> (read: &str)
        ensures
            read@ == self.input_value@,
    {
        self.input_value.as_str()
    }

    /// The constant that was read as `s`; this never fails.
    pub fn from_str(s: &str) -> (constant: Result<ConstStr, XmlDeserializeError>)
        ensures
            (constant matches Ok(c) && c.input_value@ == s@ && c.output_value@.len() == 0),
    {
        proof {
            reveal_strlit("");
        }
        Ok(ConstStr { input_value: s.to_owned(), output_value: "" })
    }
}

} // verus!
