//! How a field's type is classed, and where a field stands in the markup.

use crate::symbol::str_eq;
use vstd::prelude::*;
use vstd::string::StringExecFns;

verus! {

/// The built-in type of a bound value, or `Unknown` for every other type.
#[allow(non_camel_case_types)]
#[derive(Debug, Clone, Copy, PartialEq, Eq, Structural)]
pub enum BuiltInType {
    Unknown,
    String,
    bool,
    Float32,
    Float64,
    u8,
    u16,
    u32,
    u64,
    i8,
    i16,
    i32,
    i64,
}

/// The name of the floating-point type of a width in bits: the letter `f`
/// and the width.
pub open spec fn float_name(width: Seq<char>) -> Seq<char> {
    "f"@ + width
}

fn is_float_name(name: &str, width: &str) -> (is: bool)
    ensures
        is == (name@ == float_name(width@)),
{
    let mut expected = "f".to_owned();
    expected.append(width);
    str_eq(name, expected.as_str())
}

impl Default for BuiltInType {
    fn default() -> (ty: BuiltInType)
        ensures
            ty == BuiltInType::Unknown,
    {
        BuiltInType::Unknown
    }
}

/// The built-in constant type of a bound value, if it has one.
#[derive(Debug, Clone, Copy, PartialEq, Eq, Structural)]
pub enum BuiltInConstType {
    Unknown,
    ConstStr,
}

impl Default for BuiltInConstType {
    fn default() -> (ty: BuiltInConstType)
        ensures
            ty == BuiltInConstType::Unknown,
    {
        BuiltInConstType::Unknown
    }
}

impl BuiltInType {
    pub open spec fn spec_is_integer(&self) -> bool {
        *self == BuiltInType::u8 || *self == BuiltInType::u16 || *self == BuiltInType::u32 || *self
            == BuiltInType::u64 || *self == BuiltInType::i8 || *self == BuiltInType::i16 || *self
            == BuiltInType::i32 || *self == BuiltInType::i64
    }

    pub open spec fn spec_is_number(&self) -> bool {
        *self == BuiltInType::Float32 || *self == BuiltInType::Float64 || self.spec_is_integer()
    }

    /// Whether the type admits a minus sign in its text form.
    pub open spec fn spec_is_signed(&self) -> bool {
        *self == BuiltInType::i8 || *self == BuiltInType::i16 || *self == BuiltInType::i32 || *self
            == BuiltInType::i64
    }

    /// The least value of an integer type; 0 for every other type.
    pub open spec fn spec_min(&self) -> int {
        match self {
            BuiltInType::i8 => -0x80,
            BuiltInType::i16 => -0x8000,
            BuiltInType::i32 => -0x8000_0000,
            BuiltInType::i64 => -0x8000_0000_0000_0000,
            _ => 0,
        }
    }

    /// The greatest value of an integer type; 0 for every other type.
    pub open spec fn spec_max(&self) -> int {
        match self {
            BuiltInType::u8 => 0xff,
            BuiltInType::u16 => 0xffff,
            BuiltInType::u32 => 0xffff_ffff,
            BuiltInType::u64 => 0xffff_ffff_ffff_ffff,
            BuiltInType::i8 => 0x7f,
            BuiltInType::i16 => 0x7fff,
            BuiltInType::i32 => 0x7fff_ffff,
            BuiltInType::i64 => 0x7fff_ffff_ffff_ffff,
            _ => 0,
        }
    }

    pub fn is_unknown(&self) -> (unknown: bool)
        ensures
            unknown == (*self == BuiltInType::Unknown),
    {
        matches!(self, BuiltInType::Unknown)
    }

    pub fn is_string(&self) -> (string: bool)
        ensures
            string == (*self == BuiltInType::String),
    {
        matches!(self, BuiltInType::String)
    }

    pub fn is_bool(&self) -> (boolean: bool)
        ensures
            boolean == (*self == BuiltInType::bool),
    {
        matches!(self, BuiltInType::bool)
    }

    #[verifier::when_used_as_spec(spec_is_number)]
    pub fn is_number(&self) -> (number: bool)
        ensures
            number == self.spec_is_number(),
    {
        matches!(
            self,
            BuiltInType::Float32 | BuiltInType::Float64 | BuiltInType::u8 | BuiltInType::u16
                | BuiltInType::u32 | BuiltInType::u64 | BuiltInType::i8 | BuiltInType::i16
                | BuiltInType::i32 | BuiltInType::i64
        )
    }

    /// Whether the type is one of the eight integer types.
    #[verifier::when_used_as_spec(spec_is_integer)]
    pub fn is_integer(&self) -> (integer: bool)
        ensures
            integer == self.spec_is_integer(),
    {
        matches!(
            self,
            BuiltInType::u8 | BuiltInType::u16 | BuiltInType::u32 | BuiltInType::u64
                | BuiltInType::i8 | BuiltInType::i16 | BuiltInType::i32 | BuiltInType::i64
        )
    }

    #[verifier::when_used_as_spec(spec_is_signed)]
    pub fn is_signed(&self) -> (signed: bool)
        ensures
            signed == self.spec_is_signed(),
    {
        matches!(self, BuiltInType::i8 | BuiltInType::i16 | BuiltInType::i32 | BuiltInType::i64)
    }

    pub fn min(&self) -> (least: i128)
        ensures
            least == self.spec_min(),
    {
        match self {
            BuiltInType::i8 => -0x80,
            BuiltInType::i16 => -0x8000,
            BuiltInType::i32 => -0x8000_0000,
            BuiltInType::i64 => -0x8000_0000_0000_0000,
            _ => 0,
        }
    }

    pub fn max(&self) -> (greatest: i128)
        ensures
            greatest == self.spec_max(),
    {
        match self {
            BuiltInType::u8 => 0xff,
            BuiltInType::u16 => 0xffff,
            BuiltInType::u32 => 0xffff_ffff,
            BuiltInType::u64 => 0xffff_ffff_ffff_ffff,
            BuiltInType::i8 => 0x7f,
            BuiltInType::i16 => 0x7fff,
            BuiltInType::i32 => 0x7fff_ffff,
            BuiltInType::i64 => 0x7fff_ffff_ffff_ffff,
            _ => 0,
        }
    }
}

/// Where a field stands in the markup of its container.
#[derive(Debug, Clone, Copy, PartialEq, Eq, Structural)]
pub enum EleType {
    /// An attribute of the container's tag.
    Attr,
    /// A child element.
    Child,
    /// The text between the container's tags.
    Text,
    /// A child element whose presence alone is the value, as in `<b/>`.
    SelfClosedChild,
    /// A field that takes the child elements no other field claims, by the
    /// variants of its union.
    Untag,
    /// A field that takes the child elements no other field claims, as they stand.
    Any,
    /// A namespace declaration, written out and never read.
    XmlNs,
}

/// The direction of a binding.
#[derive(Debug, Clone, Copy, PartialEq, Eq, Structural)]
pub enum Derive {
    Serialize,
    Deserialize,
}


impl BuiltInType {
    /// The built-in type of this name; `Unknown` for every other name.
    pub open spec fn of_name(name: Seq<char>) -> BuiltInType {
        if name == "String"@ {
            BuiltInType::String
        } else if name == "bool"@ {
            BuiltInType::bool
        } else if name == float_name("32"@) {
            BuiltInType::Float32
        } else if name == float_name("64"@) {
            BuiltInType::Float64
        } else if name == "u8"@ {
            BuiltInType::u8
        } else if name == "u16"@ {
            BuiltInType::u16
        } else if name == "u32"@ {
            BuiltInType::u32
        } else if name == "u64"@ {
            BuiltInType::u64
        } else if name == "i8"@ {
            BuiltInType::i8
        } else if name == "i16"@ {
            BuiltInType::i16
        } else if name == "i32"@ {
            BuiltInType::i32
        } else if name == "i64"@ {
            BuiltInType::i64
        } else {
            BuiltInType::Unknown
        }
    }

    /// The built-in type that a type name stands for.
    pub fn from_name(name: &str) -> (ty: BuiltInType)
        ensures
            ty == BuiltInType::of_name(name@),
    {
        if str_eq(name, "String") {
            BuiltInType::String
        } else if str_eq(name, "bool") {
            BuiltInType::bool
        } else if is_float_name(name, "32") {
            BuiltInType::Float32
        } else if is_float_name(name, "64") {
            BuiltInType::Float64
        } else if str_eq(name, "u8") {
            BuiltInType::u8
        } else if str_eq(name, "u16") {
            BuiltInType::u16
        } else if str_eq(name, "u32") {
            BuiltInType::u32
        } else if str_eq(name, "u64") {
            BuiltInType::u64
        } else if str_eq(name, "i8") {
            BuiltInType::i8
        } else if str_eq(name, "i16") {
            BuiltInType::i16
        } else if str_eq(name, "i32") {
            BuiltInType::i32
        } else if str_eq(name, "i64") {
            BuiltInType::i64
        } else {
            BuiltInType::Unknown
        }
    }
}

impl BuiltInConstType {
    pub open spec fn of_name(name: Seq<char>) -> BuiltInConstType {
        if name == "ConstStr"@ {
            BuiltInConstType::ConstStr
        } else {
            BuiltInConstType::Unknown
        }
    }

    /// The built-in constant type that a type name stands for.
    pub fn from_name(name: &str) -> (ty: BuiltInConstType)
        ensures
            ty == BuiltInConstType::of_name(name@),
    {
        if str_eq(name, "ConstStr") {
            BuiltInConstType::ConstStr
        } else {
            BuiltInConstType::Unknown
        }
    }
}

impl EleType {
    /// The kind that a word names: `attr`, `child`, `text`, `sfc`, `untag`,
    /// `any` or `xmlns`; no kind for any other word.
    pub open spec fn of_name(name: Seq<char>) -> Option<EleType> {
        if name == "attr"@ {
            Some(EleType::Attr)
        } else if name == "child"@ {
            Some(EleType::Child)
        } else if name == "text"@ {
            Some(EleType::Text)
        } else if name == "sfc"@ {
            Some(EleType::SelfClosedChild)
        } else if name == "untag"@ {
            Some(EleType::Untag)
        } else if name == "any"@ {
            Some(EleType::Any)
        } else if name == "xmlns"@ {
            Some(EleType::XmlNs)
        } else {
            None
        }
    }

    /// The kind that a word names.
    pub fn from_name(name: &str) -> (ty: Option<EleType>)
        ensures
            ty == EleType::of_name(name@),
    {
        if str_eq(name, "attr") {
            Some(EleType::Attr)
        } else if str_eq(name, "child") {
            Some(EleType::Child)
        } else if str_eq(name, "text") {
            Some(EleType::Text)
        } else if str_eq(name, "sfc") {
            Some(EleType::SelfClosedChild)
        } else if str_eq(name, "untag") {
            Some(EleType::Untag)
        } else if str_eq(name, "any") {
            Some(EleType::Any)
        } else if str_eq(name, "xmlns") {
            Some(EleType::XmlNs)
        } else {
            None
        }
    }

    /// The kind that a word names for a variant of a union, which is a child
    /// element or text and nothing else.
    pub fn from_variant_name(name: &str) -> (ty: Option<EleType>)
        ensures
            ty == if name@ == "child"@ {
                Some(EleType::Child)
            } else if name@ == "text"@ {
                Some(EleType::Text)
            } else {
                None
            },
    {
        if str_eq(name, "child") {
            Some(EleType::Child)
        } else if str_eq(name, "text") {
            Some(EleType::Text)
        } else {
            None
        }
    }
}

} // verus!
