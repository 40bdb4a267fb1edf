//! The words that a binding is declared with.

use crate::text::bytes_eq;
use vstd::prelude::*;
use vstd::utf8::encode_utf8_decode_utf8;

verus! {

/// A word of the binding vocabulary, such as `ROOT` or `NAME`.
#[derive(Copy, Clone)]
pub struct Symbol(pub &'static str);

pub const ROOT: &'static str = "root";

pub const RAXB: &'static str = "raxb";

pub const XML: &'static str = "xml";

pub const NAME: &'static str = "name";

pub const VALUE: &'static str = "value";

pub const DEFAULT: &'static str = "default";

pub const TYPE: &'static str = "ty";

pub const TNS: &'static str = "tns";

pub const NS: &'static str = "ns";

pub const PATH: &'static str = "path";

/// Whether two strings are the same text.
pub fn str_eq(a: &str, b: &str) -> (equal: bool)
    ensures
        equal == (a@ == b@),
{
    proof {
        encode_utf8_decode_utf8(a@);
        encode_utf8_decode_utf8(b@);
    }
    bytes_eq(a.as_bytes(), b.as_bytes())
}

impl Symbol {
    /// Whether `word` is this word.
    pub fn eq(&self, word: &str) -> (equal: bool)
        ensures
            equal == (self.0@ == word@),
    {
        str_eq(self.0, word)
    }

    pub fn as_str(&self) -> (word: &'static str)
        ensures
            word@ == self.0@,
    {
        self.0
    }
}

} // verus!
