//! Names as the library passes them around.

use vstd::prelude::*;

verus! {

/// A tag, a list of tags or another byte string, as an error reports it.
#[derive(Debug, PartialEq, Eq)]
pub struct S(pub Vec<u8>);

impl View for S {
    type V = Seq<u8>;

    open spec fn view(&self) -> Seq<u8> {
        self.0@
    }
}

} // verus!
