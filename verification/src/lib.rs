//! Binds typed values to and from XML documents through runtime descriptors.

pub mod container;
pub mod de;
pub mod decode;
pub mod descriptor;
pub mod documents;
pub mod event;
pub mod extract;
pub mod readback;
pub mod reader;
pub mod registry;
pub mod roundtrip;
pub mod rules;
pub mod scalar;
pub mod ser;
pub mod symbol;
pub mod text;
pub mod theorems;
pub mod ty;
pub mod validate;
pub mod value;
pub mod writer;
pub mod xsd;
pub mod zde;
