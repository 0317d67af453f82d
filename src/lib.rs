//! A schema-driven binary codec: values of scalar, string, struct and list
//! types are written as little-endian scalars with 4-byte length frames, and
//! composite keys of up to four integer fields are written so that byte order
//! matches field order.
use vstd::prelude::*;

pub mod value;
pub mod codec;
pub mod decoder;
pub mod encoder;
pub mod laws;
pub mod key;

verus! {

} // verus!
