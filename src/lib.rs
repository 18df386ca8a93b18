//! A length-prefixed binary framing protocol: a frame codec and the
//! buffering logic that turns a chunked byte stream into exact-size reads.
use vstd::prelude::*;

pub mod protoc;
pub mod stream;

verus! {

} // verus!
