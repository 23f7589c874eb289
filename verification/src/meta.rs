//! Metadata objects that a replay can carry as bytes.

use vstd::prelude::*;

verus! {

/// A metadata object that converts to and from a fixed number of bytes.
///
/// `()` is the metadata of no bytes.
pub trait Meta: Sized {
    /// The size of the object, in bytes.
    fn size() -> u64;

    /// The object that `bytes` hold; `bytes` has the length that `size` gives.
    fn from_bytes(bytes: &[u8]) -> Self;

    /// The bytes of the object.
    fn to_bytes(&self) -> Vec<u8>;
}

impl Meta for () {
    fn size() -> (r: u64)
        ensures
            r == 0,
    {
        0
    }

    fn from_bytes(bytes: &[u8]) -> Self {
    }

    fn to_bytes(&self) -> (r: Vec<u8>)
        ensures
            r@ == Seq::<u8>::empty(),
    {
        Vec::new()
    }
}

} // verus!
