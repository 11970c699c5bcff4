//! Bytes stored as a single value.

use vstd::prelude::*;

verus! {

/// A byte string.
pub struct Blob(pub Vec<u8>);

impl View for Blob {
    type V = Seq<u8>;

    open spec fn view(&self) -> Seq<u8> {
        self.0@
    }
}

impl Blob {
    /// The bytes.
    pub fn get_inner(self) -> (r: Vec<u8>)
        ensures
            r@ == self@,
    {
        self.0
    }
}

} // verus!
