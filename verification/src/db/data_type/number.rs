//! Integers stored as a single value.

use vstd::prelude::*;

verus! {

/// An integer.
pub struct Number(pub i64);

impl Number {
    /// The integer.
    pub fn get(&self) -> (r: i64)
        ensures
            r == self.0,
    {
        self.0
    }
}

} // verus!
