//! `EXISTS` on a slot.

use vstd::prelude::*;

use crate::slot::data_type::SimpleType;
use crate::slot::dict::{live_value, Dict};

verus! {

/// Whether a live entry is stored under `key`.
pub struct Req<'a> {
    pub key: &'a SimpleType,
}

impl<'a> Req<'a> {
    /// Answers as seen at `now`.
    pub fn apply(self, dict: &Dict, now: i64) -> (r: Result<bool, String>)
        ensures
            r == Ok::<bool, String>(live_value(dict@, self.key@, now) is Some),
    {
        Ok(dict.d_exists(self.key, now))
    }
}

} // verus!
