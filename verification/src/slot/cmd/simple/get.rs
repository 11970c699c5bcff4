//! `GET` on a slot.

use vstd::prelude::*;

use crate::slot::data_type::{DataType, DataView, SimpleType, SimpleValue};
use crate::slot::dict::{live_value, Dict};

verus! {

/// Read the single value under `key`.
pub struct Req<'a> {
    pub key: &'a SimpleType,
}

/// The single value live under `k` at `now`; `Null` when there is none or
/// a collection is stored.
pub open spec fn spec_get(m: Map<SimpleValue, crate::slot::dict::ValueView>, k: SimpleValue, now: i64) -> SimpleValue {
    match live_value(m, k, now) {
        Some(v) => match v.data {
            DataView::Simple(s) => s,
            _ => SimpleValue::Null,
        },
        None => SimpleValue::Null,
    }
}

impl<'a> Req<'a> {
    /// Reads the value as seen at `now`.
    pub fn apply_in_lock(&self, dict: &Dict, now: i64) -> (r: Result<SimpleType, String>)
        ensures
            r matches Ok(v) && v@ == spec_get(dict@, self.key@, now),
    {
        match dict.d_get(self.key, now) {
            Some(v) => match &v.data {
                DataType::SimpleType(s) => Ok(s.duplicate()),
                _ => Ok(SimpleType::Null),
            },
            None => Ok(SimpleType::Null),
        }
    }
}

} // verus!
