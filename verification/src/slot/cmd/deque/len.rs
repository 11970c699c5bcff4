//! The length of a list.

use vstd::prelude::*;

use crate::slot::data_type::{CollectionType, DataType, DataView, SimpleType};
use crate::slot::dict::{live_value, Dict};

verus! {

/// Read the length of the list under `key`.
pub struct Req<'a> {
    pub key: &'a SimpleType,
}

impl<'a> Req<'a> {
    /// The length of the list live under the key at `now`; 0 when nothing
    /// is live, the error "error type" when something else is.
    pub fn apply(self, dict: &Dict, now: i64) -> (r: Result<usize, String>)
        ensures
            match live_value(dict@, self.key@, now) {
                None => r == Ok::<usize, String>(0),
                Some(v) => match v.data {
                    DataView::Deque(l) => r == Ok::<usize, String>(l.len() as usize),
                    _ => r matches Err(x) && x@ == "error type"@,
                },
            },
    {
        match dict.d_get(self.key, now) {
            Some(v) => match &v.data {
                DataType::CollectionType(CollectionType::Deque(d)) => Ok(d.len()),
                _ => Err("error type".to_string()),
            },
            None => Ok(0),
        }
    }
}

} // verus!
