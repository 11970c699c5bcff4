//! A stretch of a list.

use vstd::prelude::*;

use crate::db::data_type::list::spec_shape;
use crate::slot::data_type::{values_view, CollectionType, DataType, DataView, SimpleType};
use crate::slot::dict::{live_value, Dict};

verus! {

/// Read the values of the list under `key` from `start` to `stop`, both
/// included; negative positions count from the end.
pub struct Req<'a> {
    pub key: &'a SimpleType,
    pub start: i64,
    pub stop: i64,
}

impl<'a> Req<'a> {
    /// The values of the list live under the key at `now` that the range
    /// covers; none when nothing is live, the error "error type" when
    /// something else is.
    pub fn apply(self, dict: &Dict, now: i64) -> (r: Result<Vec<SimpleType>, String>)
        ensures
            match live_value(dict@, self.key@, now) {
                None => r matches Ok(v) && v@.len() == 0,
                Some(v) => match v.data {
                    DataView::Deque(l) => {
                        let (b, e) = spec_shape(l.len() as int, self.start as int, self.stop as int);
                        r matches Ok(x) && values_view(x@) == l.subrange(b, e)
                    },
                    _ => r matches Err(x) && x@ == "error type"@,
                },
            },
    {
        match dict.d_get(self.key, now) {
            Some(v) => match &v.data {
                DataType::CollectionType(CollectionType::Deque(d)) => {
                    let (b, e) = d.shape(self.start, self.stop);
                    Ok(d.range_values(b, e))
                },
                _ => Err("error type".to_string()),
            },
            None => Ok(Vec::new()),
        }
    }
}

} // verus!
