//! Reading all the pairs under a key.

use vstd::prelude::*;

use crate::slot::data_type::kvp::KvpPair;
use crate::slot::data_type::{CollectionType, DataType, DataView, SimpleType};
use crate::slot::dict::{live_value, Dict};

verus! {

/// Read the pairs under `key`.
pub struct Req<'a> {
    pub key: &'a SimpleType,
}

impl<'a> Req<'a> {
    /// The pairs live under the key at `now`, each key once; `None` when
    /// nothing is live there and the error "error type" when something other
    /// than pairs is.
    pub fn apply_in_lock(&self, dict: &Dict, now: i64) -> (r: Result<Option<Vec<KvpPair>>, String>)
        ensures
            match live_value(dict@, self.key@, now) {
                None => r matches Ok(None),
                Some(v) => match v.data {
                    DataView::Kvp(p) => r matches Ok(Some(ps)) && ps@.len() == p.dom().len() && (forall|i: int|
                        0 <= i < ps@.len() ==> #[trigger] p.contains_key(ps@[i].key@) && p[ps@[i].key@]
                            == ps@[i].value@) && (forall|i: int, j: int|
                        0 <= i < j < ps@.len() ==> (#[trigger] ps@[i]).key@ != (#[trigger] ps@[j]).key@),
                    _ => r matches Err(x) && x@ == "error type"@,
                },
            },
    {
        match dict.d_get(self.key, now) {
            Some(v) => match &v.data {
                DataType::CollectionType(CollectionType::Kvp(kvp)) => Ok(Some(kvp.pairs())),
                _ => Err("error type".to_string()),
            },
            None => Ok(None),
        }
    }
}

} // verus!
