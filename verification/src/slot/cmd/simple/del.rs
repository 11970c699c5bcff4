//! `DEL` on a slot.

use vstd::prelude::*;

use crate::slot::cmd::WriteResp;
use crate::slot::data_type::SimpleType;
use crate::slot::dict::{live_value, Dict, Value};

verus! {

/// Remove the entry under `key`.
pub struct Req {
    pub key: SimpleType,
}

impl Req {
    /// Removes the entry live under the key at `now` and hands it back; an
    /// expired entry stays and nothing is handed back.
    pub fn apply(self, _id: u64, dict: &mut Dict, now: i64) -> (r: Result<WriteResp<Option<Value>>, String>)
        ensures
            match live_value(old(dict)@, self.key@, now) {
                Some(v) => r matches Ok(w) && w.payload matches Some(x) && x@ == v
                    && w.new_expires_at is None && final(dict)@ == old(dict)@.remove(self.key@),
                None => r matches Ok(w) && w.payload is None && w.new_expires_at is None && final(dict)@
                    == old(dict)@,
            },
    {
        if dict.d_exists(&self.key, now) {
            Ok(WriteResp { payload: dict.remove(&self.key), new_expires_at: None })
        } else {
            Ok(WriteResp { payload: None, new_expires_at: None })
        }
    }
}

} // verus!
