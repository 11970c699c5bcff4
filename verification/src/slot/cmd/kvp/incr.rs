//! Adding to a number among the pairs under a key.

use vstd::prelude::*;

use crate::slot::cmd::WriteResp;
use crate::slot::data_type::{spec_to_i64, CollectionType, DataType, DataView, Kvp, SimpleType, SimpleValue};
use crate::slot::dict::{live_value, Dict, Value, ValueView};

verus! {

/// Add `value` to the number of `field` among the pairs under `key`.
pub struct Req {
    pub key: SimpleType,
    pub field: SimpleType,
    pub value: i64,
}

/// The entry a pair write works on at `now`: the live one under `k`, or new
/// empty pairs with id `id` and no expiry.
pub open spec fn pairs_entry(m: Map<SimpleValue, ValueView>, k: SimpleValue, now: i64, id: u64) -> ValueView {
    match live_value(m, k, now) {
        Some(v) => v,
        None => ValueView { id, data: DataView::Kvp(Map::empty()), expire_at: None },
    }
}

/// Whether the sum fits in an `i64`.
pub open spec fn kvp_incr_fits(m: Map<SimpleValue, ValueView>, k: SimpleValue, f: SimpleValue, value: i64, now: i64, id: u64) -> bool {
    pairs_entry(m, k, now, id).data matches DataView::Kvp(p) ==> (p.contains_key(f) ==> (spec_to_i64(p[f]) matches Some(o)
        ==> i64::MIN <= o + value <= i64::MAX))
}

impl Req {
    /// Applies the write with id `id` at `now` and answers the number stored
    /// after it: the field's value read as an integer plus `value`, or
    /// `value` for a new field. Pairs are started under the id where nothing
    /// is live. Anything else stored is the error "error type"; a field
    /// value that is no integer is an error too.
    pub fn apply(self, id: u64, dict: &mut Dict, now: i64) -> (r: Result<WriteResp<i64>, String>)
        requires
            kvp_incr_fits(old(dict)@, self.key@, self.field@, self.value, now, id),
        ensures
            ({
                let m = old(dict)@;
                let k = self.key@;
                let f = self.field@;
                let e = pairs_entry(m, k, now, id);
                match e.data {
                    DataView::Kvp(p) => if p.contains_key(f) {
                        match spec_to_i64(p[f]) {
                            Some(o) => r matches Ok(w) && w.payload == o + self.value
                                && w.new_expires_at is None && final(dict)@ == m.insert(
                                k,
                                ValueView {
                                    id: e.id,
                                    data: DataView::Kvp(p.insert(f, SimpleValue::Integer((o + self.value) as i64))),
                                    expire_at: e.expire_at,
                                },
                            ),
                            None => r is Err && final(dict)@ == m.insert(k, e),
                        }
                    } else {
                        r matches Ok(w) && w.payload == self.value && w.new_expires_at is None
                            && final(dict)@ == m.insert(
                            k,
                            ValueView {
                                id: e.id,
                                data: DataView::Kvp(p.insert(f, SimpleValue::Integer(self.value))),
                                expire_at: e.expire_at,
                            },
                        )
                    },
                    _ => r matches Err(x) && x@ == "error type"@ && final(dict)@ == m.insert(k, e),
                }
            }),
    {
        let v = dict.take_live_or(
            &self.key,
            now,
            Value { expire_at: None, id, data: DataType::CollectionType(CollectionType::Kvp(Kvp::new())) },
        );
        match v.data {
            DataType::CollectionType(CollectionType::Kvp(mut kvp)) => {
                let found = match kvp.get(&self.field) {
                    Some(s) => Some(s.to_i64()),
                    None => None,
                };
                match found {
                    Some(Ok(old)) => {
                        let new = old + self.value;
                        kvp.insert_mut(self.field, SimpleType::Integer(new));
                        let _ = dict.insert(
                            self.key,
                            Value { id: v.id, data: DataType::CollectionType(CollectionType::Kvp(kvp)), expire_at: v.expire_at },
                        );
                        Ok(WriteResp { new_expires_at: None, payload: new })
                    },
                    Some(Err(e)) => {
                        let _ = dict.insert(
                            self.key,
                            Value { id: v.id, data: DataType::CollectionType(CollectionType::Kvp(kvp)), expire_at: v.expire_at },
                        );
                        Err(e)
                    },
                    None => {
                        kvp.insert_mut(self.field, SimpleType::Integer(self.value));
                        let _ = dict.insert(
                            self.key,
                            Value { id: v.id, data: DataType::CollectionType(CollectionType::Kvp(kvp)), expire_at: v.expire_at },
                        );
                        Ok(WriteResp { new_expires_at: None, payload: self.value })
                    },
                }
            },
            data => {
                let _ = dict.insert(self.key, Value { id: v.id, data, expire_at: v.expire_at });
                Err("error type".to_string())
            },
        }
    }
}

} // verus!
