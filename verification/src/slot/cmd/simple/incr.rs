//! `INCRBY` on a slot.

use vstd::prelude::*;

use crate::slot::cmd::WriteResp;
use crate::parse::to_bytes::signed_decimal;
use crate::slot::data_type::{ascii_text, lemma_decimal_reads_as_number, lemma_decimal_text_reads_as_number, spec_to_i64, DataType, DataView, SimpleType, SimpleValue};
use crate::slot::dict::{live, live_value, Dict, Value, ValueView};

verus! {

/// Add `value` to the number stored under `key`.
pub struct Incr {
    pub key: SimpleType,
    pub value: i64,
}

/// Whether the sum `Incr` makes at `now` fits in an `i64`.
pub open spec fn incr_fits(m: Map<SimpleValue, ValueView>, k: SimpleValue, value: i64, now: i64) -> bool {
    live_value(m, k, now) matches Some(e) ==> (e.data matches DataView::Simple(v) ==> (
    spec_to_i64(v) matches Some(o) ==> i64::MIN <= o + value <= i64::MAX))
}

impl Incr {
    /// Applies the write with id `id` at `now` and answers the number
    /// stored after it. A live entry has `value` added to its single value
    /// read as an integer and keeps its id and expiry, which the answer
    /// carries; a collection is the error "error type", and a value that is
    /// no integer an error. A missing or expired entry is replaced by the
    /// number `value` with this id and no expiry.
    pub fn apply(self, id: u64, dict: &mut Dict, now: i64) -> (r: Result<WriteResp<i64>, String>)
        requires
            incr_fits(old(dict)@, self.key@, self.value, now),
        ensures
            ({
                let m = old(dict)@;
                let k = self.key@;
                if live_value(m, k, now) is None {
                    r matches Ok(w) && w.payload == self.value && w.new_expires_at is None && final(dict)@ == m.insert(
                        k,
                        ValueView {
                            id,
                            data: DataView::Simple(SimpleValue::Integer(self.value)),
                            expire_at: None,
                        },
                    )
                } else {
                    match m[k].data {
                        DataView::Simple(v) => match spec_to_i64(v) {
                            Some(o) => r matches Ok(w) && w.payload == o + self.value
                                && w.new_expires_at == m[k].expire_at && final(dict)@ == m.insert(
                                k,
                                ValueView {
                                    id: m[k].id,
                                    data: DataView::Simple(SimpleValue::Integer((o + self.value) as i64)),
                                    expire_at: m[k].expire_at,
                                },
                            ),
                            None => r is Err && final(dict)@ == m,
                        },
                        _ => r matches Err(e) && e@ == "error type"@ && final(dict)@ == m,
                    }
                }
            }),
            forall|d: i64|
                #![trigger signed_decimal(d as int)]
                (live_value(old(dict)@, self.key@, now) matches Some(e) && (e.data == DataView::Simple(
                    SimpleValue::Bytes(signed_decimal(d as int)),
                ) || e.data == DataView::Simple(SimpleValue::String(ascii_text(signed_decimal(d as int))))))
                    ==> (r matches Ok(w) && w.payload == d + self.value),
    {
        proof {
            assert forall|d: i64| #![trigger signed_decimal(d as int)] true implies spec_to_i64(
                SimpleValue::Bytes(signed_decimal(d as int)),
            ) == Some(d) && spec_to_i64(SimpleValue::String(ascii_text(signed_decimal(d as int)))) == Some(d) by {
                lemma_decimal_reads_as_number(d);
                lemma_decimal_text_reads_as_number(d);
            }
        }
        let ghost m0 = dict@;
        let (new, ea) = match dict.remove(&self.key) {
            Some(e) => {
                let expired = match e.expire_at {
                    Some(t) => t <= now,
                    None => false,
                };
                if expired {
                    let _ = dict.insert(
                        self.key,
                        Value { expire_at: None, data: DataType::from_i64(self.value), id },
                    );
                    (self.value, None)
                } else {
                    match e.data {
                        DataType::SimpleType(s) => {
                            let old = match s.to_i64() {
                                Ok(o) => o,
                                Err(err) => {
                                    let _ = dict.insert(
                                        self.key,
                                        Value { id: e.id, data: DataType::SimpleType(s), expire_at: e.expire_at },
                                    );
                                    proof {
                                        assert(dict@ =~= m0);
                                    }
                                    return Err(err);
                                },
                            };
                            let new = old + self.value;
                            let _ = dict.insert(
                                self.key,
                                Value {
                                    id: e.id,
                                    data: DataType::SimpleType(SimpleType::Integer(new)),
                                    expire_at: e.expire_at,
                                },
                            );
                            (new, e.expire_at)
                        },
                        data => {
                            let _ = dict.insert(self.key, Value { id: e.id, data, expire_at: e.expire_at });
                            proof {
                                assert(dict@ =~= m0);
                            }
                            return Err("error type".to_string());
                        },
                    }
                }
            },
            None => {
                let _ = dict.insert(
                    self.key,
                    Value { expire_at: None, data: DataType::from_i64(self.value), id },
                );
                (self.value, None)
            },
        };
        Ok(WriteResp { new_expires_at: ea, payload: new })
    }
}

} // verus!
