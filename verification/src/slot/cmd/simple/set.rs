//! `SET` on a slot.

use vstd::prelude::*;

use crate::slot::data_type::{DataType, DataView, SimpleType, SimpleValue};
use crate::slot::dict::{Dict, Value, ValueView};
use crate::utils::options::{ExpiresAt, NxXx};

verus! {

/// Store `value` under `key`, under a condition, with an expiry.
pub struct SetReq {
    pub key: SimpleType,
    pub value: SimpleType,
    pub expires_at: ExpiresAt,
    pub nx_xx: NxXx,
}

/// What `SET` answers: the value it found (`Null` when there was none or it
/// was a collection) and the expiry it gave, if it wrote.
#[derive(Debug, PartialEq, Eq)]
pub struct Resp {
    pub old_value: SimpleType,
    pub new_expires_at: Option<i64>,
}

/// The single value of stored data, `Null` for a collection.
pub open spec fn simple_of(d: DataView) -> SimpleValue {
    match d {
        DataView::Simple(v) => v,
        _ => SimpleValue::Null,
    }
}

/// The expiry a write gives, given the expiry of the entry it replaces.
pub open spec fn new_expiry(e: ExpiresAt, prev: Option<i64>) -> Option<i64> {
    match e {
        ExpiresAt::Specific(i) => Some(i),
        ExpiresAt::Last => prev,
        ExpiresAt::Never => None,
    }
}

/// The single value of stored data, `Null` for a collection.
pub fn data_type_copy_to_simple(dt: &DataType) -> (r: SimpleType)
    ensures
        r@ == simple_of(dt@),
{
    match dt {
        DataType::SimpleType(s) => s.duplicate(),
        DataType::CollectionType(_) => SimpleType::Null,
    }
}

/// The single value of stored data, `Null` for a collection.
pub fn data_type_to_simple(dt: DataType) -> (r: SimpleType)
    ensures
        r@ == simple_of(dt@),
{
    match dt {
        DataType::SimpleType(s) => s,
        DataType::CollectionType(_) => SimpleType::Null,
    }
}

impl SetReq {
    /// Applies the write with id `id`. An entry stored under the key counts,
    /// expired or not. With `NX` and an entry, or with `XX` and none, nothing
    /// changes. Otherwise the value is stored with the id and the expiry
    /// asked for (`Last` keeps the replaced entry's).
    pub fn apply(self, id: u64, dict: &mut Dict) -> (r: Result<Resp, String>)
        ensures
            ({
                let m = old(dict)@;
                let k = self.key@;
                if m.contains_key(k) {
                    if self.nx_xx == NxXx::Nx {
                        r matches Ok(resp) && resp.old_value@ == simple_of(m[k].data)
                            && resp.new_expires_at is None && final(dict)@ == m
                    } else {
                        let ea = new_expiry(self.expires_at, m[k].expire_at);
                        r matches Ok(resp) && resp.old_value@ == simple_of(m[k].data)
                            && resp.new_expires_at == ea && final(dict)@ == m.insert(
                            k,
                            ValueView { id, data: DataView::Simple(self.value@), expire_at: ea },
                        )
                    }
                } else {
                    if self.nx_xx == NxXx::Xx {
                        r matches Ok(resp) && resp.old_value@ == SimpleValue::Null
                            && resp.new_expires_at is None && final(dict)@ == m
                    } else {
                        let ea = new_expiry(self.expires_at, None);
                        r matches Ok(resp) && resp.old_value@ == SimpleValue::Null
                            && resp.new_expires_at == ea && final(dict)@ == m.insert(
                            k,
                            ValueView { id, data: DataView::Simple(self.value@), expire_at: ea },
                        )
                    }
                }
            }),
    {
        match dict.get(&self.key) {
            Some(e) => {
                if self.nx_xx.is_nx() {
                    let old_value = data_type_copy_to_simple(&e.data);
                    return Ok(Resp { old_value, new_expires_at: None });
                }
                let expire_at = match self.expires_at {
                    ExpiresAt::Specific(i) => Some(i),
                    ExpiresAt::Last => e.expire_at,
                    ExpiresAt::Never => None,
                };
                let old = dict.insert(
                    self.key,
                    Value { id, data: DataType::SimpleType(self.value), expire_at },
                );
                match old {
                    Some(o) => Ok(Resp { old_value: data_type_to_simple(o.data), new_expires_at: expire_at }),
                    None => {
                        proof {
                            assert(false);
                        }
                        Ok(Resp { old_value: SimpleType::Null, new_expires_at: expire_at })
                    },
                }
            },
            None => {
                if self.nx_xx.is_xx() {
                    return Ok(Resp { old_value: SimpleType::Null, new_expires_at: None });
                }
                let expire_at = match self.expires_at {
                    ExpiresAt::Specific(i) => Some(i),
                    _ => None,
                };
                let _ = dict.insert(
                    self.key,
                    Value { id, data: DataType::SimpleType(self.value), expire_at },
                );
                Ok(Resp { old_value: SimpleType::Null, new_expires_at: expire_at })
            },
        }
    }
}

} // verus!
