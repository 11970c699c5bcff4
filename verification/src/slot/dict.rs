//! The entries of a slot, keyed by value.

use vstd::prelude::*;

use super::data_type::{DataType, DataView, SimpleType, SimpleValue};
use crate::utils::keymap::KeyMap;

verus! {

/// An entry: its id, its data and when it expires.
pub struct Value {
    pub id: u64,
    pub data: DataType,
    pub expire_at: Option<i64>,
}

/// An entry, as a mathematical value.
pub struct ValueView {
    pub id: u64,
    pub data: DataView,
    pub expire_at: Option<i64>,
}

impl View for Value {
    type V = ValueView;

    open spec fn view(&self) -> ValueView {
        ValueView { id: self.id, data: self.data@, expire_at: self.expire_at }
    }
}

/// An entry is live at `now` when it has no expiry or expires after `now`.
pub open spec fn live(v: ValueView, now: i64) -> bool {
    match v.expire_at {
        Some(t) => t > now,
        None => true,
    }
}

/// The entry under `k` if it is live at `now`.
pub open spec fn live_value(m: Map<SimpleValue, ValueView>, k: SimpleValue, now: i64) -> Option<ValueView> {
    if m.contains_key(k) && live(m[k], now) {
        Some(m[k])
    } else {
        None
    }
}

/// The entries of a slot.
pub struct Dict {
    pub inner: KeyMap<SimpleType, Value>,
}

impl View for Dict {
    type V = Map<SimpleValue, ValueView>;

    open spec fn view(&self) -> Map<SimpleValue, ValueView> {
        self.inner.spec_map()
    }
}

impl Dict {
    /// No entries.
    pub fn new() -> (r: Dict)
        ensures
            r@ == Map::<SimpleValue, ValueView>::empty(),
    {
        Dict { inner: KeyMap::new() }
    }

    /// The entry under `key`, live or not.
    pub fn get(&self, key: &SimpleType) -> (r: Option<&Value>)
        ensures
            r is None <==> !self@.contains_key(key@),
            r matches Some(v) ==> v@ == self@[key@],
    {
        self.inner.get(key)
    }

    /// The entry under `key` if it is live at `now`.
    pub fn d_get(&self, key: &SimpleType, now: i64) -> (r: Option<&Value>)
        ensures
            match r {
                Some(v) => live_value(self@, key@, now) == Some(v@),
                None => live_value(self@, key@, now) is None,
            },
    {
        match self.inner.get(key) {
            Some(v) => {
                let l = match v.expire_at {
                    Some(t) => t > now,
                    None => true,
                };
                if l {
                    Some(v)
                } else {
                    None
                }
            },
            None => None,
        }
    }

    /// Whether a live entry is stored under `key` at `now`.
    pub fn d_exists(&self, key: &SimpleType, now: i64) -> (r: bool)
        ensures
            r == live_value(self@, key@, now) is Some,
    {
        self.d_get(key, now).is_some()
    }

    /// Whether an entry, live or not, is stored under `key`.
    pub fn contains_key(&self, key: &SimpleType) -> (r: bool)
        ensures
            r == self@.contains_key(key@),
    {
        self.inner.contains_key(key)
    }

    /// Stores `value` under `key`, handing back the entry it replaces.
    pub fn insert(&mut self, key: SimpleType, value: Value) -> (r: Option<Value>)
        ensures
            final(self)@ == old(self)@.insert(key@, value@),
            r is None <==> !old(self)@.contains_key(key@),
            r matches Some(o) ==> o@ == old(self)@[key@],
    {
        self.inner.insert(key, value)
    }

    /// Takes out the entry live under `key` at `now`, or hands back `fresh`
    /// when there is none; an expired entry under `key` is dropped.
    pub fn take_live_or(&mut self, key: &SimpleType, now: i64, fresh: Value) -> (r: Value)
        ensures
            final(self)@ == old(self)@.remove(key@),
            match live_value(old(self)@, key@, now) {
                Some(v) => r@ == v,
                None => r@ == fresh@,
            },
    {
        let live = self.d_exists(key, now);
        match self.inner.remove(key) {
            Some(v) => if live {
                v
            } else {
                fresh
            },
            None => fresh,
        }
    }

    /// Removes the entry under `key`, handing it back.
    pub fn remove(&mut self, key: &SimpleType) -> (r: Option<Value>)
        ensures
            final(self)@ == old(self)@.remove(key@),
            r is None <==> !old(self)@.contains_key(key@),
            r matches Some(o) ==> o@ == old(self)@[key@],
    {
        self.inner.remove(key)
    }
}

} // verus!
