//! The entries of a slot, keyed by value.

use vstd::prelude::*;

use crate::db::data_type::{DataType, DataView, SimpleType, SimpleValue};
use crate::utils::clock::now_millis;
use crate::utils::keymap::KeyMap;

verus! {

/// An entry in the key-value store.
pub struct Entry {
    /// Identifies this entry.
    pub id: u64,
    /// The stored data.
    pub data: DataType,
    /// The instant, in milliseconds, at which the entry expires.
    pub expires_at: Option<i64>,
}

/// An entry, as a mathematical value.
pub struct EntryView {
    pub id: u64,
    pub data: DataView,
    pub expires_at: Option<i64>,
}

impl View for Entry {
    type V = EntryView;

    open spec fn view(&self) -> EntryView {
        EntryView { id: self.id, data: self.data@, expires_at: self.expires_at }
    }
}

/// An entry is live at `now` when it has no expiry or expires after `now`.
pub open spec fn is_live(e: EntryView, now: i64) -> bool {
    match e.expires_at {
        Some(t) => t > now,
        None => true,
    }
}

/// The entry under `k` if it is live at `now`.
pub open spec fn live_entry(m: Map<SimpleValue, EntryView>, k: SimpleValue, now: i64) -> Option<
    EntryView,
> {
    if m.contains_key(k) && is_live(m[k], now) {
        Some(m[k])
    } else {
        None
    }
}

/// The expiry of the entry under `k` if it lies after `now`.
pub open spec fn spec_expires_at(m: Map<SimpleValue, EntryView>, k: SimpleValue, now: i64) -> Option<
    i64,
> {
    if m.contains_key(k) {
        match m[k].expires_at {
            Some(t) => if t > now {
                Some(t)
            } else {
                None
            },
            None => None,
        }
    } else {
        None
    }
}

/// The data stored in one slot.
pub struct Dict {
    entries: KeyMap<SimpleType, Entry>,
}

impl View for Dict {
    type V = Map<SimpleValue, EntryView>;

    closed spec fn view(&self) -> Map<SimpleValue, EntryView> {
        self.entries.spec_map()
    }
}

impl Dict {
    /// An empty dict.
    pub fn new() -> (r: Dict)
        ensures
            r@ == Map::<SimpleValue, EntryView>::empty(),
    {
        Dict { entries: KeyMap::new() }
    }

    /// The expiry of the entry under `key`, when it lies after `now`.
    pub fn get_expires_at_at(&self, key: &SimpleType, now: i64) -> (r: Option<i64>)
        ensures
            r == spec_expires_at(self@, key@, now),
    {
        match self.entries.get(key) {
            Some(e) => match e.expires_at {
                Some(t) => if t > now {
                    Some(t)
                } else {
                    None
                },
                None => None,
            },
            None => None,
        }
    }

    /// The expiry of the entry under `key`, when it lies in the future.
    pub fn get_expires_at(&self, key: &SimpleType) -> (r: Option<i64>)
        ensures
            exists|now: i64| r == spec_expires_at(self@, key@, now),
    {
        let now = now_millis();
        self.get_expires_at_at(key, now)
    }

    /// The entry under `key` if it is live at `now`.
    pub fn get_at(&self, key: &SimpleType, now: i64) -> (r: Option<&Entry>)
        ensures
            match r {
                Some(e) => live_entry(self@, key@, now) == Some(e@),
                None => live_entry(self@, key@, now) is None,
            },
    {
        match self.entries.get(key) {
            Some(e) => {
                let live = match e.expires_at {
                    Some(t) => t > now,
                    None => true,
                };
                if live {
                    Some(e)
                } else {
                    None
                }
            },
            None => None,
        }
    }

    /// Whether a live entry is stored under `key` at `now`.
    pub fn exists_at(&self, key: &SimpleType, now: i64) -> (r: bool)
        ensures
            r == live_entry(self@, key@, now).is_some(),
    {
        self.get_at(key, now).is_some()
    }

    /// Whether a live entry is stored under `key`.
    pub fn exists_key(&self, key: &SimpleType) -> (r: bool)
        ensures
            exists|now: i64| r == live_entry(self@, key@, now).is_some(),
    {
        let now = now_millis();
        self.exists_at(key, now)
    }

    /// Whether any entry, live or not, is stored under `key`.
    pub fn contains(&self, key: &SimpleType) -> (r: bool)
        ensures
            r == self@.contains_key(key@),
    {
        self.entries.contains_key(key)
    }

    /// The entry under `key`, live or not.
    pub fn get_any(&self, key: &SimpleType) -> (r: Option<&Entry>)
        ensures
            r is None <==> !self@.contains_key(key@),
            r matches Some(e) ==> e@ == self@[key@],
    {
        self.entries.get(key)
    }

    /// Stores `value` under `key`, handing back the entry it replaces.
    pub fn insert(&mut self, key: SimpleType, value: Entry) -> (r: Option<Entry>)
        ensures
            final(self)@ == old(self)@.insert(key@, value@),
            r is None <==> !old(self)@.contains_key(key@),
            r matches Some(o) ==> o@ == old(self)@[key@],
    {
        self.entries.insert(key, value)
    }

    /// Removes the entry under `key`, live or not, handing it back.
    pub fn remove(&mut self, key: &SimpleType) -> (r: Option<Entry>)
        ensures
            final(self)@ == old(self)@.remove(key@),
            r is None <==> !old(self)@.contains_key(key@),
            r matches Some(o) ==> o@ == old(self)@[key@],
    {
        self.entries.remove(key)
    }

    /// Takes out the entry under `key` if it is live at `now`; an entry that
    /// has expired stays where it is.
    pub fn take_live(&mut self, key: &SimpleType, now: i64) -> (r: Option<Entry>)
        ensures
            match r {
                Some(e) => live_entry(old(self)@, key@, now) == Some(e@) && final(self)@ == old(self)@.remove(key@),
                None => live_entry(old(self)@, key@, now) is None && final(self)@ == old(self)@,
            },
    {
        if self.exists_at(key, now) {
            self.entries.remove(key)
        } else {
            None
        }
    }

    /// Gives the entry under `key`, live or not, the expiry `expires_at`
    /// and a fresh id from `next_id`, which is called only when there is an
    /// entry; answers that id.
    pub fn update_expires_at<F: FnOnce() -> u64>(&mut self, key: &SimpleType, expires_at: Option<i64>, next_id: F) -> (r:
        Option<u64>)
        requires
            next_id.requires(()),
        ensures
            match r {
                Some(id) => old(self)@.contains_key(key@) && next_id.ensures((), id) && final(self)@ == old(
                    self,
                )@.insert(key@, EntryView { id, data: old(self)@[key@].data, expires_at }),
                None => !old(self)@.contains_key(key@) && final(self)@ == old(self)@,
            },
    {
        match self.entries.remove(key) {
            Some(e) => {
                let id = next_id();
                let _ = self.entries.insert(key.duplicate(), Entry { id, data: e.data, expires_at });
                Some(id)
            },
            None => None,
        }
    }

    /// The number of entries, live or not.
    pub fn len(&self) -> (r: usize)
        ensures
            r == self@.dom().len(),
            self@.dom().finite(),
    {
        self.entries.len()
    }
}

} // verus!
