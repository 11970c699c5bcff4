//! Key-value pairs stored under one key.

use vstd::prelude::*;

use super::{SimpleType, SimpleValue};
use crate::utils::keymap::KeyMap;

verus! {

/// Key-value pairs.
pub struct Kvp {
    inner: KeyMap<SimpleType, SimpleType>,
}

/// A key and its value, as a pair.
pub struct KvpPair {
    pub key: SimpleType,
    pub value: SimpleType,
}

impl View for Kvp {
    type V = Map<SimpleValue, SimpleValue>;

    closed spec fn view(&self) -> Map<SimpleValue, SimpleValue> {
        self.inner.spec_map()
    }
}

impl Kvp {
    /// No pairs.
    pub fn new() -> (r: Kvp)
        ensures
            r@ == Map::<SimpleValue, SimpleValue>::empty(),
    {
        Kvp { inner: KeyMap::new() }
    }

    /// The number of pairs.
    pub fn len(&self) -> (r: usize)
        ensures
            r == self@.dom().len(),
            self@.dom().finite(),
    {
        self.inner.len()
    }

    /// The value of `key`.
    pub fn get(&self, key: &SimpleType) -> (r: Option<&SimpleType>)
        ensures
            r is None <==> !self@.contains_key(key@),
            r matches Some(v) ==> v@ == self@[key@],
    {
        self.inner.get(key)
    }

    /// Gives `key` the value `value`.
    pub fn insert_mut(&mut self, key: SimpleType, value: SimpleType)
        ensures
            final(self)@ == old(self)@.insert(key@, value@),
    {
        let _ = self.inner.insert(key, value);
    }

    /// Copies of the pairs, each key once.
    pub fn pairs(&self) -> (r: Vec<KvpPair>)
        ensures
            r@.len() == self@.dom().len(),
            forall|i: int|
                0 <= i < r@.len() ==> #[trigger] self@.contains_key(r@[i].key@) && self@[r@[i].key@]
                    == r@[i].value@,
            forall|i: int, j: int| 0 <= i < j < r@.len() ==> (#[trigger] r@[i]).key@ != (#[trigger] r@[j]).key@,
    {
        let n = self.inner.len();
        let mut r: Vec<KvpPair> = Vec::new();
        let mut i: usize = 0;
        while i < n
            invariant
                n == self.inner.entry_views().len(),
                n == self@.dom().len(),
                0 <= i <= n,
                r@.len() == i,
                forall|j: int|
                    0 <= j < i ==> (#[trigger] r@[j]).key@ == self.inner.entry_views()[j].0 && r@[j].value@
                        == self.inner.entry_views()[j].1,
                forall|j: int|
                    0 <= j < n ==> #[trigger] self@.contains_key(self.inner.entry_views()[j].0)
                        && self@[self.inner.entry_views()[j].0] == self.inner.entry_views()[j].1,
                forall|a: int, b: int|
                    0 <= a < b < n ==> (#[trigger] self.inner.entry_views()[a]).0 != (
                    #[trigger] self.inner.entry_views()[b]).0,
            decreases n - i,
        {
            let (k, v) = self.inner.pair_at(i);
            r.push(KvpPair { key: k.duplicate(), value: v.duplicate() });
            i += 1;
        }
        proof {
            let ev = self.inner.entry_views();
            assert forall|a: int, b: int| 0 <= a < b < r@.len() implies (#[trigger] r@[a]).key@
                != (#[trigger] r@[b]).key@ by {
                assert(ev[a].0 != ev[b].0);
            }
            assert forall|j: int| 0 <= j < r@.len() implies #[trigger] self@.contains_key(r@[j].key@)
                && self@[r@[j].key@] == r@[j].value@ by {
                assert(self@.contains_key(ev[j].0));
            }
        }
        r
    }
}

} // verus!
