//! Sets of values.

use vstd::prelude::*;

use super::{SimpleType, SimpleValue};
use crate::utils::keymap::KeyMap;

verus! {

/// A set of values.
pub struct MemberSet {
    version: u64,
    value: KeyMap<SimpleType, ()>,
}

impl View for MemberSet {
    type V = vstd::set::Set<SimpleValue>;

    closed spec fn view(&self) -> vstd::set::Set<SimpleValue> {
        self.value.spec_map().dom()
    }
}

impl MemberSet {
    /// A new empty set.
    pub fn new() -> (r: MemberSet)
        ensures
            r@ == vstd::set::Set::<SimpleValue>::empty(),
    {
        let r = MemberSet { version: 0, value: KeyMap::new() };
        assert(r@ =~= vstd::set::Set::<SimpleValue>::empty());
        r
    }

    /// The number of members.
    pub fn len(&self) -> (r: usize)
        ensures
            r == self@.len(),
            self@.finite(),
    {
        self.value.len()
    }

    /// Whether `v` is a member.
    pub fn contains(&self, v: &SimpleType) -> (r: bool)
        ensures
            r == self@.contains(v@),
    {
        self.value.contains_key(v)
    }

    /// Adds `v`.
    pub fn insert(&mut self, v: SimpleType)
        ensures
            final(self)@ == old(self)@.insert(v@),
    {
        let _ = self.value.insert(v, ());
        self.version = self.version.wrapping_add(1);
        assert(self@ =~= old(self)@.insert(v@));
    }

    /// Removes `v`.
    pub fn remove(&mut self, v: &SimpleType)
        ensures
            final(self)@ == old(self)@.remove(v@),
    {
        let _ = self.value.remove(v);
        self.version = self.version.wrapping_add(1);
        assert(self@ =~= old(self)@.remove(v@));
    }

    /// Copies of the members, each once.
    pub fn members(&self) -> (r: Vec<SimpleType>)
        ensures
            r@.len() == self@.len(),
            forall|i: int| 0 <= i < r@.len() ==> #[trigger] self@.contains(r@[i]@),
            forall|i: int, j: int| 0 <= i < j < r@.len() ==> (#[trigger] r@[i])@ != (#[trigger] r@[j])@,
    {
        let n = self.value.len();
        let mut r: Vec<SimpleType> = Vec::new();
        let mut i: usize = 0;
        while i < n
            invariant
                n == self.value.entry_views().len(),
                n == self@.len(),
                0 <= i <= n,
                r@.len() == i,
                forall|j: int| 0 <= j < i ==> (#[trigger] r@[j])@ == self.value.entry_views()[j].0,
                forall|j: int|
                    0 <= j < n ==> #[trigger] self.value.spec_map().contains_key(
                        self.value.entry_views()[j].0,
                    ),
                forall|a: int, b: int|
                    0 <= a < b < n ==> (#[trigger] self.value.entry_views()[a]).0 != (
                    #[trigger] self.value.entry_views()[b]).0,
            decreases n - i,
        {
            let (k, _) = self.value.pair_at(i);
            r.push(k.duplicate());
            i += 1;
        }
        proof {
            let ev = self.value.entry_views();
            assert forall|a: int, b: int| 0 <= a < b < r@.len() implies (#[trigger] r@[a])@ != (
            #[trigger] r@[b])@ by {
                assert(ev[a].0 != ev[b].0);
            }
            assert forall|j: int| 0 <= j < r@.len() implies #[trigger] self@.contains(r@[j]@) by {
                assert(self.value.spec_map().contains_key(ev[j].0));
            }
        }
        r
    }
}

} // verus!
