//! Hashes: maps from fields to values.

use vstd::prelude::*;

use super::{SimpleType, SimpleValue};
use crate::utils::keymap::KeyMap;

verus! {

/// A map from fields to values.
pub struct Hash {
    version: u64,
    value: KeyMap<SimpleType, SimpleType>,
}

/// A field of a hash and its value.
#[derive(Debug, PartialEq, Eq)]
pub struct HashEntry {
    pub field: SimpleType,
    pub value: SimpleType,
}

impl View for Hash {
    type V = Map<SimpleValue, SimpleValue>;

    closed spec fn view(&self) -> Map<SimpleValue, SimpleValue> {
        self.value.spec_map()
    }
}

/// Fields and values, as mathematical values.
pub open spec fn entries_view(s: Seq<HashEntry>) -> Seq<(SimpleValue, SimpleValue)> {
    s.map_values(|e: HashEntry| (e.field@, e.value@))
}

impl Hash {
    /// A new empty hash.
    pub fn new() -> (r: Hash)
        ensures
            r@ == Map::<SimpleValue, SimpleValue>::empty(),
    {
        Hash { version: 0, value: KeyMap::new() }
    }

    /// The number of fields.
    pub fn len(&self) -> (r: usize)
        ensures
            r == self@.dom().len(),
            self@.dom().finite(),
    {
        self.value.len()
    }

    /// Whether `field` has a value.
    pub fn contains_field(&self, field: &SimpleType) -> (r: bool)
        ensures
            r == self@.contains_key(field@),
    {
        self.value.contains_key(field)
    }

    /// The value of `field`.
    pub fn get_field(&self, field: &SimpleType) -> (r: Option<&SimpleType>)
        ensures
            r is None <==> !self@.contains_key(field@),
            r matches Some(v) ==> v@ == self@[field@],
    {
        self.value.get(field)
    }

    /// Gives `field` the value `value`.
    pub fn set_field(&mut self, field: SimpleType, value: SimpleType)
        ensures
            final(self)@ == old(self)@.insert(field@, value@),
    {
        let _ = self.value.insert(field, value);
        self.version = self.version.wrapping_add(1);
    }

    /// Removes `field`.
    pub fn remove_field(&mut self, field: &SimpleType)
        ensures
            final(self)@ == old(self)@.remove(field@),
    {
        let _ = self.value.remove(field);
        self.version = self.version.wrapping_add(1);
    }

    /// Copies of the fields and their values, each field once.
    pub fn entries(&self) -> (r: Vec<HashEntry>)
        ensures
            entries_view(r@).len() == self@.dom().len(),
            forall|i: int|
                0 <= i < r@.len() ==> #[trigger] self@.contains_key(r@[i].field@) && self@[r@[i].field@]
                    == r@[i].value@,
            forall|i: int, j: int|
                0 <= i < j < r@.len() ==> (#[trigger] r@[i]).field@ != (#[trigger] r@[j]).field@,
            forall|f: SimpleValue|
                #[trigger] self@.contains_key(f) ==> exists|i: int| 0 <= i < r@.len() && (#[trigger] r@[i]).field@ == f,
    {
        let n = self.value.len();
        let mut r: Vec<HashEntry> = Vec::new();
        let mut i: usize = 0;
        while i < n
            invariant
                n == self.value.entry_views().len(),
                n == self@.dom().len(),
                0 <= i <= n,
                r@.len() == i,
                forall|j: int|
                    0 <= j < i ==> (#[trigger] r@[j]).field@ == self.value.entry_views()[j].0
                        && r@[j].value@ == self.value.entry_views()[j].1,
                forall|j: int|
                    0 <= j < n ==> #[trigger] self@.contains_key(self.value.entry_views()[j].0)
                        && self@[self.value.entry_views()[j].0] == self.value.entry_views()[j].1,
                forall|a: int, b: int|
                    0 <= a < b < n ==> (#[trigger] self.value.entry_views()[a]).0 != (
                    #[trigger] self.value.entry_views()[b]).0,
            decreases n - i,
        {
            let (f, v) = self.value.pair_at(i);
            r.push(HashEntry { field: f.duplicate(), value: v.duplicate() });
            i += 1;
        }
        proof {
            let ev = self.value.entry_views();
            assert forall|a: int, b: int| 0 <= a < b < r@.len() implies (#[trigger] r@[a]).field@
                != (#[trigger] r@[b]).field@ by {
                assert(ev[a].0 != ev[b].0);
            }
            assert forall|j: int| 0 <= j < r@.len() implies #[trigger] self@.contains_key(
                r@[j].field@,
            ) && self@[r@[j].field@] == r@[j].value@ by {
                assert(self@.contains_key(ev[j].0));
            }
            let fs = r@.map_values(|e: HashEntry| e.field@);
            assert(fs.no_duplicates()) by {
                assert forall|a: int, b: int| 0 <= a < fs.len() && 0 <= b < fs.len() && a != b implies fs[a] != fs[b] by {
                    if a < b {
                        assert(r@[a].field@ != r@[b].field@);
                    } else {
                        assert(r@[b].field@ != r@[a].field@);
                    }
                }
            }
            fs.unique_seq_to_set();
            assert(fs.to_set().subset_of(self@.dom())) by {
                assert forall|f: SimpleValue| fs.to_set().contains(f) implies self@.dom().contains(f) by {
                    let j = choose|j: int| 0 <= j < fs.len() && fs[j] == f;
                    assert(self@.contains_key(r@[j].field@));
                }
            }
            vstd::set_lib::lemma_subset_equality(fs.to_set(), self@.dom());
            assert forall|f: SimpleValue| #[trigger] self@.contains_key(f) implies exists|i: int|
                0 <= i < r@.len() && (#[trigger] r@[i]).field@ == f by {
                assert(fs.to_set().contains(f));
                let j = choose|j: int| 0 <= j < fs.len() && fs[j] == f;
                assert(r@[j].field@ == f);
            }
        }
        r
    }
}

} // verus!
