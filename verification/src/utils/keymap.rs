//! A map from keys to values kept as a list of pairs with no key twice.
//!
//! The keys of this store are values whose equality is their content, which
//! the hash maps of the standard library cannot be shown to respect; a list
//! compared key by key can.

use vstd::prelude::*;

verus! {

/// A key: a value whose equality is equality of its view.
pub trait Key: View + Sized {
    fn same_key(&self, other: &Self) -> (r: bool)
        ensures
            r == (self@ == other@),
    ;

    fn copy_key(&self) -> (r: Self)
        ensures
            r@ == self@,
    ;
}

/// A finite map from keys to values; no key occurs twice.
pub struct KeyMap<K: Key, V: View> {
    entries: Vec<(K, V)>,
}

impl<K: Key, V: View> KeyMap<K, V> {
    #[verifier::type_invariant]
    closed spec fn keys_distinct(self) -> bool {
        forall|i: int, j: int|
            0 <= i < j < self.entries@.len() ==> (#[trigger] self.entries@[i]).0@ != (
            #[trigger] self.entries@[j]).0@
    }

    /// The pairs, as values, in the order the map keeps them.
    pub closed spec fn entry_views(self) -> Seq<(K::V, V::V)> {
        self.entries@.map_values(|p: (K, V)| (p.0@, p.1@))
    }

    closed spec fn has_key_in(s: Seq<(K, V)>, k: K::V) -> bool {
        exists|i: int| 0 <= i < s.len() && (#[trigger] s[i]).0@ == k
    }

    closed spec fn index_in(s: Seq<(K, V)>, k: K::V) -> int {
        choose|i: int| 0 <= i < s.len() && (#[trigger] s[i]).0@ == k
    }

    closed spec fn distinct_in(s: Seq<(K, V)>) -> bool {
        forall|i: int, j: int| 0 <= i < j < s.len() ==> (#[trigger] s[i]).0@ != (#[trigger] s[j]).0@
    }

    closed spec fn map_of(s: Seq<(K, V)>) -> Map<K::V, V::V> {
        Map::new(|k: K::V| Self::has_key_in(s, k), |k: K::V| s[Self::index_in(s, k)].1@)
    }

    closed spec fn index_of(self, k: K::V) -> int {
        Self::index_in(self.entries@, k)
    }

    /// The map the pairs make.
    pub closed spec fn spec_map(self) -> Map<K::V, V::V> {
        Self::map_of(self.entries@)
    }

    proof fn lemma_in(s: Seq<(K, V)>, i: int)
        requires
            Self::distinct_in(s),
            0 <= i < s.len(),
        ensures
            Self::map_of(s).contains_key(s[i].0@),
            Self::map_of(s)[s[i].0@] == s[i].1@,
            Self::index_in(s, s[i].0@) == i,
    {
        let k = s[i].0@;
        assert(Self::has_key_in(s, k));
        let j = Self::index_in(s, k);
        if j < i {
            assert(s[j].0@ != s[i].0@);
        } else if i < j {
            assert(s[i].0@ != s[j].0@);
        }
    }

    proof fn lemma_at(self, i: int)
        requires
            self.keys_distinct(),
            0 <= i < self.entries@.len(),
        ensures
            self.spec_map().contains_key(self.entries@[i].0@),
            self.spec_map()[self.entries@[i].0@] == self.entries@[i].1@,
            self.index_of(self.entries@[i].0@) == i,
    {
        Self::lemma_in(self.entries@, i);
    }

    proof fn lemma_views(self)
        requires
            self.keys_distinct(),
        ensures
            self.entry_views().len() == self.spec_map().dom().len(),
            self.spec_map().dom().finite(),
            forall|i: int|
                0 <= i < self.entry_views().len() ==> #[trigger] self.spec_map().contains_key(
                    self.entry_views()[i].0,
                ) && self.spec_map()[self.entry_views()[i].0] == self.entry_views()[i].1,
            forall|k: K::V|
                #[trigger] self.spec_map().contains_key(k) ==> exists|i: int|
                    0 <= i < self.entry_views().len() && (#[trigger] self.entry_views()[i]).0
                        == k,
            forall|i: int, j: int|
                0 <= i < j < self.entry_views().len() ==> (#[trigger] self.entry_views()[i]).0
                    != (#[trigger] self.entry_views()[j]).0,
    {
        let ev = self.entry_views();
        let ks = ev.map_values(|p: (K::V, V::V)| p.0);
        assert forall|i: int| 0 <= i < ev.len() implies #[trigger] self.spec_map().contains_key(
            ev[i].0,
        ) && self.spec_map()[ev[i].0] == ev[i].1 by {
            self.lemma_at(i);
        }
        assert forall|k: K::V| #[trigger] self.spec_map().contains_key(k) implies exists|i: int|
            0 <= i < ev.len() && (#[trigger] ev[i]).0 == k by {
            let i = self.index_of(k);
            assert(ev[i].0 == k);
        }
        assert forall|i: int, j: int| 0 <= i < j < ev.len() implies (#[trigger] ev[i]).0 != (
        #[trigger] ev[j]).0 by {
            assert(self.entries@[i].0@ != self.entries@[j].0@);
        }
        assert(ks.no_duplicates()) by {
            assert forall|i: int, j: int| 0 <= i < ks.len() && 0 <= j < ks.len() && i != j implies ks[i]
                != ks[j] by {
                if i < j {
                    assert(ev[i].0 != ev[j].0);
                } else {
                    assert(ev[j].0 != ev[i].0);
                }
            }
        }
        ks.unique_seq_to_set();
        assert(ks.to_set() =~= self.spec_map().dom()) by {
            assert forall|k: K::V| ks.to_set().contains(k) implies self.spec_map().dom().contains(
                k,
            ) by {
                let i = choose|i: int| 0 <= i < ks.len() && ks[i] == k;
                self.lemma_at(i);
            }
            assert forall|k: K::V| self.spec_map().dom().contains(k) implies ks.to_set().contains(
                k,
            ) by {
                let i = self.index_of(k);
                assert(ks[i] == k);
            }
        }
        vstd::seq_lib::seq_to_set_is_finite(ks);
    }

    /// An empty map.
    pub fn new() -> (r: Self)
        ensures
            r.spec_map() == Map::<K::V, V::V>::empty(),
            r.entry_views() == Seq::<(K::V, V::V)>::empty(),
    {
        let r = KeyMap { entries: Vec::new() };
        assert(r.spec_map() =~= Map::<K::V, V::V>::empty());
        assert(r.entry_views() =~= Seq::<(K::V, V::V)>::empty());
        r
    }

    /// The number of keys, with how the pairs make up the map: each pair is
    /// in the map, each key of the map is in some pair, no key twice.
    pub fn len(&self) -> (r: usize)
        ensures
            r == self.spec_map().dom().len(),
            r == self.entry_views().len(),
            self.spec_map().dom().finite(),
            forall|i: int|
                0 <= i < self.entry_views().len() ==> #[trigger] self.spec_map().contains_key(
                    self.entry_views()[i].0,
                ) && self.spec_map()[self.entry_views()[i].0] == self.entry_views()[i].1,
            forall|k: K::V|
                #[trigger] self.spec_map().contains_key(k) ==> exists|i: int|
                    0 <= i < self.entry_views().len() && (#[trigger] self.entry_views()[i]).0
                        == k,
            forall|i: int, j: int|
                0 <= i < j < self.entry_views().len() ==> (#[trigger] self.entry_views()[i]).0
                    != (#[trigger] self.entry_views()[j]).0,
    {
        proof {
            use_type_invariant(self);
            self.lemma_views();
        }
        self.entries.len()
    }

    /// Where `k` stands among the pairs.
    pub fn find(&self, k: &K) -> (r: Option<usize>)
        ensures
            r is None <==> !self.spec_map().contains_key(k@),
            r matches Some(i) ==> i < self.entry_views().len() && self.entry_views()[i as int].0
                == k@,
    {
        proof {
            use_type_invariant(self);
        }
        let mut i: usize = 0;
        while i < self.entries.len()
            invariant
                0 <= i <= self.entries@.len(),
                forall|j: int| 0 <= j < i ==> (#[trigger] self.entries@[j]).0@ != k@,
            decreases self.entries@.len() - i,
        {
            if self.entries[i].0.same_key(k) {
                return Some(i);
            }
            i += 1;
        }
        None
    }

    /// The pair at position `i`.
    pub fn pair_at(&self, i: usize) -> (r: (&K, &V))
        requires
            i < self.entry_views().len(),
        ensures
            r.0@ == self.entry_views()[i as int].0,
            r.1@ == self.entry_views()[i as int].1,
    {
        let p = &self.entries[i];
        (&p.0, &p.1)
    }

    /// The value stored under `k`, if any.
    pub fn get(&self, k: &K) -> (r: Option<&V>)
        ensures
            r is None <==> !self.spec_map().contains_key(k@),
            r matches Some(v) ==> v@ == self.spec_map()[k@],
    {
        proof {
            use_type_invariant(self);
        }
        match self.find(k) {
            Some(i) => {
                proof {
                    self.lemma_at(i as int);
                }
                Some(&self.entries[i].1)
            },
            None => None,
        }
    }

    /// Whether `k` has a value.
    pub fn contains_key(&self, k: &K) -> (r: bool)
        ensures
            r == self.spec_map().contains_key(k@),
    {
        self.find(k).is_some()
    }

    /// Takes the pair at position `i` out of the map.
    fn take_at(&mut self, i: usize) -> (r: (K, V))
        requires
            i < old(self).entry_views().len(),
        ensures
            final(self).spec_map() == old(self).spec_map().remove(r.0@),
            old(self).spec_map().contains_key(r.0@),
            old(self).spec_map()[r.0@] == r.1@,
            r.0@ == old(self).entry_views()[i as int].0,
    {
        proof {
            use_type_invariant(&*self);
            self.lemma_at(i as int);
        }
        let ghost old_map = self.spec_map();
        let ghost old_entries = self.entries@;
        let mut entries: Vec<(K, V)> = Vec::new();
        std::mem::swap(&mut entries, &mut self.entries);
        let r = entries.remove(i);
        proof {
            assert forall|a: int, b: int|
                0 <= a < b < entries@.len() implies (#[trigger] entries@[a]).0@ != (
            #[trigger] entries@[b]).0@ by {
                let a0 = if a < i { a } else { a + 1 };
                let b0 = if b < i { b } else { b + 1 };
                assert(old_entries[a0].0@ != old_entries[b0].0@);
            }
            let m = Self::map_of(entries@);
            assert forall|k: K::V| #[trigger] m.contains_key(k) <==> old_map.remove(
                r.0@,
            ).contains_key(k) by {
                if m.contains_key(k) {
                    let j = Self::index_in(entries@, k);
                    let j0 = if j < i { j } else { j + 1 };
                    assert(old_entries[j0].0@ == k);
                    if k == r.0@ {
                        assert(old_entries[i as int].0@ == old_entries[j0].0@);
                    }
                }
                if old_map.remove(r.0@).contains_key(k) {
                    let j0 = choose|j: int|
                        0 <= j < old_entries.len() && (#[trigger] old_entries[j]).0@ == k;
                    assert(j0 != i);
                    let j = if j0 < i { j0 } else { j0 - 1 };
                    assert(entries@[j].0@ == k);
                }
            }
            assert forall|k: K::V| #[trigger] m.contains_key(k) implies m[k] == old_map.remove(
                r.0@,
            )[k] by {
                let j = Self::index_in(entries@, k);
                let j0 = if j < i { j } else { j + 1 };
                assert(old_entries[j0] == entries@[j]);
                Self::lemma_in(entries@, j);
                Self::lemma_in(old_entries, j0);
            }
            assert(m =~= old_map.remove(r.0@));
        }
        self.entries = entries;
        r
    }

    /// Stores `v` under `k`, handing back the value it replaces.
    pub fn insert(&mut self, k: K, v: V) -> (r: Option<V>)
        ensures
            final(self).spec_map() == old(self).spec_map().insert(k@, v@),
            r is None <==> !old(self).spec_map().contains_key(k@),
            r matches Some(o) ==> o@ == old(self).spec_map()[k@],
    {
        let old_v = match self.find(&k) {
            Some(i) => {
                let (_, o) = self.take_at(i);
                Some(o)
            },
            None => None,
        };
        proof {
            use_type_invariant(&*self);
        }
        let ghost mid = self.spec_map();
        let ghost mid_entries = self.entries@;
        proof {
            assert(!mid.contains_key(k@));
        }
        let mut entries: Vec<(K, V)> = Vec::new();
        std::mem::swap(&mut entries, &mut self.entries);
        let ghost kk = k@;
        let ghost vv = v@;
        entries.push((k, v));
        proof {
            let n = mid_entries.len() as int;
            assert(entries@[n].0@ == kk);
            assert(entries@[n].1@ == vv);
            assert forall|a: int, b: int|
                0 <= a < b < entries@.len() implies (#[trigger] entries@[a]).0@ != (
            #[trigger] entries@[b]).0@ by {
                if b == n {
                    assert(mid_entries[a] == entries@[a]);
                    Self::lemma_in(mid_entries, a);
                } else {
                    assert(mid_entries[a].0@ != mid_entries[b].0@);
                }
            }
            let m = Self::map_of(entries@);
            assert forall|key: K::V| #[trigger] m.contains_key(key) <==> mid.insert(
                kk,
                vv,
            ).contains_key(key) by {
                if m.contains_key(key) && key != kk {
                    let j = Self::index_in(entries@, key);
                    if j == n {
                        assert(entries@[n].0@ == kk);
                    } else {
                        assert(mid_entries[j] == entries@[j]);
                        Self::lemma_in(mid_entries, j);
                    }
                }
                if mid.contains_key(key) {
                    let j = Self::index_in(mid_entries, key);
                    assert(entries@[j] == mid_entries[j]);
                    assert(Self::has_key_in(entries@, key));
                }
                if key == kk {
                    assert(Self::has_key_in(entries@, key));
                }
            }
            assert forall|key: K::V| #[trigger] m.contains_key(key) implies m[key] == mid.insert(
                kk,
                vv,
            )[key] by {
                let j = Self::index_in(entries@, key);
                Self::lemma_in(entries@, j);
                if j < n {
                    assert(mid_entries[j] == entries@[j]);
                    Self::lemma_in(mid_entries, j);
                }
            }
            assert(m =~= mid.insert(kk, vv));
        }
        self.entries = entries;
        old_v
    }

    /// Removes `k`, handing back its value.
    pub fn remove(&mut self, k: &K) -> (r: Option<V>)
        ensures
            final(self).spec_map() == old(self).spec_map().remove(k@),
            r is None <==> !old(self).spec_map().contains_key(k@),
            r matches Some(o) ==> o@ == old(self).spec_map()[k@],
    {
        match self.find(k) {
            Some(i) => {
                let (_, o) = self.take_at(i);
                Some(o)
            },
            None => {
                proof {
                    assert(self.spec_map().remove(k@) =~= self.spec_map());
                }
                None
            },
        }
    }
}

} // verus!

verus! {

impl Key for String {
    fn same_key(&self, other: &Self) -> (r: bool) {
        self.eq(other)
    }

    fn copy_key(&self) -> (r: Self) {
        self.clone()
    }
}

} // verus!
