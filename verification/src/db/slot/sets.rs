//! The set commands of a slot.
//!
//! They take whatever entry is stored under the key, expired or not; `SADD`
//! starts an empty set where nothing is stored.

use vstd::prelude::*;

use super::dict::{Entry, EntryView};
use super::hashes::fields_view;
use super::lists::with_data;
use super::{id_after, lemma_slot_writes, Slot};
use crate::db::data_type::set::MemberSet;
use crate::db::data_type::{AggregateType, DataType, DataView, SimpleType, SimpleValue};

verus! {

/// What a set command reports when the key holds something else.
pub open spec fn not_a_set() -> Seq<char> {
    "the value stored at key is not a set."@
}

/// The entry `SADD` works on: the one stored under `k`, or a new empty set
/// with id `id`.
pub open spec fn set_entry(m: Map<SimpleValue, EntryView>, k: SimpleValue, id: u64) -> EntryView {
    if m.contains_key(k) {
        m[k]
    } else {
        EntryView { id, data: DataView::MemberSet(vstd::set::Set::empty()), expires_at: None }
    }
}

/// The set a read sees under `k`: empty when nothing is stored, `Err` when
/// something other than a set is.
pub open spec fn set_read(m: Map<SimpleValue, EntryView>, k: SimpleValue) -> Result<
    vstd::set::Set<SimpleValue>,
    (),
> {
    if m.contains_key(k) {
        match m[k].data {
            DataView::MemberSet(s) => Ok(s),
            _ => Err(()),
        }
    } else {
        Ok(vstd::set::Set::empty())
    }
}

impl Slot {
    /// `SADD`: adds `values` to the set under `key`, creating it when nothing
    /// is stored, and answers how many were not members before.
    pub fn sadd(&mut self, key: SimpleType, values: Vec<SimpleType>) -> (r: Result<usize, String>)
        ensures
            final(self).upcoming_id() == id_after(old(self).entries(), key@, old(self).upcoming_id()),
            final(self).schedule() == old(self).schedule(),
            old(self).consistent() && old(self).upcoming_id() < u64::MAX ==> final(self).consistent(),
            ({
                let e = set_entry(old(self).entries(), key@, old(self).upcoming_id());
                match e.data {
                    DataView::MemberSet(s) => {
                        let s2 = s + fields_view(values@).to_set();
                        r == Ok::<usize, String>((s2.len() - s.len()) as usize) && final(self).entries() == old(self).entries().insert(
                            key@,
                            with_data(e, DataView::MemberSet(s2)),
                        )
                    },
                    _ => r matches Err(m) && m@ == not_a_set() && final(self).entries() == old(self).entries(),
                }
            }),
    {
        proof {
            if self.consistent() {
                lemma_slot_writes(self.entries(), self.schedule(), self.upcoming_id(), key@);
            }
        }
        let ghost m0 = self.entries();
        let (mut set, id, ea) = match self.take_entry(&key) {
            Some(e) => match e.data {
                DataType::AggregateType(AggregateType::MemberSet(s)) => (s, e.id, e.expires_at),
                data => {
                    self.put_entry(&key, Entry { id: e.id, data, expires_at: e.expires_at });
                    proof {
                        assert(self.entries() =~= m0);
                    }
                    return Err("the value stored at key is not a set.".to_string());
                },
            },
            None => (MemberSet::new(), self.next_id(), None),
        };
        let ghost s0 = set@;
        let old_len = set.len();
        let mut i: usize = 0;
        while i < values.len()
            invariant
                0 <= i <= values@.len(),
                set@ == s0 + fields_view(values@.take(i as int)).to_set(),
                s0.finite(),
            decreases values@.len() - i,
        {
            set.insert(values[i].duplicate());
            proof {
                assert(fields_view(values@.take(i + 1)) =~= fields_view(values@.take(i as int)).push(
                    values@[i as int]@,
                ));
                fields_view(values@.take(i as int)).lemma_push_to_set_commute(values@[i as int]@);
                assert(set@ =~= s0 + fields_view(values@.take(i + 1)).to_set());
            }
            i += 1;
        }
        proof {
            assert(values@.take(values@.len() as int) =~= values@);
            vstd::set_lib::lemma_len_subset(s0, set@);
        }
        let new_len = set.len();
        self.put_entry(
            &key,
            Entry { id, data: DataType::AggregateType(AggregateType::MemberSet(set)), expires_at: ea },
        );
        Ok(new_len - old_len)
    }

    /// `SMISMEMBER`: whether each of `values` is a member of the set under
    /// `key`.
    pub fn smismember(&self, key: &SimpleType, values: Vec<SimpleType>) -> (r: Result<
        Vec<bool>,
        String,
    >)
        ensures
            match set_read(self.entries(), key@) {
                Ok(s) => r matches Ok(v) && v@.len() == values@.len() && forall|i: int|
                    0 <= i < values@.len() ==> #[trigger] v@[i] == s.contains(values@[i]@),
                Err(_) => r matches Err(m) && m@ == not_a_set(),
            },
    {
        let set = match self.dict.get_any(key) {
            Some(e) => match &e.data {
                DataType::AggregateType(AggregateType::MemberSet(s)) => Some(s),
                _ => {
                    return Err("the value stored at key is not a set.".to_string());
                },
            },
            None => None,
        };
        let ghost sv = match set_read(self.entries(), key@) {
            Ok(s) => s,
            Err(_) => vstd::set::Set::empty(),
        };
        let mut r: Vec<bool> = Vec::new();
        let mut i: usize = 0;
        while i < values.len()
            invariant
                0 <= i <= values@.len(),
                match set {
                    Some(s) => s@ == sv,
                    None => sv == vstd::set::Set::<SimpleValue>::empty(),
                },
                r@.len() == i,
                forall|j: int| 0 <= j < i ==> #[trigger] r@[j] == sv.contains(values@[j]@),
            decreases values@.len() - i,
        {
            let b = match set {
                Some(s) => s.contains(&values[i]),
                None => false,
            };
            r.push(b);
            i += 1;
        }
        Ok(r)
    }

    /// `SMEMBERS`: the members of the set under `key`, each once.
    pub fn smembers(&self, key: &SimpleType) -> (r: Result<Vec<SimpleType>, String>)
        ensures
            match set_read(self.entries(), key@) {
                Ok(s) => r matches Ok(v) && v@.len() == s.len() && (forall|i: int|
                    0 <= i < v@.len() ==> #[trigger] s.contains(v@[i]@)) && (forall|i: int, j: int|
                    0 <= i < j < v@.len() ==> (#[trigger] v@[i])@ != (#[trigger] v@[j])@),
                Err(_) => r matches Err(m) && m@ == not_a_set(),
            },
    {
        match self.dict.get_any(key) {
            Some(e) => match &e.data {
                DataType::AggregateType(AggregateType::MemberSet(s)) => Ok(s.members()),
                _ => Err("the value stored at key is not a set.".to_string()),
            },
            None => {
                proof {
                    assert(vstd::set::Set::<SimpleValue>::empty().len() == 0);
                }
                Ok(Vec::new())
            },
        }
    }

    /// `SREM`: removes `values` from the set under `key` and answers how many
    /// distinct members of the set were among them.
    pub fn srem(&mut self, key: &SimpleType, values: Vec<SimpleType>) -> (r: Result<usize, String>)
        ensures
            final(self).upcoming_id() == old(self).upcoming_id(),
            final(self).schedule() == old(self).schedule(),
            old(self).consistent() ==> final(self).consistent(),
            ({
                let m = old(self).entries();
                if !m.contains_key(key@) {
                    r == Ok::<usize, String>(0) && final(self).entries() == m
                } else {
                    match m[key@].data {
                        DataView::MemberSet(s) => {
                            let s2 = s - fields_view(values@).to_set();
                            r == Ok::<usize, String>(s.intersect(fields_view(values@).to_set()).len() as usize) && final(self).entries() == m.insert(key@, with_data(m[key@], DataView::MemberSet(s2)))
                        },
                        _ => r matches Err(x) && x@ == not_a_set() && final(self).entries() == m,
                    }
                }
            }),
    {
        proof {
            if self.consistent() {
                lemma_slot_writes(self.entries(), self.schedule(), self.upcoming_id(), key@);
            }
        }
        let ghost m0 = self.entries();
        let e = match self.take_entry(key) {
            Some(e) => e,
            None => {
                return Ok(0);
            },
        };
        let mut set = match e.data {
            DataType::AggregateType(AggregateType::MemberSet(s)) => s,
            data => {
                self.put_entry(key, Entry { id: e.id, data, expires_at: e.expires_at });
                proof {
                    assert(self.entries() =~= m0);
                }
                return Err("the value stored at key is not a set.".to_string());
            },
        };
        let ghost s0 = set@;
        let old_len = set.len();
        let mut i: usize = 0;
        while i < values.len()
            invariant
                0 <= i <= values@.len(),
                set@ == s0 - fields_view(values@.take(i as int)).to_set(),
                s0.finite(),
            decreases values@.len() - i,
        {
            set.remove(&values[i]);
            proof {
                assert(fields_view(values@.take(i + 1)) =~= fields_view(values@.take(i as int)).push(
                    values@[i as int]@,
                ));
                fields_view(values@.take(i as int)).lemma_push_to_set_commute(values@[i as int]@);
                assert(set@ =~= s0 - fields_view(values@.take(i + 1)).to_set());
            }
            i += 1;
        }
        proof {
            assert(values@.take(values@.len() as int) =~= values@);
            vstd::set_lib::lemma_len_subset(set@, s0);
            vstd::seq_lib::seq_to_set_is_finite(fields_view(values@));
            vstd::set_lib::lemma_set_difference_len(s0, fields_view(values@).to_set());
        }
        let new_len = set.len();
        self.put_entry(
            key,
            Entry {
                id: e.id,
                data: DataType::AggregateType(AggregateType::MemberSet(set)),
                expires_at: e.expires_at,
            },
        );
        Ok(old_len - new_len)
    }
}

} // verus!
