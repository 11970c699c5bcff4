//! The hash commands of a slot.
//!
//! They take whatever entry is stored under the key, expired or not; the
//! writes start an empty hash where nothing is stored.

use vstd::prelude::*;

use super::dict::{Entry, EntryView};
use super::lists::with_data;
use super::{id_after, lemma_slot_writes, Slot};
use crate::db::data_type::hash::{entries_view, HashEntry};
use crate::db::data_type::{AggregateType, DataType, DataView, SimpleType, SimpleValue};
use crate::utils::numeric::{parse_i64, spec_parse_i64};

verus! {

/// What a hash command reports when the key holds something else.
pub open spec fn not_a_hash() -> Seq<char> {
    "the value stored at key is not a hash."@
}

/// The entry a hash write works on: the one stored under `k`, or a new
/// empty hash with id `id`.
pub open spec fn hash_entry(m: Map<SimpleValue, EntryView>, k: SimpleValue, id: u64) -> EntryView {
    if m.contains_key(k) {
        m[k]
    } else {
        EntryView { id, data: DataView::Hash(Map::empty()), expires_at: None }
    }
}

/// The hash a read sees under `k`: empty when nothing is stored, `Err`
/// when something other than a hash is.
pub open spec fn hash_read(m: Map<SimpleValue, EntryView>, k: SimpleValue) -> Result<
    Map<SimpleValue, SimpleValue>,
    (),
> {
    if m.contains_key(k) {
        match m[k].data {
            DataView::Hash(h) => Ok(h),
            _ => Err(()),
        }
    } else {
        Ok(Map::empty())
    }
}

/// `h` with the pairs of `ps` stored one after the other.
pub open spec fn insert_pairs(h: Map<SimpleValue, SimpleValue>, ps: Seq<(SimpleValue, SimpleValue)>) -> Map<
    SimpleValue,
    SimpleValue,
>
    decreases ps.len(),
{
    if ps.len() == 0 {
        h
    } else {
        insert_pairs(h, ps.drop_last()).insert(ps.last().0, ps.last().1)
    }
}

/// The number `HINCRBY` adds to: 0 for a missing field, the integer
/// stored, or the text stored read as an integer.
pub open spec fn field_number(h: Map<SimpleValue, SimpleValue>, f: SimpleValue) -> Option<i64> {
    if h.contains_key(f) {
        match h[f] {
            SimpleValue::Integer(i) => Some(i),
            SimpleValue::SimpleString(s) => spec_parse_i64(s),
            _ => None,
        }
    } else {
        Some(0)
    }
}

/// Whether `HINCRBY` stays within `i64`.
pub open spec fn hincr_fits(m: Map<SimpleValue, EntryView>, k: SimpleValue, f: SimpleValue, value: i64) -> bool {
    hash_read(m, k) matches Ok(h) ==> (field_number(h, f) matches Some(v) ==> i64::MIN <= v + value
        <= i64::MAX)
}

/// Optional values, as mathematical values.
pub open spec fn opt_values(s: Seq<Option<SimpleType>>) -> Seq<Option<SimpleValue>> {
    s.map_values(
        |o: Option<SimpleType>|
            match o {
                Some(v) => Some(v@),
                None => None,
            },
    )
}

/// The values of the fields `fs` in `h`.
pub open spec fn lookups(h: Map<SimpleValue, SimpleValue>, fs: Seq<SimpleValue>) -> Seq<Option<SimpleValue>> {
    fs.map_values(|f: SimpleValue| if h.contains_key(f) { Some(h[f]) } else { None })
}

/// Values, as mathematical values.
pub open spec fn fields_view(s: Seq<SimpleType>) -> Seq<SimpleValue> {
    s.map_values(|v: SimpleType| v@)
}

impl Slot {
    /// Takes out the hash under `key`, or a new one when nothing is stored;
    /// `Err` with the entry untouched when something else is stored.
    fn take_hash(&mut self, key: &SimpleType) -> (r: Result<(crate::db::data_type::hash::Hash, u64, Option<i64>), ()>)
        ensures
            final(self).upcoming_id() == id_after(old(self).entries(), key@, old(self).upcoming_id()),
            final(self).schedule() == old(self).schedule(),
            ({
                let e = hash_entry(old(self).entries(), key@, old(self).upcoming_id());
                match e.data {
                    DataView::Hash(h) => r matches Ok(t) && t.0@ == h && t.1 == e.id && t.2
                        == e.expires_at && final(self).entries() == old(self).entries().remove(
                        key@,
                    ),
                    _ => r is Err && final(self).entries() == old(self).entries(),
                }
            }),
    {
        let ghost m0 = self.entries();
        match self.take_entry(key) {
            Some(e) => match e.data {
                DataType::AggregateType(AggregateType::Hash(h)) => Ok((h, e.id, e.expires_at)),
                data => {
                    self.put_entry(key, Entry { id: e.id, data, expires_at: e.expires_at });
                    proof {
                        assert(self.entries() =~= m0);
                    }
                    Err(())
                },
            },
            None => Ok((crate::db::data_type::hash::Hash::new(), self.next_id(), None)),
        }
    }

    /// Puts the hash `h` back under `key`.
    fn put_hash(&mut self, key: &SimpleType, h: crate::db::data_type::hash::Hash, id: u64, expires_at: Option<i64>)
        ensures
            final(self).upcoming_id() == old(self).upcoming_id(),
            final(self).schedule() == old(self).schedule(),
            final(self).entries() == old(self).entries().insert(
                key@,
                EntryView { id, data: DataView::Hash(h@), expires_at },
            ),
    {
        self.put_entry(key, Entry { id, data: DataType::AggregateType(AggregateType::Hash(h)), expires_at });
    }

    /// `HSET`: stores the pairs one after the other in the hash under `key`,
    /// creating it when nothing is stored, and answers how many pairs were
    /// given.
    pub fn hset(&mut self, key: SimpleType, pairs: Vec<HashEntry>) -> (r: Result<usize, String>)
        ensures
            final(self).upcoming_id() == id_after(old(self).entries(), key@, old(self).upcoming_id()),
            final(self).schedule() == old(self).schedule(),
            old(self).consistent() && old(self).upcoming_id() < u64::MAX ==> final(self).consistent(),
            ({
                let e = hash_entry(old(self).entries(), key@, old(self).upcoming_id());
                match e.data {
                    DataView::Hash(h) => r == Ok::<usize, String>(pairs@.len() as usize) && final(self).entries() == old(self).entries().insert(
                        key@,
                        with_data(e, DataView::Hash(insert_pairs(h, entries_view(pairs@)))),
                    ),
                    _ => r matches Err(s) && s@ == not_a_hash() && final(self).entries() == old(self).entries(),
                }
            }),
    {
        proof {
            if self.consistent() {
                lemma_slot_writes(self.entries(), self.schedule(), self.upcoming_id(), key@);
            }
        }
        let (mut h, id, ea) = match self.take_hash(&key) {
            Ok(t) => t,
            Err(_) => {
                return Err("the value stored at key is not a hash.".to_string());
            },
        };
        let ghost h0 = h@;
        let mut i: usize = 0;
        while i < pairs.len()
            invariant
                0 <= i <= pairs@.len(),
                h@ == insert_pairs(h0, entries_view(pairs@.take(i as int))),
            decreases pairs@.len() - i,
        {
            let f = pairs[i].field.duplicate();
            let v = pairs[i].value.duplicate();
            h.set_field(f, v);
            proof {
                let ps = entries_view(pairs@.take(i + 1));
                assert(ps.drop_last() =~= entries_view(pairs@.take(i as int)));
            }
            i += 1;
        }
        proof {
            assert(pairs@.take(pairs@.len() as int) =~= pairs@);
        }
        self.put_hash(&key, h, id, ea);
        Ok(pairs.len())
    }

    /// `HSETNX`: gives `field` the value `value` in the hash under `key`
    /// unless it has one, creating the hash when nothing is stored; answers
    /// 1 when it was set and 0 when not.
    pub fn hsetnx(&mut self, key: SimpleType, field: SimpleType, value: SimpleType) -> (r: Result<
        usize,
        String,
    >)
        ensures
            final(self).upcoming_id() == id_after(old(self).entries(), key@, old(self).upcoming_id()),
            final(self).schedule() == old(self).schedule(),
            old(self).consistent() && old(self).upcoming_id() < u64::MAX ==> final(self).consistent(),
            ({
                let e = hash_entry(old(self).entries(), key@, old(self).upcoming_id());
                match e.data {
                    DataView::Hash(h) => if h.contains_key(field@) {
                        r == Ok::<usize, String>(0) && final(self).entries() == old(self).entries()
                    } else {
                        r == Ok::<usize, String>(1) && final(self).entries() == old(self).entries().insert(
                            key@,
                            with_data(e, DataView::Hash(h.insert(field@, value@))),
                        )
                    },
                    _ => r matches Err(s) && s@ == not_a_hash() && final(self).entries() == old(self).entries(),
                }
            }),
    {
        proof {
            if self.consistent() {
                lemma_slot_writes(self.entries(), self.schedule(), self.upcoming_id(), key@);
            }
        }
        let ghost m0 = self.entries();
        let (mut h, id, ea) = match self.take_hash(&key) {
            Ok(t) => t,
            Err(_) => {
                return Err("the value stored at key is not a hash.".to_string());
            },
        };
        if h.contains_field(&field) {
            self.put_hash(&key, h, id, ea);
            proof {
                assert(m0.contains_key(key@));
                assert(self.entries() =~= m0);
            }
            Ok(0)
        } else {
            h.set_field(field, value);
            self.put_hash(&key, h, id, ea);
            Ok(1)
        }
    }

    /// `HGETALL`: every field of the hash under `key` with its value, each
    /// field once and nothing else; none when nothing is stored.
    pub fn hgetall(&self, key: &SimpleType) -> (r: Result<Vec<HashEntry>, String>)
        ensures
            match hash_read(self.entries(), key@) {
                Ok(h) => r matches Ok(v) && entries_view(v@).len() == h.dom().len() && (forall|
                    i: int,
                |
                    0 <= i < v@.len() ==> #[trigger] h.contains_key(v@[i].field@) && h[v@[i].field@]
                        == v@[i].value@) && (forall|i: int, j: int|
                    0 <= i < j < v@.len() ==> (#[trigger] v@[i]).field@ != (
                    #[trigger] v@[j]).field@) && (forall|f: SimpleValue| #[trigger] h.contains_key(f)
                    ==> exists|i: int| 0 <= i < v@.len() && (#[trigger] v@[i]).field@ == f),
                Err(_) => r matches Err(s) && s@ == not_a_hash(),
            },
    {
        match self.dict.get_any(key) {
            Some(e) => match &e.data {
                DataType::AggregateType(AggregateType::Hash(h)) => Ok(h.entries()),
                _ => Err("the value stored at key is not a hash.".to_string()),
            },
            None => Ok(Vec::new()),
        }
    }

    /// `HMGET`: the value of each of `fields` in the hash under `key`.
    pub fn hmget(&self, key: &SimpleType, fields: Vec<SimpleType>) -> (r: Result<
        Vec<Option<SimpleType>>,
        String,
    >)
        ensures
            match hash_read(self.entries(), key@) {
                Ok(h) => r matches Ok(v) && opt_values(v@) == lookups(h, fields_view(fields@)),
                Err(_) => r matches Err(s) && s@ == not_a_hash(),
            },
    {
        let h = match self.dict.get_any(key) {
            Some(e) => match &e.data {
                DataType::AggregateType(AggregateType::Hash(h)) => Some(h),
                _ => {
                    return Err("the value stored at key is not a hash.".to_string());
                },
            },
            None => None,
        };
        let ghost hv = match hash_read(self.entries(), key@) {
            Ok(h) => h,
            Err(_) => Map::empty(),
        };
        let mut r: Vec<Option<SimpleType>> = Vec::new();
        let mut i: usize = 0;
        while i < fields.len()
            invariant
                0 <= i <= fields@.len(),
                match h {
                    Some(h) => h@ == hv,
                    None => hv == Map::<SimpleValue, SimpleValue>::empty(),
                },
                opt_values(r@) == lookups(hv, fields_view(fields@.take(i as int))),
            decreases fields@.len() - i,
        {
            let ghost r0 = r@;
            let found = match h {
                Some(h) => match h.get_field(&fields[i]) {
                    Some(v) => Some(v.duplicate()),
                    None => None,
                },
                None => None,
            };
            r.push(found);
            proof {
                assert(fields_view(fields@.take(i + 1)) =~= fields_view(fields@.take(i as int)).push(
                    fields@[i as int]@,
                ));
                assert(opt_values(r@) =~= opt_values(r0).push(
                    match found {
                        Some(v) => Some(v@),
                        None => None,
                    },
                ));
            }
            i += 1;
        }
        proof {
            assert(fields@.take(fields@.len() as int) =~= fields@);
        }
        Ok(r)
    }

    /// `HDEL`: removes `fields` from the hash under `key` and answers how
    /// many of them it had.
    pub fn hdel(&mut self, key: &SimpleType, fields: Vec<SimpleType>) -> (r: Result<usize, String>)
        ensures
            final(self).upcoming_id() == old(self).upcoming_id(),
            final(self).schedule() == old(self).schedule(),
            old(self).consistent() ==> final(self).consistent(),
            ({
                let m = old(self).entries();
                if !m.contains_key(key@) {
                    r == Ok::<usize, String>(0) && final(self).entries() == m
                } else {
                    match m[key@].data {
                        DataView::Hash(h) => {
                            let h2 = h.remove_keys(fields_view(fields@).to_set());
                            r == Ok::<usize, String>((h.dom().len() - h2.dom().len()) as usize)
                                && final(self).entries() == m.insert(
                                key@,
                                with_data(m[key@], DataView::Hash(h2)),
                            )
                        },
                        _ => r matches Err(s) && s@ == not_a_hash() && final(self).entries() == m,
                    }
                }
            }),
    {
        proof {
            if self.consistent() {
                lemma_slot_writes(self.entries(), self.schedule(), self.upcoming_id(), key@);
            }
        }
        if !self.dict.contains(key) {
            return Ok(0);
        }
        let (mut h, id, ea) = match self.take_hash(key) {
            Ok(t) => t,
            Err(_) => {
                return Err("the value stored at key is not a hash.".to_string());
            },
        };
        let ghost h0 = h@;
        let old_len = h.len();
        let mut i: usize = 0;
        while i < fields.len()
            invariant
                0 <= i <= fields@.len(),
                h@ == h0.remove_keys(fields_view(fields@.take(i as int)).to_set()),
                h0.dom().finite(),
            decreases fields@.len() - i,
        {
            h.remove_field(&fields[i]);
            proof {
                assert(fields_view(fields@.take(i + 1)).to_set() =~= fields_view(
                    fields@.take(i as int),
                ).to_set().insert(fields@[i as int]@)) by {
                    assert(fields_view(fields@.take(i + 1)) =~= fields_view(
                        fields@.take(i as int),
                    ).push(fields@[i as int]@));
                    fields_view(fields@.take(i as int)).lemma_push_to_set_commute(
                        fields@[i as int]@,
                    );
                }
                assert(h@ =~= h0.remove_keys(fields_view(fields@.take(i + 1)).to_set()));
            }
            i += 1;
        }
        proof {
            assert(fields@.take(fields@.len() as int) =~= fields@);
            assert(h@.dom().subset_of(h0.dom()));
            vstd::set_lib::lemma_len_subset(h@.dom(), h0.dom());
        }
        let new_len = h.len();
        self.put_hash(key, h, id, ea);
        Ok(old_len - new_len)
    }

    /// `HEXISTS`: 1 when `field` has a value in the hash under `key`, else 0.
    pub fn hexists(&self, key: &SimpleType, field: SimpleType) -> (r: Result<usize, String>)
        ensures
            match hash_read(self.entries(), key@) {
                Ok(h) => r == Ok::<usize, String>(if h.contains_key(field@) { 1 } else { 0 }),
                Err(_) => r matches Err(s) && s@ == not_a_hash(),
            },
    {
        match self.dict.get_any(key) {
            Some(e) => match &e.data {
                DataType::AggregateType(AggregateType::Hash(h)) => if h.contains_field(&field) {
                    Ok(1)
                } else {
                    Ok(0)
                },
                _ => Err("the value stored at key is not a hash.".to_string()),
            },
            None => Ok(0),
        }
    }

    /// `HINCRBY`: adds `value` to the number in `field` of the hash under
    /// `key`, creating the hash when nothing is stored and counting from 0
    /// when the field has no value, and answers the sum. Text is read as an
    /// integer; text that is not one is an error, and so is any other value
    /// ("type not support").
    pub fn hincrby(&mut self, key: SimpleType, field: SimpleType, value: i64) -> (r: Result<
        i64,
        String,
    >)
        requires
            hincr_fits(old(self).entries(), key@, field@, value),
        ensures
            final(self).upcoming_id() == id_after(old(self).entries(), key@, old(self).upcoming_id()),
            final(self).schedule() == old(self).schedule(),
            old(self).consistent() && old(self).upcoming_id() < u64::MAX ==> final(self).consistent(),
            ({
                let e = hash_entry(old(self).entries(), key@, old(self).upcoming_id());
                match e.data {
                    DataView::Hash(h) => match field_number(h, field@) {
                        Some(v) => r == Ok::<i64, String>((v + value) as i64) && final(self).entries() == old(self).entries().insert(
                            key@,
                            with_data(
                                e,
                                DataView::Hash(
                                    h.insert(field@, SimpleValue::Integer((v + value) as i64)),
                                ),
                            ),
                        ),
                        None => r is Err && final(self).entries() == old(self).entries() && (!(
                        h[field@] is SimpleString) ==> (r matches Err(s) && s@
                            == "type not support"@)),
                    },
                    _ => r matches Err(s) && s@ == not_a_hash() && final(self).entries() == old(self).entries(),
                }
            }),
    {
        proof {
            if self.consistent() {
                lemma_slot_writes(self.entries(), self.schedule(), self.upcoming_id(), key@);
            }
        }
        let ghost m0 = self.entries();
        let (mut h, id, ea) = match self.take_hash(&key) {
            Ok(t) => t,
            Err(_) => {
                return Err("the value stored at key is not a hash.".to_string());
            },
        };
        let old_value: Result<i64, String> = match h.get_field(&field) {
            Some(SimpleType::SimpleString(s)) => parse_i64(s.as_str()),
            Some(SimpleType::Integer(i)) => Ok(*i),
            Some(_) => Err("type not support".to_string()),
            None => Ok(0),
        };
        match old_value {
            Ok(v) => {
                let nv = v + value;
                h.set_field(field, SimpleType::Integer(nv));
                self.put_hash(&key, h, id, ea);
                Ok(nv)
            },
            Err(e) => {
                self.put_hash(&key, h, id, ea);
                proof {
                    assert(m0.contains_key(key@));
                    assert(self.entries() =~= m0);
                }
                Err(e)
            },
        }
    }
}

} // verus!
