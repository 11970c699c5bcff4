//! The sorted set commands of a slot.
//!
//! Sorted sets are stored under text keys. The commands take whatever entry
//! is stored under the key, expired or not; `ZADD` starts an empty sorted
//! set where nothing is stored.

use vstd::prelude::*;

use super::dict::{Entry, EntryView};
use super::lists::with_data;
use super::{id_after, lemma_slot_writes, Slot};
use crate::db::data_type::sorted_set::{
    add_all, add_answer, zrem_gone, add_fits, add_start, add_state_all, keys_view, limit_fits, lex_range, lex_range_refused, nodes_sorted,
    nodes_view, score_range, score_range_inverted, spec_zrange_by_lex, spec_zrange_by_rank,
    spec_zrange_by_score, zrank_scan, ordered, Node, NodeView, RangeItem, SortedSet,
    SortedSetView,
};
use crate::db::data_type::{AggregateType, DataType, DataView, SimpleType, SimpleValue};
use crate::utils::bound::Bound;
use crate::utils::options::{GtLt, NxXx};

verus! {

/// What a sorted set command reports when the key holds something else.
pub open spec fn not_a_sorted_set() -> Seq<char> {
    "the value stored at key is not a sorted set."@
}

/// The key under which the sorted set named `key` is stored.
pub open spec fn zkey(key: Seq<char>) -> SimpleValue {
    SimpleValue::SimpleString(key)
}

/// An empty sorted set, as a mathematical value.
pub open spec fn empty_zset() -> SortedSetView {
    SortedSetView { hash: Map::empty(), value: Seq::empty() }
}

/// The entry `ZADD` works on: the one stored under `k`, or a new empty
/// sorted set with id `id`.
pub open spec fn zset_entry(m: Map<SimpleValue, EntryView>, k: SimpleValue, id: u64) -> EntryView {
    if m.contains_key(k) {
        m[k]
    } else {
        EntryView { id, data: DataView::SortedSet(empty_zset()), expires_at: None }
    }
}

/// The sorted set stored under `k`: `Ok(None)` when nothing is stored,
/// `Err` when something other than a sorted set is.
pub open spec fn zset_read(m: Map<SimpleValue, EntryView>, k: SimpleValue) -> Result<
    Option<SortedSetView>,
    (),
> {
    if m.contains_key(k) {
        match m[k].data {
            DataView::SortedSet(z) => Ok(Some(z)),
            _ => Err(()),
        }
    } else {
        Ok(None)
    }
}

/// Whether a `ZRANGE` query is accepted on the nodes `s`.
pub open spec fn zrange_ok(s: Seq<NodeView>, range: RangeItem, rev: bool, limit: Option<(i64, i64)>) -> bool {
    &&& limit_fits(limit)
    &&& match range {
        RangeItem::Rank(r) => s.len() <= i64::MAX && r.1 != i64::MAX,
        RangeItem::Socre(r) => !score_range_inverted(score_range(r, rev)),
        RangeItem::Lex(r) => s.len() > 0 ==> !lex_range_refused(lex_range(r, rev)),
    }
}

/// The nodes a `ZRANGE` query picks from the nodes `s`.
pub open spec fn spec_zrange(s: Seq<NodeView>, range: RangeItem, rev: bool, limit: Option<(i64, i64)>) -> Seq<
    NodeView,
> {
    match range {
        RangeItem::Rank(r) => spec_zrange_by_rank(s, r, rev, limit),
        RangeItem::Socre(r) => spec_zrange_by_score(s, r, rev, limit),
        RangeItem::Lex(r) => spec_zrange_by_lex(s, r, rev, limit),
    }
}

impl Slot {
    /// Takes out the sorted set under `key`, or a new one when nothing is
    /// stored; `Err` with the entry untouched when something else is stored.
    fn take_zset(&mut self, key: &SimpleType) -> (r: Result<(SortedSet, u64, Option<i64>), ()>)
        ensures
            final(self).upcoming_id() == id_after(old(self).entries(), key@, old(self).upcoming_id()),
            final(self).schedule() == old(self).schedule(),
            ({
                let e = zset_entry(old(self).entries(), key@, old(self).upcoming_id());
                match e.data {
                    DataView::SortedSet(z) => r matches Ok(t) && t.0@ == z && t.1 == e.id && t.2
                        == e.expires_at && final(self).entries() == old(self).entries().remove(
                        key@,
                    ),
                    _ => r is Err && final(self).entries() == old(self).entries(),
                }
            }),
    {
        let ghost m0 = self.entries();
        match self.take_entry(key) {
            Some(e) => match e.data {
                DataType::AggregateType(AggregateType::SortedSet(z)) => Ok((z, e.id, e.expires_at)),
                data => {
                    self.put_entry(key, Entry { id: e.id, data, expires_at: e.expires_at });
                    proof {
                        assert(self.entries() =~= m0);
                    }
                    Err(())
                },
            },
            None => {
                let z = SortedSet::new();
                proof {
                    assert(z@ == empty_zset());
                }
                Ok((z, self.next_id(), None))
            },
        }
    }

    /// Puts the sorted set `z` back under `key`.
    fn put_zset(&mut self, key: &SimpleType, z: SortedSet, id: u64, expires_at: Option<i64>)
        ensures
            final(self).upcoming_id() == old(self).upcoming_id(),
            final(self).schedule() == old(self).schedule(),
            final(self).entries() == old(self).entries().insert(
                key@,
                EntryView { id, data: DataView::SortedSet(z@), expires_at },
            ),
    {
        self.put_entry(
            key,
            Entry { id, data: DataType::AggregateType(AggregateType::SortedSet(z)), expires_at },
        );
    }

    /// The sorted set stored under `key`, if any.
    fn read_zset(&self, key: &SimpleType) -> (r: Result<Option<&SortedSet>, ()>)
        ensures
            match zset_read(self.entries(), key@) {
                Ok(Some(z)) => r matches Ok(Some(x)) && x@ == z,
                Ok(None) => r matches Ok(None),
                Err(_) => r is Err,
            },
    {
        match self.dict.get_any(key) {
            Some(e) => match &e.data {
                DataType::AggregateType(AggregateType::SortedSet(z)) => Ok(Some(z)),
                _ => Err(()),
            },
            None => Ok(None),
        }
    }

    /// `ZADD`: considers `nodes` in turn on the sorted set named `key`,
    /// creating it when nothing is stored; see `SortedSet::add`.
    pub fn zadd(
        &mut self,
        key: String,
        nodes: Vec<Node>,
        nx_xx: NxXx,
        gt_lt: GtLt,
        ch: bool,
        incr: bool,
    ) -> (r: Result<usize, String>)
        requires
            zset_read(old(self).entries(), zkey(key@)) matches Ok(Some(z)) ==> add_fits(
                z.hash,
                nodes_view(nodes@),
                nx_xx,
                gt_lt,
                incr,
            ),
            zset_read(old(self).entries(), zkey(key@)) matches Ok(None) ==> add_fits(
                Map::empty(),
                nodes_view(nodes@),
                nx_xx,
                gt_lt,
                incr,
            ),
        ensures
            final(self).upcoming_id() == id_after(old(self).entries(), zkey(key@), old(self).upcoming_id()),
            final(self).schedule() == old(self).schedule(),
            old(self).consistent() && old(self).upcoming_id() < u64::MAX ==> final(self).consistent(),
            ({
                let k = zkey(key@);
                let e = zset_entry(old(self).entries(), k, old(self).upcoming_id());
                match e.data {
                    DataView::SortedSet(z) => {
                        let fin = add_state_all(add_start(z), nodes_view(nodes@), nx_xx, gt_lt, incr);
                        &&& r == Ok::<usize, String>(add_answer(fin, ch) as usize)
                        &&& final(self).entries().dom() == old(self).entries().dom().insert(k)
                        &&& final(self).entries().remove(k) == old(self).entries().remove(k)
                        &&& final(self).entries()[k].id == e.id
                        &&& final(self).entries()[k].expires_at == e.expires_at
                        &&& final(self).entries()[k].data matches DataView::SortedSet(z2) && z2.hash == fin.hash
                            && z2.value.to_set() == fin.value && nodes_sorted(z2.value)
                    },
                    _ => r matches Err(s) && s@ == not_a_sorted_set() && final(self).entries()
                        == old(self).entries(),
                }
            }),
    {
        proof {
            if self.consistent() {
                lemma_slot_writes(self.entries(), self.schedule(), self.upcoming_id(), zkey(key@));
            }
        }
        let k = SimpleType::SimpleString(key);
        let (mut z, id, ea) = match self.take_zset(&k) {
            Ok(t) => t,
            Err(_) => {
                return Err("the value stored at key is not a sorted set.".to_string());
            },
        };
        let n = z.add(nodes, nx_xx, gt_lt, ch, incr);
        self.put_zset(&k, z, id, ea);
        Ok(n)
    }

    /// `ZREM`: drops the members named in `members` from the sorted set
    /// named `key` and answers how many it dropped; see `SortedSet::zrem`.
    /// Nothing stored answers 0.
    pub fn zrem(&mut self, key: &str, members: Vec<String>) -> (r: Result<usize, String>)
        ensures
            final(self).upcoming_id() == old(self).upcoming_id(),
            final(self).schedule() == old(self).schedule(),
            old(self).consistent() ==> final(self).consistent(),
            ({
                let k = zkey(key@);
                let ks = keys_view(members@).to_set();
                match zset_read(old(self).entries(), k) {
                    Ok(None) => r == Ok::<usize, String>(0) && final(self).entries() == old(self).entries(),
                    Ok(Some(z)) => {
                        &&& r == Ok::<usize, String>(ks.intersect(z.hash.dom()).len() as usize)
                        &&& final(self).entries().dom() == old(self).entries().dom()
                        &&& final(self).entries().remove(k) == old(self).entries().remove(k)
                        &&& final(self).entries()[k].id == old(self).entries()[k].id
                        &&& final(self).entries()[k].expires_at == old(self).entries()[k].expires_at
                        &&& final(self).entries()[k].data matches DataView::SortedSet(z2) && z2.hash
                            == z.hash.remove_keys(ks) && z2.value.to_set() == z.value.to_set() - zrem_gone(z.hash, ks)
                            && nodes_sorted(z2.value)
                    },
                    Err(_) => r matches Err(s) && s@ == not_a_sorted_set() && final(self).entries()
                        == old(self).entries(),
                }
            }),
    {
        proof {
            if self.consistent() {
                lemma_slot_writes(self.entries(), self.schedule(), self.upcoming_id(), zkey(key@));
            }
        }
        let k = SimpleType::from_text(key);
        if !self.dict.contains(&k) {
            return Ok(0);
        }
        let (mut z, id, ea) = match self.take_zset(&k) {
            Ok(t) => t,
            Err(_) => {
                return Err("the value stored at key is not a sorted set.".to_string());
            },
        };
        let n = z.zrem(members);
        self.put_zset(&k, z, id, ea);
        Ok(n)
    }

    /// `ZRANK`: the rank `ZRANK`'s scan answers for the member `member` of
    /// the sorted set named `key`; nothing for a missing member or set.
    pub fn zrank(&self, key: &str, member: &str, rev: bool) -> (r: Result<Option<usize>, String>)
        ensures
            match zset_read(self.entries(), zkey(key@)) {
                Ok(None) => r matches Ok(None),
                Ok(Some(z)) => if z.hash.contains_key(member@) {
                    match zrank_scan(ordered(z.value, rev), z.hash[member@], rev) {
                        Some(i) => r matches Ok(Some(x)) && x == i,
                        None => r matches Ok(None),
                    }
                } else {
                    r matches Ok(None)
                },
                Err(_) => r matches Err(s) && s@ == not_a_sorted_set(),
            },
    {
        let k = SimpleType::from_text(key);
        match self.read_zset(&k) {
            Ok(Some(z)) => {
                let m = member.to_string();
                match z.get(&m) {
                    Some(n) => Ok(z.nodes().zrank(n, rev)),
                    None => Ok(None),
                }
            },
            Ok(None) => Ok(None),
            Err(_) => Err("the value stored at key is not a sorted set.".to_string()),
        }
    }

    /// `ZRANGE`: the nodes of the sorted set named `key` that the query picks;
    /// none for a missing set.
    pub fn zrange(&self, key: &str, range: RangeItem, rev: bool, limit: Option<(i64, i64)>) -> (r:
        Result<Vec<Node>, String>)
        requires
            zset_read(self.entries(), zkey(key@)) matches Ok(Some(z)) ==> zrange_ok(
                z.value,
                range,
                rev,
                limit,
            ),
        ensures
            match zset_read(self.entries(), zkey(key@)) {
                Ok(None) => r matches Ok(v) && v@.len() == 0,
                Ok(Some(z)) => r matches Ok(v) && nodes_view(v@) == spec_zrange(
                    z.value,
                    range,
                    rev,
                    limit,
                ),
                Err(_) => r matches Err(s) && s@ == not_a_sorted_set(),
            },
    {
        let k = SimpleType::from_text(key);
        match self.read_zset(&k) {
            Ok(Some(z)) => {
                let t = z.nodes();
                Ok(
                    match range {
                        RangeItem::Rank(r) => t.zrange_by_rank(r, rev, limit),
                        RangeItem::Socre(r) => t.zrange_by_score(r, rev, limit),
                        RangeItem::Lex(r) => t.zrange_by_lex(r, rev, limit),
                    },
                )
            },
            Ok(None) => Ok(Vec::new()),
            Err(_) => Err("the value stored at key is not a sorted set.".to_string()),
        }
    }

    /// `ZREMRANGEBYRANK` on the sorted set named `key`; see
    /// `SortedSet::zremrange_by_rank`. Nothing stored answers 0.
    pub fn zremrange_by_rank(&mut self, key: &str, range: (i64, i64)) -> (r: Result<usize, String>)
        requires
            zset_read(old(self).entries(), zkey(key@)) matches Ok(Some(z)) ==> z.value.len()
                <= i64::MAX,
            range.1 != i64::MAX,
        ensures
            final(self).upcoming_id() == old(self).upcoming_id(),
            final(self).schedule() == old(self).schedule(),
            old(self).consistent() ==> final(self).consistent(),
            ({
                let k = zkey(key@);
                match zset_read(old(self).entries(), k) {
                    Ok(None) => r == Ok::<usize, String>(0) && final(self).entries() == old(self).entries(),
                    Ok(Some(z)) => {
                        let gone = spec_zrange_by_rank(z.value, range, false, None);
                        &&& r == Ok::<usize, String>(gone.len() as usize)
                        &&& final(self).entries().dom() == old(self).entries().dom()
                        &&& final(self).entries().remove(k) == old(self).entries().remove(k)
                        &&& final(self).entries()[k].id == old(self).entries()[k].id
                        &&& final(self).entries()[k].expires_at == old(self).entries()[k].expires_at
                        &&& final(self).entries()[k].data matches DataView::SortedSet(z2) && z2.value.to_set()
                            == z.value.to_set() - gone.to_set() && nodes_sorted(z2.value) && z2.hash
                            == z.hash.remove_keys(gone.map_values(|n: NodeView| n.key).to_set())
                    },
                    Err(_) => r matches Err(s) && s@ == not_a_sorted_set() && final(self).entries()
                        == old(self).entries(),
                }
            }),
    {
        proof {
            if self.consistent() {
                lemma_slot_writes(self.entries(), self.schedule(), self.upcoming_id(), zkey(key@));
            }
        }
        let k = SimpleType::from_text(key);
        if !self.dict.contains(&k) {
            return Ok(0);
        }
        let (mut z, id, ea) = match self.take_zset(&k) {
            Ok(t) => t,
            Err(_) => {
                return Err("the value stored at key is not a sorted set.".to_string());
            },
        };
        let n = z.zremrange_by_rank(range);
        self.put_zset(&k, z, id, ea);
        proof {
            let m0 = old(self).entries();
            assert(self.entries().dom() =~= m0.dom());
            assert(self.entries().remove(k@) =~= m0.remove(k@));
        }
        Ok(n)
    }

    /// `ZREMRANGEBYSCORE` on the sorted set named `key`; see
    /// `SortedSet::zremrange_by_score`. Nothing stored answers 0.
    pub fn zremrange_by_score(&mut self, key: &str, range: (Bound<i64>, Bound<i64>)) -> (r: Result<
        usize,
        String,
    >)
        requires
            !score_range_inverted(range),
        ensures
            final(self).upcoming_id() == old(self).upcoming_id(),
            final(self).schedule() == old(self).schedule(),
            old(self).consistent() ==> final(self).consistent(),
            ({
                let k = zkey(key@);
                match zset_read(old(self).entries(), k) {
                    Ok(None) => r == Ok::<usize, String>(0) && final(self).entries() == old(self).entries(),
                    Ok(Some(z)) => {
                        let gone = spec_zrange_by_score(z.value, range, false, None);
                        &&& r == Ok::<usize, String>(gone.len() as usize)
                        &&& final(self).entries().dom() == old(self).entries().dom()
                        &&& final(self).entries().remove(k) == old(self).entries().remove(k)
                        &&& final(self).entries()[k].id == old(self).entries()[k].id
                        &&& final(self).entries()[k].expires_at == old(self).entries()[k].expires_at
                        &&& final(self).entries()[k].data matches DataView::SortedSet(z2) && z2.value.to_set()
                            == z.value.to_set() - gone.to_set() && nodes_sorted(z2.value) && z2.hash
                            == z.hash.remove_keys(gone.map_values(|n: NodeView| n.key).to_set())
                    },
                    Err(_) => r matches Err(s) && s@ == not_a_sorted_set() && final(self).entries()
                        == old(self).entries(),
                }
            }),
    {
        proof {
            if self.consistent() {
                lemma_slot_writes(self.entries(), self.schedule(), self.upcoming_id(), zkey(key@));
            }
        }
        let k = SimpleType::from_text(key);
        if !self.dict.contains(&k) {
            return Ok(0);
        }
        let (mut z, id, ea) = match self.take_zset(&k) {
            Ok(t) => t,
            Err(_) => {
                return Err("the value stored at key is not a sorted set.".to_string());
            },
        };
        let n = z.zremrange_by_score(range);
        self.put_zset(&k, z, id, ea);
        proof {
            let m0 = old(self).entries();
            assert(self.entries().dom() =~= m0.dom());
            assert(self.entries().remove(k@) =~= m0.remove(k@));
        }
        Ok(n)
    }
}

} // verus!
