//! The list commands of a slot.
//!
//! Reads and `*X` pushes go by the entry that is live at the given instant;
//! `LPUSH` and `RPUSH` take whatever entry is stored, expired or not, and
//! start an empty list where there is none.

use std::collections::VecDeque;

use vstd::prelude::*;

use super::dict::{live_entry, Entry, EntryView};
use super::{id_after, lemma_slot_writes, Slot};
use crate::utils::clock::now_millis;
use crate::db::data_type::list::{spec_shape, values_view, List};
use crate::db::data_type::{AggregateType, DataType, DataView, SimpleType, SimpleValue};

verus! {

/// The entry `e` with its data replaced by `d`.
pub open spec fn with_data(e: EntryView, d: DataView) -> EntryView {
    EntryView { id: e.id, data: d, expires_at: e.expires_at }
}

/// The entry a push works on: the one stored under `k`, or a new empty
/// list with id `id`.
pub open spec fn list_entry(m: Map<SimpleValue, EntryView>, k: SimpleValue, id: u64) -> EntryView {
    if m.contains_key(k) {
        m[k]
    } else {
        EntryView { id, data: DataView::List(Seq::empty()), expires_at: None }
    }
}

/// The list after pushing `vs` one by one on the left of `l`.
pub open spec fn pushed_left(l: Seq<SimpleValue>, vs: Seq<SimpleValue>) -> Seq<SimpleValue> {
    vs.reverse() + l
}

/// Which end of a list a command works at.
pub enum End {
    Left,
    Right,
}

/// The list after pushing `vs` at `end` of `l`.
pub open spec fn pushed(l: Seq<SimpleValue>, vs: Seq<SimpleValue>, end: End) -> Seq<SimpleValue> {
    match end {
        End::Left => pushed_left(l, vs),
        End::Right => l + vs,
    }
}

/// The values popped from `end` of `l`, `count` at most, in the order they
/// come off.
pub open spec fn popped(l: Seq<SimpleValue>, count: nat, end: End) -> Seq<SimpleValue> {
    let n = if count < l.len() { count as int } else { l.len() as int };
    match end {
        End::Left => l.take(n),
        End::Right => l.skip(l.len() - n).reverse(),
    }
}

/// What stays of `l` once they are popped.
pub open spec fn pop_rest(l: Seq<SimpleValue>, count: nat, end: End) -> Seq<SimpleValue> {
    let n = if count < l.len() { count as int } else { l.len() as int };
    match end {
        End::Left => l.skip(n),
        End::Right => l.take(l.len() - n),
    }
}

/// The values of `l` that the inclusive range `start..=stop` covers.
pub open spec fn spec_lrange(l: Seq<SimpleValue>, start: i64, stop: i64) -> Seq<SimpleValue> {
    let (b, e) = spec_shape(l.len() as int, start as int, stop as int);
    l.subrange(b, e)
}

impl List {
    /// Pushes the values one by one at `end`.
    fn push_all(&mut self, values: &Vec<SimpleType>, end: &End)
        ensures
            final(self)@ == pushed(old(self)@, values_view(values@), *end),
    {
        let ghost l0 = self@;
        let mut i: usize = 0;
        while i < values.len()
            invariant
                0 <= i <= values@.len(),
                self@ == pushed(l0, values_view(values@.take(i as int)), *end),
            decreases values@.len() - i,
        {
            let v = values[i].duplicate();
            let ghost before = self@;
            match end {
                End::Left => self.0.push_front(v),
                End::Right => self.0.push_back(v),
            }
            proof {
                let vs = values_view(values@.take(i as int));
                let vs2 = values_view(values@.take(i + 1));
                assert(vs2 =~= vs.push(values@[i as int]@));
                match *end {
                    End::Left => {
                        assert(vs2.reverse() =~= seq![values@[i as int]@] + vs.reverse());
                        assert(self@ =~= seq![values@[i as int]@] + before);
                    },
                    End::Right => {
                        assert(self@ =~= before.push(values@[i as int]@));
                    },
                }
            }
            i += 1;
        }
        proof {
            assert(values@.take(values@.len() as int) =~= values@);
        }
    }

    /// Pops up to `count` values from `end`.
    fn pop_some(&mut self, count: usize, end: &End) -> (r: Vec<SimpleType>)
        ensures
            values_view(r@) == popped(old(self)@, count as nat, *end),
            final(self)@ == pop_rest(old(self)@, count as nat, *end),
    {
        let ghost l0 = self@;
        let mut res: Vec<SimpleType> = Vec::new();
        let mut i: usize = 0;
        while i < count
            invariant_except_break
                0 <= i <= count,
                i <= l0.len(),
                values_view(res@) == popped(l0, i as nat, *end),
                self@ == pop_rest(l0, i as nat, *end),
            ensures
                values_view(res@) == popped(l0, count as nat, *end),
                self@ == pop_rest(l0, count as nat, *end),
            decreases count - i,
        {
            let ghost before = self@;
            let ghost d0 = self.0@;
            let v = match end {
                End::Left => self.0.pop_front(),
                End::Right => self.0.pop_back(),
            };
            match v {
                Some(v) => {
                    proof {
                        match *end {
                            End::Left => {
                                assert(v@ == before[0]);
                                assert(before[0] == l0[i as int]);
                                assert(l0.take(i + 1) =~= l0.take(i as int).push(v@));
                                assert(self@ =~= before.subrange(1, before.len() as int));
                                assert(self@ =~= l0.skip(i + 1));
                            },
                            End::Right => {
                                assert(v@ == before[before.len() - 1]);
                                assert(before[before.len() - 1] == l0[l0.len() - i - 1]);
                                assert(l0.skip(l0.len() - (i + 1)).reverse() =~= l0.skip(
                                    l0.len() - i,
                                ).reverse().push(v@));
                                assert(self@ =~= before.subrange(0, before.len() - 1));
                                assert(self@ =~= l0.take(l0.len() - (i + 1)));
                            },
                        }
                    }
                    let ghost res0 = res@;
                    let ghost vv = v@;
                    res.push(v);
                    proof {
                        assert(values_view(res@) =~= values_view(res0).push(vv));
                    }
                },
                None => {
                    proof {
                        assert(d0.len() == 0);
                        assert(before.len() == 0);
                        assert(i == l0.len());
                        assert(popped(l0, count as nat, *end) =~= popped(l0, i as nat, *end));
                        assert(pop_rest(l0, count as nat, *end) =~= pop_rest(l0, i as nat, *end));
                    }
                    break;
                },
            }
            i += 1;
        }
        res
    }
}

} // verus!

verus! {

/// What a list command reports when the key holds something else.
pub open spec fn not_a_list() -> Seq<char> {
    "the value stored at key is not a list."@
}

/// A count or an error, as mathematical values.
pub open spec fn res_len(r: Result<usize, String>) -> Result<int, Seq<char>> {
    match r {
        Ok(n) => Ok(n as int),
        Err(s) => Err(s@),
    }
}

/// Popped values or an error, as mathematical values.
pub open spec fn res_popped(r: Result<Option<Vec<SimpleType>>, String>) -> Result<
    Option<Seq<SimpleValue>>,
    Seq<char>,
> {
    match r {
        Ok(Some(v)) => Ok(Some(values_view(v@))),
        Ok(None) => Ok(None),
        Err(s) => Err(s@),
    }
}

/// Values or an error, as mathematical values.
pub open spec fn res_values(r: Result<Vec<SimpleType>, String>) -> Result<Seq<SimpleValue>, Seq<char>> {
    match r {
        Ok(v) => Ok(values_view(v@)),
        Err(s) => Err(s@),
    }
}

/// `LPUSHX` / `RPUSHX` at `now`: the answer and the entries after.
pub open spec fn spec_push_live(
    m: Map<SimpleValue, EntryView>,
    k: SimpleValue,
    vs: Seq<SimpleValue>,
    end: End,
    now: i64,
) -> (Result<int, Seq<char>>, Map<SimpleValue, EntryView>) {
    match live_entry(m, k, now) {
        None => (Ok(0), m),
        Some(e) => match e.data {
            DataView::List(l) => {
                let nl = pushed(l, vs, end);
                (Ok(nl.len() as int), m.insert(k, with_data(e, DataView::List(nl))))
            },
            _ => (Err(not_a_list()), m),
        },
    }
}

/// `LPUSH` / `RPUSH`, where a new list gets id `id`: the answer and the
/// entries after.
pub open spec fn spec_push_any(
    m: Map<SimpleValue, EntryView>,
    k: SimpleValue,
    vs: Seq<SimpleValue>,
    end: End,
    id: u64,
) -> (Result<int, Seq<char>>, Map<SimpleValue, EntryView>) {
    let e = list_entry(m, k, id);
    match e.data {
        DataView::List(l) => {
            let nl = pushed(l, vs, end);
            (Ok(nl.len() as int), m.insert(k, with_data(e, DataView::List(nl))))
        },
        _ => (Err(not_a_list()), m),
    }
}

/// `LPOP` / `RPOP` at `now`: the answer and the entries after.
pub open spec fn spec_pop_live(
    m: Map<SimpleValue, EntryView>,
    k: SimpleValue,
    count: nat,
    end: End,
    now: i64,
) -> (Result<Option<Seq<SimpleValue>>, Seq<char>>, Map<SimpleValue, EntryView>) {
    match live_entry(m, k, now) {
        None => (Ok(None), m),
        Some(e) => match e.data {
            DataView::List(l) => (
                Ok(Some(popped(l, count, end))),
                m.insert(k, with_data(e, DataView::List(pop_rest(l, count, end)))),
            ),
            _ => (Err(not_a_list()), m),
        },
    }
}

/// `LRANGE` at `now`.
pub open spec fn spec_lrange_at(m: Map<SimpleValue, EntryView>, k: SimpleValue, start: i64, stop: i64, now: i64) -> Result<
    Seq<SimpleValue>,
    Seq<char>,
> {
    match live_entry(m, k, now) {
        None => Ok(Seq::empty()),
        Some(e) => match e.data {
            DataView::List(l) => Ok(spec_lrange(l, start, stop)),
            _ => Err(not_a_list()),
        },
    }
}

/// `LLEN` at `now`.
pub open spec fn spec_llen_at(m: Map<SimpleValue, EntryView>, k: SimpleValue, now: i64) -> Result<int, Seq<char>> {
    match live_entry(m, k, now) {
        None => Ok(0),
        Some(e) => match e.data {
            DataView::List(l) => Ok(l.len() as int),
            _ => Err(not_a_list()),
        },
    }
}

impl Slot {
    /// Pushes `values` at `end` of the list live under `key` at `now`, if
    /// there is one, and answers its new length; without a live entry the
    /// answer is 0 and nothing changes.
    fn push_live(&mut self, key: &SimpleType, values: Vec<SimpleType>, end: End, now: i64) -> (r:
        Result<usize, String>)
        ensures
            final(self).upcoming_id() == old(self).upcoming_id(),
            final(self).schedule() == old(self).schedule(),
            old(self).consistent() ==> final(self).consistent(),
            (res_len(r), final(self).entries()) == spec_push_live(
                old(self).entries(),
                key@,
                values_view(values@),
                end,
                now,
            ),
    {
        proof {
            if self.consistent() {
                lemma_slot_writes(self.entries(), self.schedule(), self.upcoming_id(), key@);
            }
        }
        if !self.dict.exists_at(key, now) {
            return Ok(0);
        }
        let ghost m0 = self.entries();
        let e = match self.take_entry(key) {
            Some(e) => e,
            None => {
                return Ok(0);
            },
        };
        match e.data {
            DataType::AggregateType(AggregateType::List(mut l)) => {
                l.push_all(&values, &end);
                let n = l.len();
                self.put_entry(
                    key,
                    Entry {
                        id: e.id,
                        data: DataType::AggregateType(AggregateType::List(l)),
                        expires_at: e.expires_at,
                    },
                );
                Ok(n)
            },
            data => {
                self.put_entry(key, Entry { id: e.id, data, expires_at: e.expires_at });
                proof {
                    assert(self.entries() =~= m0);
                }
                Err("the value stored at key is not a list.".to_string())
            },
        }
    }

    /// Pushes `values` at `end` of the list stored under `key`, expired or
    /// not, starting an empty list where nothing is stored, and answers its
    /// new length.
    fn push_any(&mut self, key: SimpleType, values: Vec<SimpleType>, end: End) -> (r: Result<
        usize,
        String,
    >)
        ensures
            final(self).upcoming_id() == id_after(old(self).entries(), key@, old(self).upcoming_id()),
            final(self).schedule() == old(self).schedule(),
            old(self).consistent() && old(self).upcoming_id() < u64::MAX ==> final(self).consistent(),
            (res_len(r), final(self).entries()) == spec_push_any(
                old(self).entries(),
                key@,
                values_view(values@),
                end,
                old(self).upcoming_id(),
            ),
    {
        proof {
            if self.consistent() {
                lemma_slot_writes(self.entries(), self.schedule(), self.upcoming_id(), key@);
            }
        }
        let ghost m0 = self.entries();
        let e = match self.take_entry(&key) {
            Some(e) => e,
            None => Entry {
                id: self.next_id(),
                data: DataType::AggregateType(AggregateType::List(List::new())),
                expires_at: None,
            },
        };
        match e.data {
            DataType::AggregateType(AggregateType::List(mut l)) => {
                l.push_all(&values, &end);
                let n = l.len();
                self.put_entry(
                    &key,
                    Entry {
                        id: e.id,
                        data: DataType::AggregateType(AggregateType::List(l)),
                        expires_at: e.expires_at,
                    },
                );
                Ok(n)
            },
            data => {
                self.put_entry(&key, Entry { id: e.id, data, expires_at: e.expires_at });
                proof {
                    assert(self.entries() =~= m0);
                }
                Err("the value stored at key is not a list.".to_string())
            },
        }
    }

    /// Pops up to `count` values from `end` of the list live under `key` at
    /// `now`, in the order they come off; `None` without a live entry.
    fn pop_live(&mut self, key: &SimpleType, count: usize, end: End, now: i64) -> (r: Result<
        Option<Vec<SimpleType>>,
        String,
    >)
        ensures
            final(self).upcoming_id() == old(self).upcoming_id(),
            final(self).schedule() == old(self).schedule(),
            old(self).consistent() ==> final(self).consistent(),
            (res_popped(r), final(self).entries()) == spec_pop_live(
                old(self).entries(),
                key@,
                count as nat,
                end,
                now,
            ),
    {
        proof {
            if self.consistent() {
                lemma_slot_writes(self.entries(), self.schedule(), self.upcoming_id(), key@);
            }
        }
        if !self.dict.exists_at(key, now) {
            return Ok(None);
        }
        let ghost m0 = self.entries();
        let e = match self.take_entry(key) {
            Some(e) => e,
            None => {
                return Ok(None);
            },
        };
        match e.data {
            DataType::AggregateType(AggregateType::List(mut l)) => {
                let vs = l.pop_some(count, &end);
                self.put_entry(
                    key,
                    Entry {
                        id: e.id,
                        data: DataType::AggregateType(AggregateType::List(l)),
                        expires_at: e.expires_at,
                    },
                );
                Ok(Some(vs))
            },
            data => {
                self.put_entry(key, Entry { id: e.id, data, expires_at: e.expires_at });
                proof {
                    assert(self.entries() =~= m0);
                }
                Err("the value stored at key is not a list.".to_string())
            },
        }
    }

    /// `LPUSHX` at `now`: pushes `values` one by one on the left of the live
    /// list under `key` and answers its length; 0 when there is none.
    pub fn lpushx_at(&mut self, key: &SimpleType, values: Vec<SimpleType>, now: i64) -> (r: Result<
        usize,
        String,
    >)
        ensures
            final(self).upcoming_id() == old(self).upcoming_id(),
            final(self).schedule() == old(self).schedule(),
            old(self).consistent() ==> final(self).consistent(),
            (res_len(r), final(self).entries()) == spec_push_live(
                old(self).entries(),
                key@,
                values_view(values@),
                End::Left,
                now,
            ),
    {
        self.push_live(key, values, End::Left, now)
    }

    /// `RPUSHX` at `now`: pushes `values` one by one on the right of the live
    /// list under `key` and answers its length; 0 when there is none.
    pub fn rpushx_at(&mut self, key: &SimpleType, values: Vec<SimpleType>, now: i64) -> (r: Result<
        usize,
        String,
    >)
        ensures
            final(self).upcoming_id() == old(self).upcoming_id(),
            final(self).schedule() == old(self).schedule(),
            old(self).consistent() ==> final(self).consistent(),
            (res_len(r), final(self).entries()) == spec_push_live(
                old(self).entries(),
                key@,
                values_view(values@),
                End::Right,
                now,
            ),
    {
        self.push_live(key, values, End::Right, now)
    }

    /// `LPUSHX`, now.
    pub fn lpushx(&mut self, key: &SimpleType, values: Vec<SimpleType>) -> (r: Result<usize, String>)
        ensures
            final(self).upcoming_id() == old(self).upcoming_id(),
            final(self).schedule() == old(self).schedule(),
            old(self).consistent() ==> final(self).consistent(),
            exists|now: i64|
                (res_len(r), final(self).entries()) == #[trigger] spec_push_live(
                    old(self).entries(),
                    key@,
                    values_view(values@),
                    End::Left,
                    now,
                ),
    {
        let now = now_millis();
        self.push_live(key, values, End::Left, now)
    }

    /// `RPUSHX`, now.
    pub fn rpushx(&mut self, key: &SimpleType, values: Vec<SimpleType>) -> (r: Result<usize, String>)
        ensures
            final(self).upcoming_id() == old(self).upcoming_id(),
            final(self).schedule() == old(self).schedule(),
            old(self).consistent() ==> final(self).consistent(),
            exists|now: i64|
                (res_len(r), final(self).entries()) == #[trigger] spec_push_live(
                    old(self).entries(),
                    key@,
                    values_view(values@),
                    End::Right,
                    now,
                ),
    {
        let now = now_millis();
        self.push_live(key, values, End::Right, now)
    }

    /// `LPUSH`: pushes `values` one by one on the left of the list under
    /// `key`, creating it when nothing is stored there, and answers its
    /// length.
    pub fn lpush(&mut self, key: SimpleType, values: Vec<SimpleType>) -> (r: Result<usize, String>)
        ensures
            final(self).upcoming_id() == id_after(old(self).entries(), key@, old(self).upcoming_id()),
            final(self).schedule() == old(self).schedule(),
            old(self).consistent() && old(self).upcoming_id() < u64::MAX ==> final(self).consistent(),
            (res_len(r), final(self).entries()) == spec_push_any(
                old(self).entries(),
                key@,
                values_view(values@),
                End::Left,
                old(self).upcoming_id(),
            ),
    {
        self.push_any(key, values, End::Left)
    }

    /// `RPUSH`: pushes `values` one by one on the right of the list under
    /// `key`, creating it when nothing is stored there, and answers its
    /// length.
    pub fn rpush(&mut self, key: SimpleType, values: Vec<SimpleType>) -> (r: Result<usize, String>)
        ensures
            final(self).upcoming_id() == id_after(old(self).entries(), key@, old(self).upcoming_id()),
            final(self).schedule() == old(self).schedule(),
            old(self).consistent() && old(self).upcoming_id() < u64::MAX ==> final(self).consistent(),
            (res_len(r), final(self).entries()) == spec_push_any(
                old(self).entries(),
                key@,
                values_view(values@),
                End::Right,
                old(self).upcoming_id(),
            ),
    {
        self.push_any(key, values, End::Right)
    }

    /// `LPOP` at `now`: up to `count` values off the left of the live list.
    pub fn lpop_at(&mut self, key: &SimpleType, count: usize, now: i64) -> (r: Result<
        Option<Vec<SimpleType>>,
        String,
    >)
        ensures
            final(self).upcoming_id() == old(self).upcoming_id(),
            final(self).schedule() == old(self).schedule(),
            old(self).consistent() ==> final(self).consistent(),
            (res_popped(r), final(self).entries()) == spec_pop_live(
                old(self).entries(),
                key@,
                count as nat,
                End::Left,
                now,
            ),
    {
        self.pop_live(key, count, End::Left, now)
    }

    /// `RPOP` at `now`: up to `count` values off the right of the live list,
    /// the rightmost first.
    pub fn rpop_at(&mut self, key: &SimpleType, count: usize, now: i64) -> (r: Result<
        Option<Vec<SimpleType>>,
        String,
    >)
        ensures
            final(self).upcoming_id() == old(self).upcoming_id(),
            final(self).schedule() == old(self).schedule(),
            old(self).consistent() ==> final(self).consistent(),
            (res_popped(r), final(self).entries()) == spec_pop_live(
                old(self).entries(),
                key@,
                count as nat,
                End::Right,
                now,
            ),
    {
        self.pop_live(key, count, End::Right, now)
    }

    /// `LPOP`, now.
    pub fn lpop(&mut self, key: &SimpleType, count: usize) -> (r: Result<
        Option<Vec<SimpleType>>,
        String,
    >)
        ensures
            final(self).upcoming_id() == old(self).upcoming_id(),
            final(self).schedule() == old(self).schedule(),
            old(self).consistent() ==> final(self).consistent(),
            exists|now: i64|
                (res_popped(r), final(self).entries()) == #[trigger] spec_pop_live(
                    old(self).entries(),
                    key@,
                    count as nat,
                    End::Left,
                    now,
                ),
    {
        let now = now_millis();
        self.pop_live(key, count, End::Left, now)
    }

    /// `RPOP`, now.
    pub fn rpop(&mut self, key: &SimpleType, count: usize) -> (r: Result<
        Option<Vec<SimpleType>>,
        String,
    >)
        ensures
            final(self).upcoming_id() == old(self).upcoming_id(),
            final(self).schedule() == old(self).schedule(),
            old(self).consistent() ==> final(self).consistent(),
            exists|now: i64|
                (res_popped(r), final(self).entries()) == #[trigger] spec_pop_live(
                    old(self).entries(),
                    key@,
                    count as nat,
                    End::Right,
                    now,
                ),
    {
        let now = now_millis();
        self.pop_live(key, count, End::Right, now)
    }

    /// `LRANGE` at `now`: the values of the live list that the inclusive
    /// range `start..=stop` covers.
    pub fn lrange_at(&self, key: &SimpleType, start: i64, stop: i64, now: i64) -> (r: Result<
        Vec<SimpleType>,
        String,
    >)
        ensures
            res_values(r) == spec_lrange_at(self.entries(), key@, start, stop, now),
    {
        match self.dict.get_at(key, now) {
            Some(e) => match &e.data {
                DataType::AggregateType(AggregateType::List(l)) => {
                    let (b, e) = l.shape(start, stop);
                    Ok(l.range_values(b, e))
                },
                _ => Err("the value stored at key is not a list.".to_string()),
            },
            None => {
                let v: Vec<SimpleType> = Vec::new();
                proof {
                    assert(values_view(v@) =~= Seq::<SimpleValue>::empty());
                }
                Ok(v)
            },
        }
    }

    /// `LRANGE`, now.
    pub fn lrange(&self, key: &SimpleType, start: i64, stop: i64) -> (r: Result<
        Vec<SimpleType>,
        String,
    >)
        ensures
            exists|now: i64| res_values(r) == #[trigger] spec_lrange_at(self.entries(), key@, start, stop, now),
    {
        let now = now_millis();
        self.lrange_at(key, start, stop, now)
    }

    /// `LLEN` at `now`: the length of the live list, 0 when there is none.
    pub fn llen_at(&self, key: &SimpleType, now: i64) -> (r: Result<usize, String>)
        ensures
            res_len(r) == spec_llen_at(self.entries(), key@, now),
    {
        match self.dict.get_at(key, now) {
            Some(e) => match &e.data {
                DataType::AggregateType(AggregateType::List(l)) => Ok(l.len()),
                _ => Err("the value stored at key is not a list.".to_string()),
            },
            None => Ok(0),
        }
    }

    /// `LLEN`, now.
    pub fn llen(&self, key: &SimpleType) -> (r: Result<usize, String>)
        ensures
            exists|now: i64| res_len(r) == #[trigger] spec_llen_at(self.entries(), key@, now),
    {
        let now = now_millis();
        self.llen_at(key, now)
    }
}

} // verus!
