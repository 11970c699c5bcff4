//! A slot: the entries of a share of the key space, with the expirations that
//! remove them once their time has come.

pub mod dict;
pub mod expirations;
pub mod hashes;
pub mod lists;
pub mod sets;
pub mod sorted_sets;

use vstd::prelude::*;

use self::dict::{live_entry, spec_expires_at, Dict, Entry, EntryView};
use self::expirations::{Expiration, ExpirationEntry, ExpirationKey};
use crate::db::data_type::{DataType, DataView, SimpleType, SimpleValue};
use crate::parse::to_bytes::signed_decimal;
use crate::slot::data_type::{ascii_text, lemma_decimal_text_reads_as_number};
use crate::utils::clock::now_millis;
use crate::utils::numeric::{parse_i64, spec_parse_i64};
use crate::utils::options::NxXx;

verus! {

/// The single value stored under `k` and live at `now`: `Ok(None)` when there
/// is none, `Err(())` when the value stored there is not a single value.
pub open spec fn simple_at(m: Map<SimpleValue, EntryView>, k: SimpleValue, now: i64) -> Result<
    Option<SimpleValue>,
    (),
> {
    match live_entry(m, k, now) {
        None => Ok(None),
        Some(e) => match e.data {
            DataView::Simple(v) => Ok(Some(v)),
            _ => Err(()),
        },
    }
}

/// An optional value, as a mathematical value.
pub open spec fn opt_view(o: Option<SimpleType>) -> Option<SimpleValue> {
    match o {
        Some(s) => Some(s@),
        None => None,
    }
}

/// The single value of the entry stored under `k`, live or not.
pub open spec fn stored_simple(m: Map<SimpleValue, EntryView>, k: SimpleValue) -> Option<SimpleValue> {
    if m.contains_key(k) {
        match m[k].data {
            DataView::Simple(v) => Some(v),
            _ => None,
        }
    } else {
        None
    }
}

/// The schedule after an expiration at `t` for the entry `id`, if there is
/// an instant.
pub open spec fn scheduled(
    q: Map<ExpirationKey, SimpleValue>,
    t: Option<i64>,
    id: u64,
    k: SimpleValue,
) -> Map<ExpirationKey, SimpleValue> {
    match t {
        Some(t) => q.insert(ExpirationKey { expires_at: t, id }, k),
        None => q,
    }
}

/// Whether a write with this condition goes ahead, given the live value.
pub open spec fn condition_holds(nx_xx: NxXx, live: Option<SimpleValue>) -> bool {
    match nx_xx {
        NxXx::Nx => live is None,
        NxXx::Xx => live is Some,
        NxXx::NoCondition => true,
    }
}

/// The schedule after `EXPIRE` makes the entry live under `k` at `now`
/// expire at `new_time`: an expiration scheduled at the entry's expiry
/// moves to `new_time`; an entry with no expiry gets one scheduled.
pub open spec fn expire_schedule(
    m: Map<SimpleValue, EntryView>,
    q: Map<ExpirationKey, SimpleValue>,
    k: SimpleValue,
    new_time: i64,
    now: i64,
) -> Map<ExpirationKey, SimpleValue> {
    match live_entry(m, k, now) {
        None => q,
        Some(e) => match e.expires_at {
            Some(pre) => {
                let pk = ExpirationKey { expires_at: pre, id: e.id };
                if q.contains_key(pk) {
                    q.remove(pk).insert(ExpirationKey { expires_at: new_time, id: e.id }, q[pk])
                } else {
                    q
                }
            },
            None => q.insert(ExpirationKey { expires_at: new_time, id: e.id }, k),
        },
    }
}

/// The entries after `EXPIRE` makes the entry live under `k` at `now`
/// expire at `new_time`.
pub open spec fn expire_entries(m: Map<SimpleValue, EntryView>, k: SimpleValue, new_time: i64, now: i64) -> Map<
    SimpleValue,
    EntryView,
> {
    match live_entry(m, k, now) {
        None => m,
        Some(e) => m.insert(k, EntryView { id: e.id, data: e.data, expires_at: Some(new_time) }),
    }
}

/// The entry `incr_by` works on: the one stored under `k`, or a fresh zero
/// with id `id`.
pub open spec fn counter_entry(m: Map<SimpleValue, EntryView>, k: SimpleValue, id: u64) -> EntryView {
    if m.contains_key(k) {
        m[k]
    } else {
        EntryView { id, data: DataView::Simple(SimpleValue::Integer(0)), expires_at: None }
    }
}

/// The number `incr_by` adds to: the integer stored, or the text stored read
/// as an integer; `None` when there is no such number.
pub open spec fn counter_value(e: EntryView) -> Option<i64> {
    match e.data {
        DataView::Simple(SimpleValue::Integer(i)) => Some(i),
        DataView::Simple(SimpleValue::SimpleString(s)) => spec_parse_i64(s),
        _ => None,
    }
}

/// A counter holding text that spells an integer in decimal, with a `-` in
/// front when it is negative, counts from that integer; one holding an
/// integer counts from it.
pub proof fn lemma_counter_reads_decimal(id: u64, d: i64, ea: Option<i64>)
    ensures
        counter_value(
            EntryView { id, data: DataView::Simple(SimpleValue::SimpleString(ascii_text(signed_decimal(d as int)))), expires_at: ea },
        ) == Some(d),
        counter_value(EntryView { id, data: DataView::Simple(SimpleValue::Integer(d)), expires_at: ea }) == Some(d),
{
    lemma_decimal_text_reads_as_number(d);
}

/// The id the next new entry gets after a write under `k` that starts a new
/// entry where nothing is stored: `id` moves on by one exactly then.
pub open spec fn id_after(m: Map<SimpleValue, EntryView>, k: SimpleValue, id: u64) -> u64 {
    if m.contains_key(k) {
        id
    } else {
        id.wrapping_add(1)
    }
}

/// Whether adding `value` to the counter under `k` stays within `i64`.
pub open spec fn incr_fits(m: Map<SimpleValue, EntryView>, k: SimpleValue, value: i64) -> bool {
    m.contains_key(k) ==> (counter_value(m[k]) matches Some(v) ==> i64::MIN <= v + value <= i64::MAX)
}

/// Whether the schedule agrees with the entries: every entry with an expiry
/// has its expiration under its id, entries have ids of their own, all
/// below `next`. Expirations of entries since replaced may stay: the purge
/// checks the id before it removes a key.
pub open spec fn slot_agrees(m: Map<SimpleValue, EntryView>, q: Map<ExpirationKey, SimpleValue>, next: u64) -> bool {
    &&& forall|k: SimpleValue| #[trigger] m.contains_key(k) && m[k].expires_at is Some ==> q.contains_key(
        ExpirationKey { expires_at: m[k].expires_at->0, id: m[k].id },
    ) && q[ExpirationKey { expires_at: m[k].expires_at->0, id: m[k].id }] == k
    &&& forall|k: SimpleValue| #[trigger] m.contains_key(k) ==> m[k].id < next
    &&& forall|k1: SimpleValue, k2: SimpleValue| #[trigger] m.contains_key(k1) && #[trigger] m.contains_key(k2) && k1 != k2
        ==> m[k1].id != m[k2].id
}

/// Whether `m2` differs from `m` at most under `k`, where the entry keeps
/// its id and expiry, or, where nothing was stored, is new with id `next`
/// and no expiry.
pub open spec fn one_key_write(m: Map<SimpleValue, EntryView>, m2: Map<SimpleValue, EntryView>, k: SimpleValue, next: u64) -> bool {
    &&& forall|k2: SimpleValue| k2 != k ==> (#[trigger] m2.contains_key(k2) == m.contains_key(k2) && (m.contains_key(k2) ==> m2[k2] == m[k2]))
    &&& m2.contains_key(k) ==> (if m.contains_key(k) {
        m2[k].id == m[k].id && m2[k].expires_at == m[k].expires_at
    } else {
        m2[k].id == next && m2[k].expires_at is None
    })
}

/// A write under one key that keeps the entry's id and expiry, or starts a
/// new entry with the next id and no expiry, keeps the schedule in
/// agreement.
proof fn lemma_slot_writes(m: Map<SimpleValue, EntryView>, q: Map<ExpirationKey, SimpleValue>, next: u64, k: SimpleValue)
    requires
        slot_agrees(m, q, next),
    ensures
        forall|m2: Map<SimpleValue, EntryView>, n2: u64|
            one_key_write(m, m2, k, next) && (m2.contains_key(k) && !m.contains_key(k) ==> next < u64::MAX) && n2 == (if m2.contains_key(k) && !m.contains_key(k) {
                (next + 1) as u64
            } else {
                next
            }) ==> #[trigger] slot_agrees(m2, q, n2),
{
    assert forall|m2: Map<SimpleValue, EntryView>, n2: u64|
        one_key_write(m, m2, k, next) && (m2.contains_key(k) && !m.contains_key(k) ==> next < u64::MAX) && n2 == (if m2.contains_key(k) && !m.contains_key(k) {
            (next + 1) as u64
        } else {
            next
        }) implies #[trigger] slot_agrees(m2, q, n2) by {
        assert forall|k1: SimpleValue| #[trigger] m2.contains_key(k1) && m2[k1].expires_at is Some implies q.contains_key(
            ExpirationKey { expires_at: m2[k1].expires_at->0, id: m2[k1].id },
        ) && q[ExpirationKey { expires_at: m2[k1].expires_at->0, id: m2[k1].id }] == k1 by {
            if k1 != k {
                assert(m2.contains_key(k1) == m.contains_key(k1));
            }
        }
        assert forall|k1: SimpleValue| #[trigger] m2.contains_key(k1) implies m2[k1].id < n2 by {
            if k1 != k {
                assert(m2.contains_key(k1) == m.contains_key(k1));
            }
        }
        assert forall|k1: SimpleValue, k2: SimpleValue| #[trigger] m2.contains_key(k1) && #[trigger] m2.contains_key(k2) && k1 != k2
            implies m2[k1].id != m2[k2].id by {
            if k1 != k {
                assert(m2.contains_key(k1) == m.contains_key(k1));
            }
            if k2 != k {
                assert(m2.contains_key(k2) == m.contains_key(k2));
            }
        }
    }
}

/// Storing a new entry under `k` with the next id, expiring at `ea` if
/// given, with its expiration scheduled, keeps the schedule in agreement.
proof fn lemma_slot_fresh(
    m: Map<SimpleValue, EntryView>,
    q: Map<ExpirationKey, SimpleValue>,
    next: u64,
    k: SimpleValue,
    d: DataView,
    ea: Option<i64>,
)
    requires
        slot_agrees(m, q, next),
        next < u64::MAX,
    ensures
        slot_agrees(m.insert(k, EntryView { id: next, data: d, expires_at: ea }), scheduled(q, ea, next, k), (next + 1) as u64),
{
    let m2 = m.insert(k, EntryView { id: next, data: d, expires_at: ea });
    let q2 = scheduled(q, ea, next, k);
    assert forall|k1: SimpleValue| #[trigger] m2.contains_key(k1) && m2[k1].expires_at is Some implies q2.contains_key(
        ExpirationKey { expires_at: m2[k1].expires_at->0, id: m2[k1].id },
    ) && q2[ExpirationKey { expires_at: m2[k1].expires_at->0, id: m2[k1].id }] == k1 by {
        if k1 != k {
            assert(m.contains_key(k1));
            assert(m[k1].id < next);
        }
    }
    assert forall|k1: SimpleValue, k2: SimpleValue| #[trigger] m2.contains_key(k1) && #[trigger] m2.contains_key(k2) && k1 != k2
        implies m2[k1].id != m2[k2].id by {
        if k1 != k && k2 != k {
            assert(m.contains_key(k1) && m.contains_key(k2));
        } else if k1 != k {
            assert(m[k1].id < next);
        } else {
            assert(m[k2].id < next);
        }
    }
}

/// Making the entry live under `k` at `now` expire at `t` keeps the
/// schedule in agreement.
proof fn lemma_slot_expire(m: Map<SimpleValue, EntryView>, q: Map<ExpirationKey, SimpleValue>, next: u64, k: SimpleValue, t: i64, now: i64)
    requires
        slot_agrees(m, q, next),
    ensures
        slot_agrees(expire_entries(m, k, t, now), expire_schedule(m, q, k, t, now), next),
{
    let m2 = expire_entries(m, k, t, now);
    let q2 = expire_schedule(m, q, k, t, now);
    if let Some(e) = live_entry(m, k, now) {
        assert forall|k1: SimpleValue| #[trigger] m2.contains_key(k1) && m2[k1].expires_at is Some implies q2.contains_key(
            ExpirationKey { expires_at: m2[k1].expires_at->0, id: m2[k1].id },
        ) && q2[ExpirationKey { expires_at: m2[k1].expires_at->0, id: m2[k1].id }] == k1 by {
            if k1 != k {
                assert(m.contains_key(k1) && m.contains_key(k));
                assert(m[k1].id != m[k].id);
                if let Some(pre) = e.expires_at {
                    assert(q.contains_key(ExpirationKey { expires_at: pre, id: e.id }));
                }
            } else if let Some(pre) = e.expires_at {
                assert(q.contains_key(ExpirationKey { expires_at: pre, id: e.id }));
            }
        }
        assert forall|k1: SimpleValue, k2: SimpleValue| #[trigger] m2.contains_key(k1) && #[trigger] m2.contains_key(k2) && k1 != k2
            implies m2[k1].id != m2[k2].id by {
            assert(m.contains_key(k1) && m.contains_key(k2));
        }
        assert forall|k1: SimpleValue| #[trigger] m2.contains_key(k1) implies m2[k1].id < next by {
            assert(m.contains_key(k1));
        }
    }
}

/// Running the due expirations keeps the schedule in agreement: an entry
/// that stays has its expiration still to come.
proof fn lemma_slot_purge(m: Map<SimpleValue, EntryView>, q: Map<ExpirationKey, SimpleValue>, next: u64, now: i64)
    requires
        slot_agrees(m, q, next),
    ensures
        slot_agrees(expirations::spec_purge(m, q, now), expirations::pending_after(q, now), next),
{
    let m2 = expirations::spec_purge(m, q, now);
    let q2 = expirations::pending_after(q, now);
    assert forall|k1: SimpleValue| #[trigger] m2.contains_key(k1) && m2[k1].expires_at is Some implies q2.contains_key(
        ExpirationKey { expires_at: m2[k1].expires_at->0, id: m2[k1].id },
    ) && q2[ExpirationKey { expires_at: m2[k1].expires_at->0, id: m2[k1].id }] == k1 by {
        let ek = ExpirationKey { expires_at: m[k1].expires_at->0, id: m[k1].id };
        assert(q.contains_key(ek));
        if ek.expires_at <= now {
            assert(expirations::purged_by(m, q, k1, now));
        }
        assert(q.dom().filter(|e: ExpirationKey| e.expires_at > now).contains(ek));
    }
}

/// The key-value data of a slot and the schedule of its expirations.
pub struct Slot {
    /// The entries, by key.
    pub dict: Dict,
    /// When which key is due to expire.
    expirations: Expiration,
    /// The id the next new entry gets.
    next_id: u64,
}

impl Slot {
    /// The entries of this slot, by key.
    pub closed spec fn entries(self) -> Map<SimpleValue, EntryView> {
        self.dict@
    }

    /// The expirations scheduled in this slot.
    pub closed spec fn schedule(self) -> Map<ExpirationKey, SimpleValue> {
        self.expirations@
    }

    /// The id the next new entry gets.
    pub closed spec fn upcoming_id(self) -> u64 {
        self.next_id
    }

    /// Whether the schedule agrees with the entries; see `slot_agrees`.
    pub open spec fn consistent(self) -> bool {
        slot_agrees(self.entries(), self.schedule(), self.upcoming_id())
    }

    /// An empty slot.
    pub fn new() -> (r: Slot)
        ensures
            r.entries() == Map::<SimpleValue, EntryView>::empty(),
            r.schedule() == Map::<ExpirationKey, SimpleValue>::empty(),
            r.upcoming_id() == 0,
            r.consistent(),
    {
        Slot { dict: Dict::new(), expirations: Expiration::new(), next_id: 0 }
    }

    /// Hands out the next id and moves on to the one after; ids wrap around
    /// past `u64::MAX`.
    pub fn next_id(&mut self) -> (r: u64)
        ensures
            r == old(self).upcoming_id(),
            final(self).upcoming_id() == old(self).upcoming_id().wrapping_add(1),
            final(self).entries() == old(self).entries(),
            final(self).schedule() == old(self).schedule(),
            old(self).consistent() && old(self).upcoming_id() < u64::MAX ==> final(self).consistent(),
    {
        let id = self.next_id;
        self.next_id = self.next_id.wrapping_add(1);
        id
    }

    /// The single value stored under `key` and live at `now`; an error when
    /// the key holds something else.
    pub fn get_simple_at(&self, key: &SimpleType, now: i64) -> (r: Result<Option<SimpleType>, String>)
        ensures
            match r {
                Ok(o) => simple_at(self.entries(), key@, now) == Ok::<Option<SimpleValue>, ()>(opt_view(o)),
                Err(e) => simple_at(self.entries(), key@, now) is Err && e@ == "类型错误"@,
            },
    {
        match self.dict.get_at(key, now) {
            Some(e) => match e.data.as_simple() {
                Some(s) => Ok(Some(s.duplicate())),
                None => Err("类型错误".to_string()),
            },
            None => Ok(None),
        }
    }

    /// The single value stored under `key`, now.
    pub fn get_simple(&self, key: &SimpleType) -> (r: Result<Option<SimpleType>, String>)
        ensures
            exists|now: i64|
                #![trigger simple_at(self.entries(), key@, now)]
                match r {
                    Ok(o) => simple_at(self.entries(), key@, now) == Ok::<Option<SimpleValue>, ()>(opt_view(o)),
                    Err(e) => simple_at(self.entries(), key@, now) is Err && e@ == "类型错误"@,
                },
    {
        let now = now_millis();
        self.get_simple_at(key, now)
    }

    /// Whether a live entry is stored under `key`, now.
    pub fn exists_key(&self, key: &SimpleType) -> (r: bool)
        ensures
            exists|now: i64| r == live_entry(self.entries(), key@, now).is_some(),
    {
        let now = now_millis();
        let r = self.dict.exists_at(key, now);
        assert(r == live_entry(self.entries(), key@, now).is_some());
        r
    }

    /// The instant at which the entry under `key` expires, when that lies in
    /// the future.
    pub fn get_expires_at(&self, key: &SimpleType) -> (r: Option<i64>)
        ensures
            exists|now: i64| r == spec_expires_at(self.entries(), key@, now),
    {
        let now = now_millis();
        let r = self.dict.get_expires_at_at(key, now);
        assert(r == spec_expires_at(self.entries(), key@, now));
        r
    }

    /// Makes the live entry under `key` expire at `new_time`, as seen at
    /// `now`: the entry keeps its id and data and gets the new expiry; an
    /// expiration already scheduled for it is moved, else one is scheduled.
    /// Answers whether there was a live entry.
    pub fn set_expires_at_at(&mut self, key: &SimpleType, new_time: i64, now: i64) -> (r: bool)
        ensures
            final(self).upcoming_id() == old(self).upcoming_id(),
            final(self).entries() == expire_entries(old(self).entries(), key@, new_time, now),
            r == live_entry(old(self).entries(), key@, now).is_some(),
            final(self).schedule() == expire_schedule(old(self).entries(), old(self).schedule(), key@, new_time, now),
            old(self).consistent() ==> final(self).consistent(),
    {
        proof {
            if self.consistent() {
                lemma_slot_expire(self.entries(), self.schedule(), self.upcoming_id(), key@, new_time, now);
            }
        }
        let (id, pre_time) = match self.dict.get_at(key, now) {
            Some(e) => (e.id, e.expires_at),
            None => {
                return false;
            },
        };
        match pre_time {
            Some(pre) => {
                let _ = self.expirations.update(id, pre, new_time);
            },
            None => {
                let _ = self.expirations.schedule(
                    ExpirationEntry { id, key: key.duplicate(), expires_at: new_time },
                );
            },
        }
        match self.take_entry(key) {
            Some(e) => {
                self.put_entry(key, Entry { id: e.id, data: e.data, expires_at: Some(new_time) });
            },
            None => {},
        }
        true
    }

    /// Makes the live entry under `key` expire at `new_time`; see
    /// `set_expires_at_at`, here as seen now.
    pub fn set_expires_at(&mut self, key: &SimpleType, new_time: i64) -> (r: bool)
        ensures
            final(self).upcoming_id() == old(self).upcoming_id(),
            exists|now: i64|
                r == live_entry(old(self).entries(), key@, now).is_some() && final(self).schedule()
                    == #[trigger] expire_schedule(old(self).entries(), old(self).schedule(), key@, new_time, now)
                    && final(self).entries() == expire_entries(old(self).entries(), key@, new_time, now),
            old(self).consistent() ==> final(self).consistent(),
    {
        let now = now_millis();
        let r = self.set_expires_at_at(key, new_time, now);
        assert(final(self).schedule() == expire_schedule(old(self).entries(), old(self).schedule(), key@, new_time, now));
        assert(final(self).entries() == expire_entries(old(self).entries(), key@, new_time, now));
        r
    }

    /// Stores the single value `value` under `key` with a fresh id, expiring
    /// at `expires_at` if given, and hands back the single value it
    /// replaces; a replaced collection hands back nothing.
    fn update_simple(&mut self, key: SimpleType, value: SimpleType, expires_at: Option<i64>) -> (r:
        Option<SimpleType>)
        ensures
            final(self).entries() == old(self).entries().insert(
                key@,
                EntryView { id: old(self).upcoming_id(), data: DataView::Simple(value@), expires_at },
            ),
            final(self).schedule() == scheduled(old(self).schedule(), expires_at, old(self).upcoming_id(), key@),
            final(self).upcoming_id() == old(self).upcoming_id().wrapping_add(1),
            opt_view(r) == stored_simple(old(self).entries(), key@),
            old(self).consistent() && old(self).upcoming_id() < u64::MAX ==> final(self).consistent(),
    {
        proof {
            if self.consistent() && self.upcoming_id() < u64::MAX {
                lemma_slot_fresh(self.entries(), self.schedule(), self.upcoming_id(), key@, DataView::Simple(value@), expires_at);
            }
        }
        let id = self.next_id();
        match expires_at {
            Some(t) => {
                let _ = self.expirations.schedule(
                    ExpirationEntry { id, key: key.duplicate(), expires_at: t },
                );
            },
            None => {},
        }
        let prev = self.dict.insert(
            key,
            Entry { id, data: DataType::SimpleType(value), expires_at },
        );
        match prev {
            Some(e) => match e.data {
                DataType::SimpleType(s) => Some(s),
                _ => None,
            },
            None => None,
        }
    }

    /// Removes the entry under `key`, live or not, and hands back its data.
    pub fn remove(&mut self, key: &SimpleType) -> (r: Option<DataType>)
        ensures
            final(self).upcoming_id() == old(self).upcoming_id(),
            final(self).entries() == old(self).entries().remove(key@),
            final(self).schedule() == old(self).schedule(),
            match r {
                Some(d) => old(self).entries().contains_key(key@) && d@ == old(self).entries()[key@].data,
                None => !old(self).entries().contains_key(key@),
            },
            old(self).consistent() ==> final(self).consistent(),
    {
        proof {
            if self.consistent() {
                lemma_slot_writes(self.entries(), self.schedule(), self.upcoming_id(), key@);
            }
        }
        match self.dict.remove(key) {
            Some(e) => Some(e.data),
            None => None,
        }
    }

    /// `SET` as seen at `now`. The live value under `key` must be a single
    /// value, else the answer is an error and nothing changes. When the
    /// condition `nx_xx` fails on the live value, that value is the answer
    /// and nothing changes. Otherwise `value` is stored, expiring at
    /// `expires_at`, or, with `keepttl`, when the live entry did; the answer
    /// is the single value the write replaced.
    pub fn set_at(
        &mut self,
        key: SimpleType,
        value: SimpleType,
        nx_xx: NxXx,
        expires_at: Option<i64>,
        keepttl: bool,
        now: i64,
    ) -> (r: Result<Option<SimpleType>, String>)
        ensures
            match simple_at(old(self).entries(), key@, now) {
                Err(_) => r matches Err(e) && e@ == "类型错误"@ && final(self).entries() == old(self).entries() && final(self).schedule() == old(self).schedule()
                    && final(self).upcoming_id() == old(self).upcoming_id(),
                Ok(live) => if condition_holds(nx_xx, live) {
                    let ea = if keepttl {
                        spec_expires_at(old(self).entries(), key@, now)
                    } else {
                        expires_at
                    };
                    &&& r matches Ok(p) && opt_view(p) == stored_simple(old(self).entries(), key@)
                    &&& final(self).entries() == old(self).entries().insert(
                        key@,
                        EntryView { id: old(self).upcoming_id(), data: DataView::Simple(value@), expires_at: ea },
                    )
                    &&& final(self).schedule() == scheduled(old(self).schedule(), ea, old(self).upcoming_id(), key@)
                    &&& final(self).upcoming_id() == old(self).upcoming_id().wrapping_add(1)
                } else {
                    &&& r matches Ok(p) && opt_view(p) == live
                    &&& final(self).entries() == old(self).entries()
                    &&& final(self).schedule() == old(self).schedule()
                    &&& final(self).upcoming_id() == old(self).upcoming_id()
                },
            },
            old(self).consistent() && old(self).upcoming_id() < u64::MAX ==> final(self).consistent(),
    {
        let old_value = match self.get_simple_at(&key, now) {
            Ok(o) => o,
            Err(e) => {
                return Err(e);
            },
        };
        let need_update = match nx_xx {
            NxXx::Nx => old_value.is_none(),
            NxXx::Xx => old_value.is_some(),
            NxXx::NoCondition => true,
        };
        if !need_update {
            return Ok(old_value);
        }
        let ea = if keepttl {
            self.dict.get_expires_at_at(&key, now)
        } else {
            expires_at
        };
        Ok(self.update_simple(key, value, ea))
    }

    /// `SET` as seen now; see `set_at`.
    pub fn set(
        &mut self,
        key: SimpleType,
        value: SimpleType,
        nx_xx: NxXx,
        expires_at: Option<i64>,
        keepttl: bool,
    ) -> (r: Result<Option<SimpleType>, String>)
        ensures
            exists|now: i64|
                #![trigger simple_at(old(self).entries(), key@, now)]
                match simple_at(old(self).entries(), key@, now) {
                    Err(_) => r matches Err(e) && e@ == "类型错误"@ && final(self).entries() == old(self).entries() && final(self).schedule() == old(self).schedule()
                    && final(self).upcoming_id() == old(self).upcoming_id(),
                    Ok(live) => if condition_holds(nx_xx, live) {
                        let ea = if keepttl {
                            spec_expires_at(old(self).entries(), key@, now)
                        } else {
                            expires_at
                        };
                        &&& r matches Ok(p) && opt_view(p) == stored_simple(old(self).entries(), key@)
                        &&& final(self).entries() == old(self).entries().insert(
                            key@,
                            EntryView { id: old(self).upcoming_id(), data: DataView::Simple(value@), expires_at: ea },
                        )
                        &&& final(self).schedule() == scheduled(old(self).schedule(), ea, old(self).upcoming_id(), key@)
                        &&& final(self).upcoming_id() == old(self).upcoming_id().wrapping_add(1)
                    } else {
                        &&& r matches Ok(p) && opt_view(p) == live
                        &&& final(self).entries() == old(self).entries()
                        &&& final(self).schedule() == old(self).schedule()
                        &&& final(self).upcoming_id() == old(self).upcoming_id()
                    },
                },
            old(self).consistent() && old(self).upcoming_id() < u64::MAX ==> final(self).consistent(),
    {
        let now = now_millis();
        self.set_at(key, value, nx_xx, expires_at, keepttl, now)
    }

    /// Adds `value` to the number stored under `key`, starting from zero
    /// when nothing is stored there, expired or not, and answers the sum. An
    /// integer is added to as it is; text is read as an integer first, and
    /// text that is not one is an error. Any other value is the error
    /// "type not support". The entry keeps its id and expiry.
    pub fn incr_by(&mut self, key: SimpleType, value: i64) -> (r: Result<i64, String>)
        requires
            incr_fits(old(self).entries(), key@, value),
        ensures
            final(self).upcoming_id() == id_after(old(self).entries(), key@, old(self).upcoming_id()),
            final(self).schedule() == old(self).schedule(),
            ({
                let e0 = counter_entry(old(self).entries(), key@, old(self).upcoming_id());
                match counter_value(e0) {
                    Some(v) => r == Ok::<i64, String>((v + value) as i64) && final(self).entries()
                        == old(self).entries().insert(
                        key@,
                        EntryView {
                            id: e0.id,
                            data: DataView::Simple(SimpleValue::Integer((v + value) as i64)),
                            expires_at: e0.expires_at,
                        },
                    ),
                    None => r is Err && final(self).entries() == old(self).entries() && (!(
                    e0.data is Simple) ==> (r matches Err(e) && e@ == "type not support"@)),
                }
            }),
            old(self).consistent() && old(self).upcoming_id() < u64::MAX ==> final(self).consistent(),
    {
        proof {
            if self.consistent() {
                lemma_slot_writes(self.entries(), self.schedule(), self.upcoming_id(), key@);
            }
        }
        let (id, expires_at, data) = match self.dict.remove(&key) {
            Some(e) => (e.id, e.expires_at, e.data),
            None => (self.next_id(), None, DataType::SimpleType(SimpleType::Integer(0))),
        };
        let ghost m0 = old(self).entries();
        proof {
            if m0.contains_key(key@) {
                assert(self.entries().insert(key@, m0[key@]) =~= m0);
            }
        }
        let parsed: Result<i64, String> = match &data {
            DataType::SimpleType(SimpleType::Integer(i)) => Ok(*i),
            DataType::SimpleType(SimpleType::SimpleString(s)) => parse_i64(s.as_str()),
            _ => Err("type not support".to_string()),
        };
        match parsed {
            Ok(v) => {
                let after = v + value;
                self.dict.insert(
                    key,
                    Entry {
                        id,
                        data: DataType::SimpleType(SimpleType::Integer(after)),
                        expires_at,
                    },
                );
                Ok(after)
            },
            Err(e) => {
                self.dict.insert(key, Entry { id, data, expires_at });
                proof {
                    if !m0.contains_key(key@) {
                        assert(false);
                    }
                }
                Err(e)
            },
        }
    }

    /// Takes the entry under `key`, live or not, out of the slot.
    pub(crate) fn take_entry(&mut self, key: &SimpleType) -> (r: Option<Entry>)
        ensures
            final(self).schedule() == old(self).schedule(),
            final(self).upcoming_id() == old(self).upcoming_id(),
            final(self).entries() == old(self).entries().remove(key@),
            match r {
                Some(e) => old(self).entries().contains_key(key@) && e@ == old(self).entries()[key@],
                None => !old(self).entries().contains_key(key@),
            },
    {
        self.dict.remove(key)
    }

    /// Puts `e` under `key`.
    pub(crate) fn put_entry(&mut self, key: &SimpleType, e: Entry)
        ensures
            final(self).schedule() == old(self).schedule(),
            final(self).upcoming_id() == old(self).upcoming_id(),
            final(self).entries() == old(self).entries().insert(key@, e@),
    {
        let _ = self.dict.insert(key.duplicate(), e);
    }

    /// Removes the keys whose expiration is due at `now`, drops the due
    /// expirations and answers when the next one is due.
    pub fn purge_expired_keys(&mut self, now: i64) -> (r: Option<i64>)
        ensures
            final(self).upcoming_id() == old(self).upcoming_id(),
            final(self).entries() == expirations::spec_purge(old(self).entries(), old(self).schedule(), now),
            final(self).schedule() == expirations::pending_after(old(self).schedule(), now),
            expirations::is_earliest(final(self).schedule(), r),
            old(self).consistent() ==> final(self).consistent(),
    {
        proof {
            if self.consistent() {
                lemma_slot_purge(self.entries(), self.schedule(), self.upcoming_id(), now);
            }
        }
        self.expirations.purge_expired_keys(&mut self.dict, now)
    }

    /// When the next expiration is due.
    pub fn next_expiration(&self) -> (r: Option<i64>)
        ensures
            expirations::is_earliest(self.schedule(), r),
    {
        self.expirations.next_expiration()
    }
}

} // verus!
