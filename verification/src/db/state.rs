//! The key-value state: entries by text key, each with an id and an
//! optional expiry, and the schedule of expirations by instant and id.

use vstd::prelude::*;

use crate::db::data::{bytes_view, Bytes, Data, DataValue, List, Number};
use crate::db::data_type::list::spec_shape;
use crate::db::slot::expirations::ExpirationKey;
use crate::utils::keymap::KeyMap;
use crate::utils::numeric::{parse_i64, spec_parse_i64};
use crate::utils::utf8_to_string;

verus! {

/// An entry of the state.
pub struct Entry {
    /// Identifies this entry.
    pub id: u64,
    /// The stored value.
    pub data: Data,
    /// The instant, in milliseconds, at which the entry expires.
    pub expires_at: Option<i64>,
}

/// An entry, as a mathematical value.
pub struct EntryValue {
    pub id: u64,
    pub data: DataValue,
    pub expires_at: Option<i64>,
}

impl View for Entry {
    type V = EntryValue;

    open spec fn view(&self) -> EntryValue {
        EntryValue { id: self.id, data: self.data@, expires_at: self.expires_at }
    }
}

/// The entries and the expiration schedule of the key-value state.
pub struct State {
    entries: KeyMap<String, Entry>,
    expirations: KeyMap<ExpirationKey, String>,
    next_id: u64,
    shutdown: bool,
}

/// The earliest instant of the schedule `q`, if it has any.
pub open spec fn earliest(q: Map<ExpirationKey, Seq<char>>, r: Option<i64>) -> bool {
    match r {
        None => q.dom() == vstd::set::Set::<ExpirationKey>::empty(),
        Some(t) => (exists|ek: ExpirationKey| #[trigger] q.contains_key(ek) && ek.expires_at == t)
            && forall|ek: ExpirationKey| #[trigger] q.contains_key(ek) ==> t <= ek.expires_at,
    }
}

/// Whether an expiration of the schedule `q` for key `k` is due at `now`.
pub open spec fn is_due(q: Map<ExpirationKey, Seq<char>>, k: Seq<char>, now: i64) -> bool {
    exists|ek: ExpirationKey| #[trigger] q.contains_key(ek) && ek.expires_at <= now && q[ek] == k
}

/// The keys with an expiration due at `now`.
pub open spec fn due_keys(q: Map<ExpirationKey, Seq<char>>, now: i64) -> vstd::set::Set<Seq<char>> {
    vstd::set::Set::new(|k: Seq<char>| is_due(q, k, now))
}

/// The expirations that are not due at `now`.
pub open spec fn not_due(q: Map<ExpirationKey, Seq<char>>, now: i64) -> Map<ExpirationKey, Seq<char>> {
    q.restrict(q.dom().filter(|ek: ExpirationKey| ek.expires_at > now))
}

/// Whether a new expiration at `t` comes before every scheduled one, so
/// that the task waiting for the next one should wake.
pub open spec fn wakes(q: Map<ExpirationKey, Seq<char>>, t: i64) -> bool {
    forall|ek: ExpirationKey| #[trigger] q.contains_key(ek) ==> ek.expires_at > t
}

/// The number `incr_by` reads from a stored value: the number itself, or
/// the bytes read as UTF-8 text and then as an integer.
pub open spec fn stored_number(d: DataValue) -> Option<i64> {
    match d {
        DataValue::Number(i) => Some(i),
        DataValue::Bytes(b) => if vstd::utf8::valid_utf8(b) {
            spec_parse_i64(vstd::utf8::decode_utf8(b))
        } else {
            None
        },
        _ => None,
    }
}

/// What a list command of the state reports when the key holds something
/// else.
pub open spec fn state_not_a_list() -> Seq<char> {
    "the value stored at key is not a list."@
}

/// Whether the schedule agrees with the entries, one expiration for each
/// entry with an expiry: every expiration names an entry with its id and
/// expiry, every entry with an expiry has its expiration, entries have ids
/// of their own, all below `next`.
pub open spec fn schedule_agrees(m: Map<Seq<char>, EntryValue>, q: Map<ExpirationKey, Seq<char>>, next: u64) -> bool {
    &&& forall|ek: ExpirationKey| #[trigger] q.contains_key(ek) ==> m.contains_key(q[ek]) && m[q[ek]].id == ek.id
        && m[q[ek]].expires_at == Some(ek.expires_at)
    &&& forall|k: Seq<char>| #[trigger] m.contains_key(k) && m[k].expires_at is Some ==> q.contains_key(
        ExpirationKey { expires_at: m[k].expires_at->0, id: m[k].id },
    ) && q[ExpirationKey { expires_at: m[k].expires_at->0, id: m[k].id }] == k
    &&& forall|k: Seq<char>| #[trigger] m.contains_key(k) ==> m[k].id < next
    &&& forall|k1: Seq<char>, k2: Seq<char>| #[trigger] m.contains_key(k1) && #[trigger] m.contains_key(k2) && k1 != k2
        ==> m[k1].id != m[k2].id
}

/// Writing new data under a key that keeps its id and expiry keeps the
/// schedule in agreement.
proof fn lemma_agree_same_entry(m: Map<Seq<char>, EntryValue>, q: Map<ExpirationKey, Seq<char>>, next: u64, k: Seq<char>, e: EntryValue)
    requires
        schedule_agrees(m, q, next),
        m.contains_key(k),
        e.id == m[k].id,
        e.expires_at == m[k].expires_at,
    ensures
        schedule_agrees(m.insert(k, e), q, next),
{
    let m2 = m.insert(k, e);
    assert forall|k1: Seq<char>, k2: Seq<char>| #[trigger] m2.contains_key(k1) && #[trigger] m2.contains_key(k2) && k1 != k2
        implies m2[k1].id != m2[k2].id by {
        assert(m.contains_key(k1) && m.contains_key(k2));
    }
}

/// A new entry with no expiry under a new key, with id `next`, keeps the
/// schedule in agreement, the next id moving on by one.
proof fn lemma_agree_new_entry(m: Map<Seq<char>, EntryValue>, q: Map<ExpirationKey, Seq<char>>, next: u64, k: Seq<char>, e: EntryValue)
    requires
        schedule_agrees(m, q, next),
        !m.contains_key(k),
        e.id == next,
        e.expires_at is None,
        next < u64::MAX,
    ensures
        schedule_agrees(m.insert(k, e), q, (next + 1) as u64),
{
    let m2 = m.insert(k, e);
    assert forall|ek: ExpirationKey| #[trigger] q.contains_key(ek) implies m2.contains_key(q[ek]) && m2[q[ek]].id == ek.id
        && m2[q[ek]].expires_at == Some(ek.expires_at) by {
        assert(q[ek] != k);
    }
    assert forall|k1: Seq<char>, k2: Seq<char>| #[trigger] m2.contains_key(k1) && #[trigger] m2.contains_key(k2) && k1 != k2
        implies m2[k1].id != m2[k2].id by {
        if k1 != k && k2 != k {
            assert(m.contains_key(k1) && m.contains_key(k2));
        } else if k1 == k {
            assert(m.contains_key(k2));
        } else {
            assert(m.contains_key(k1));
        }
    }
    assert forall|k1: Seq<char>| #[trigger] m2.contains_key(k1) implies m2[k1].id < next + 1 by {
        if k1 != k {
            assert(m.contains_key(k1));
        }
    }
}

/// Writing under `k` any entry that keeps its id and expiry, or, where
/// nothing is stored, any new entry with id `next` and no expiry, keeps the
/// schedule in agreement.
proof fn lemma_agree_writes(m: Map<Seq<char>, EntryValue>, q: Map<ExpirationKey, Seq<char>>, next: u64, k: Seq<char>)
    requires
        schedule_agrees(m, q, next),
    ensures
        forall|e: EntryValue| m.contains_key(k) && e.id == m[k].id && e.expires_at == m[k].expires_at ==> #[trigger] schedule_agrees(
            m.insert(k, e),
            q,
            next,
        ),
        forall|e: EntryValue| !m.contains_key(k) && e.id == next && e.expires_at is None && next < u64::MAX ==> #[trigger] schedule_agrees(
            m.insert(k, e),
            q,
            (next + 1) as u64,
        ),
{
    assert forall|e: EntryValue| m.contains_key(k) && e.id == m[k].id && e.expires_at == m[k].expires_at implies #[trigger] schedule_agrees(
        m.insert(k, e),
        q,
        next,
    ) by {
        lemma_agree_same_entry(m, q, next, k, e);
    }
    assert forall|e: EntryValue| !m.contains_key(k) && e.id == next && e.expires_at is None && next < u64::MAX implies #[trigger] schedule_agrees(
        m.insert(k, e),
        q,
        (next + 1) as u64,
    ) by {
        lemma_agree_new_entry(m, q, next, k, e);
    }
}

/// The schedule after `update` writes under `k` with id `next`.
pub open spec fn updated_schedule(
    m: Map<Seq<char>, EntryValue>,
    q: Map<ExpirationKey, Seq<char>>,
    next: u64,
    k: Seq<char>,
    ea: Option<i64>,
) -> Map<ExpirationKey, Seq<char>> {
    let q1 = match ea {
        Some(t) => q.insert(ExpirationKey { expires_at: t, id: next }, k),
        None => q,
    };
    if m.contains_key(k) && m[k].expires_at is Some {
        q1.remove(ExpirationKey { expires_at: m[k].expires_at->0, id: m[k].id })
    } else {
        q1
    }
}

/// `update` keeps the schedule in agreement.
proof fn lemma_agree_update(
    m: Map<Seq<char>, EntryValue>,
    q: Map<ExpirationKey, Seq<char>>,
    next: u64,
    k: Seq<char>,
    d: DataValue,
    ea: Option<i64>,
)
    requires
        schedule_agrees(m, q, next),
        next < u64::MAX,
    ensures
        schedule_agrees(
            m.insert(k, EntryValue { id: next, data: d, expires_at: ea }),
            updated_schedule(m, q, next, k, ea),
            (next + 1) as u64,
        ),
{
    let m2 = m.insert(k, EntryValue { id: next, data: d, expires_at: ea });
    let q2 = updated_schedule(m, q, next, k, ea);
    assert forall|ek: ExpirationKey| #[trigger] q2.contains_key(ek) implies m2.contains_key(q2[ek]) && m2[q2[ek]].id == ek.id
        && m2[q2[ek]].expires_at == Some(ek.expires_at) by {
        if ea is Some && ek == (ExpirationKey { expires_at: ea->0, id: next }) {
        } else {
            assert(q.contains_key(ek));
            let k1 = q[ek];
            if k1 == k {
                assert(m[k].expires_at == Some(ek.expires_at) && m[k].id == ek.id);
            }
            assert(q2[ek] == k1);
        }
    }
    assert forall|k1: Seq<char>| #[trigger] m2.contains_key(k1) && m2[k1].expires_at is Some implies q2.contains_key(
        ExpirationKey { expires_at: m2[k1].expires_at->0, id: m2[k1].id },
    ) && q2[ExpirationKey { expires_at: m2[k1].expires_at->0, id: m2[k1].id }] == k1 by {
        if k1 != k {
            assert(m.contains_key(k1));
            if m.contains_key(k) {
                assert(m[k1].id != m[k].id);
            }
            assert(m[k1].id < next);
        } else {
            if m.contains_key(k) {
                assert(m[k].id < next);
            }
        }
    }
    assert forall|k1: Seq<char>| #[trigger] m2.contains_key(k1) implies m2[k1].id < next + 1 by {
        if k1 != k {
            assert(m.contains_key(k1));
        }
    }
    assert forall|k1: Seq<char>, k2: Seq<char>| #[trigger] m2.contains_key(k1) && #[trigger] m2.contains_key(k2) && k1 != k2
        implies m2[k1].id != m2[k2].id by {
        if k1 != k && k2 != k {
            assert(m.contains_key(k1) && m.contains_key(k2));
        } else if k1 == k {
            assert(m.contains_key(k2));
        } else {
            assert(m.contains_key(k1));
        }
    }
}

/// The schedule after `set_expires_at` gives the entry under `k` the expiry
/// `t`.
pub open spec fn expiry_schedule(m: Map<Seq<char>, EntryValue>, q: Map<ExpirationKey, Seq<char>>, k: Seq<char>, t: i64) -> Map<
    ExpirationKey,
    Seq<char>,
> {
    let e = m[k];
    match e.expires_at {
        Some(w) => q.remove(ExpirationKey { expires_at: w, id: e.id }).insert(ExpirationKey { expires_at: t, id: e.id }, k),
        None => q.insert(ExpirationKey { expires_at: t, id: e.id }, k),
    }
}

/// `set_expires_at` keeps the schedule in agreement.
proof fn lemma_agree_expiry(m: Map<Seq<char>, EntryValue>, q: Map<ExpirationKey, Seq<char>>, next: u64, k: Seq<char>, t: i64)
    requires
        schedule_agrees(m, q, next),
        m.contains_key(k),
    ensures
        schedule_agrees(
            m.insert(k, EntryValue { id: m[k].id, data: m[k].data, expires_at: Some(t) }),
            expiry_schedule(m, q, k, t),
            next,
        ),
{
    let e = m[k];
    let m2 = m.insert(k, EntryValue { id: e.id, data: e.data, expires_at: Some(t) });
    let q2 = expiry_schedule(m, q, k, t);
    let nk = ExpirationKey { expires_at: t, id: e.id };
    assert forall|ek: ExpirationKey| #[trigger] q2.contains_key(ek) implies m2.contains_key(q2[ek]) && m2[q2[ek]].id == ek.id
        && m2[q2[ek]].expires_at == Some(ek.expires_at) by {
        if ek != nk {
            assert(q.contains_key(ek));
            let k1 = q[ek];
            if k1 == k {
                assert(m[k].expires_at == Some(ek.expires_at) && m[k].id == ek.id);
            }
            assert(q2[ek] == k1);
        }
    }
    assert forall|k1: Seq<char>| #[trigger] m2.contains_key(k1) && m2[k1].expires_at is Some implies q2.contains_key(
        ExpirationKey { expires_at: m2[k1].expires_at->0, id: m2[k1].id },
    ) && q2[ExpirationKey { expires_at: m2[k1].expires_at->0, id: m2[k1].id }] == k1 by {
        if k1 != k {
            assert(m.contains_key(k1));
            assert(m[k1].id != e.id);
        }
    }
    assert forall|k1: Seq<char>, k2: Seq<char>| #[trigger] m2.contains_key(k1) && #[trigger] m2.contains_key(k2) && k1 != k2
        implies m2[k1].id != m2[k2].id by {
        assert(m.contains_key(k1) && m.contains_key(k2));
    }
}

/// The schedule after the entry under `k` is removed.
pub open spec fn removed_schedule(m: Map<Seq<char>, EntryValue>, q: Map<ExpirationKey, Seq<char>>, k: Seq<char>) -> Map<
    ExpirationKey,
    Seq<char>,
> {
    if m.contains_key(k) && m[k].expires_at is Some {
        q.remove(ExpirationKey { expires_at: m[k].expires_at->0, id: m[k].id })
    } else {
        q
    }
}

/// `remove` keeps the schedule in agreement.
proof fn lemma_agree_remove(m: Map<Seq<char>, EntryValue>, q: Map<ExpirationKey, Seq<char>>, next: u64, k: Seq<char>)
    requires
        schedule_agrees(m, q, next),
    ensures
        schedule_agrees(m.remove(k), removed_schedule(m, q, k), next),
{
    let m2 = m.remove(k);
    let q2 = removed_schedule(m, q, k);
    assert forall|ek: ExpirationKey| #[trigger] q2.contains_key(ek) implies m2.contains_key(q2[ek]) && m2[q2[ek]].id == ek.id
        && m2[q2[ek]].expires_at == Some(ek.expires_at) by {
        assert(q.contains_key(ek));
        if q[ek] == k {
            assert(m[k].expires_at == Some(ek.expires_at) && m[k].id == ek.id);
        }
    }
    assert forall|k1: Seq<char>| #[trigger] m2.contains_key(k1) && m2[k1].expires_at is Some implies q2.contains_key(
        ExpirationKey { expires_at: m2[k1].expires_at->0, id: m2[k1].id },
    ) && q2[ExpirationKey { expires_at: m2[k1].expires_at->0, id: m2[k1].id }] == k1 by {
        assert(m.contains_key(k1));
        if m.contains_key(k) {
            assert(m[k1].id != m[k].id);
        }
    }
    assert forall|k1: Seq<char>, k2: Seq<char>| #[trigger] m2.contains_key(k1) && #[trigger] m2.contains_key(k2) && k1 != k2
        implies m2[k1].id != m2[k2].id by {
        assert(m.contains_key(k1) && m.contains_key(k2));
    }
}

/// The purge keeps the schedule in agreement.
proof fn lemma_agree_purge(m: Map<Seq<char>, EntryValue>, q: Map<ExpirationKey, Seq<char>>, next: u64, now: i64)
    requires
        schedule_agrees(m, q, next),
    ensures
        schedule_agrees(m.remove_keys(due_keys(q, now)), not_due(q, now), next),
{
    let m2 = m.remove_keys(due_keys(q, now));
    let q2 = not_due(q, now);
    assert forall|ek: ExpirationKey| #[trigger] q2.contains_key(ek) implies m2.contains_key(q2[ek]) && m2[q2[ek]].id == ek.id
        && m2[q2[ek]].expires_at == Some(ek.expires_at) by {
        let k1 = q[ek];
        if due_keys(q, now).contains(k1) {
            let e2 = choose|e2: ExpirationKey| #[trigger] q.contains_key(e2) && e2.expires_at <= now && q[e2] == k1;
            assert(m[k1].id == e2.id && m[k1].expires_at == Some(e2.expires_at));
            assert(e2 == ek);
        }
    }
    assert forall|k1: Seq<char>| #[trigger] m2.contains_key(k1) && m2[k1].expires_at is Some implies q2.contains_key(
        ExpirationKey { expires_at: m2[k1].expires_at->0, id: m2[k1].id },
    ) && q2[ExpirationKey { expires_at: m2[k1].expires_at->0, id: m2[k1].id }] == k1 by {
        let r = ExpirationKey { expires_at: m[k1].expires_at->0, id: m[k1].id };
        assert(m.contains_key(k1));
        assert(q.contains_key(r));
        if r.expires_at <= now {
            assert(is_due(q, k1, now));
        }
    }
    assert forall|k1: Seq<char>, k2: Seq<char>| #[trigger] m2.contains_key(k1) && #[trigger] m2.contains_key(k2) && k1 != k2
        implies m2[k1].id != m2[k2].id by {
        assert(m.contains_key(k1) && m.contains_key(k2));
    }
}

impl State {
    /// The entries, by key.
    pub closed spec fn entries(self) -> Map<Seq<char>, EntryValue> {
        self.entries.spec_map()
    }

    /// The expiration schedule.
    pub closed spec fn schedule(self) -> Map<ExpirationKey, Seq<char>> {
        self.expirations.spec_map()
    }

    /// The id the next entry gets.
    pub closed spec fn upcoming_id(self) -> u64 {
        self.next_id
    }

    /// Whether the state is shutting down.
    pub closed spec fn shutting_down(self) -> bool {
        self.shutdown
    }

    /// Whether the schedule agrees with the entries; see `schedule_agrees`.
    pub open spec fn consistent(self) -> bool {
        schedule_agrees(self.entries(), self.schedule(), self.upcoming_id())
    }

    /// An empty state.
    pub fn new() -> (r: State)
        ensures
            r.entries() == Map::<Seq<char>, EntryValue>::empty(),
            r.schedule() == Map::<ExpirationKey, Seq<char>>::empty(),
            r.upcoming_id() == 0,
            !r.shutting_down(),
            r.consistent(),
    {
        State { entries: KeyMap::new(), expirations: KeyMap::new(), next_id: 0, shutdown: false }
    }

    /// Hands out the next id.
    pub fn next_id(&mut self) -> (r: u64)
        requires
            old(self).upcoming_id() < u64::MAX,
        ensures
            old(self).consistent() ==> final(self).consistent(),
            r == old(self).upcoming_id(),
            final(self).upcoming_id() == old(self).upcoming_id() + 1,
            final(self).entries() == old(self).entries(),
            final(self).schedule() == old(self).schedule(),
            final(self).shutting_down() == old(self).shutting_down(),
    {
        let res = self.next_id;
        self.next_id = self.next_id + 1;
        res
    }

    /// The earliest instant at which a key is due to expire.
    pub fn next_expiration(&self) -> (r: Option<i64>)
        ensures
            earliest(self.schedule(), r),
    {
        let n = self.expirations.len();
        let mut best: Option<i64> = None;
        let mut i: usize = 0;
        while i < n
            invariant
                n == self.expirations.entry_views().len(),
                0 <= i <= n,
                best is None <==> i == 0,
                forall|j: int|
                    0 <= j < i ==> best.unwrap() <= #[trigger] self.expirations.entry_views()[j].0.expires_at,
                best matches Some(t) ==> exists|j: int|
                    0 <= j < i && #[trigger] self.expirations.entry_views()[j].0.expires_at == t,
            decreases n - i,
        {
            let (k, _) = self.expirations.pair_at(i);
            let t = k.expires_at;
            match best {
                Some(b) => {
                    if t < b {
                        best = Some(t);
                    }
                },
                None => {
                    best = Some(t);
                },
            }
            i += 1;
        }
        proof {
            let ev = self.expirations.entry_views();
            let q = self.schedule();
            match best {
                None => {
                    assert(q.dom() =~= vstd::set::Set::<ExpirationKey>::empty()) by {
                        if exists|ek: ExpirationKey| q.contains_key(ek) {
                            let ek = choose|ek: ExpirationKey| q.contains_key(ek);
                            let j = choose|j: int| 0 <= j < ev.len() && (#[trigger] ev[j]).0 == ek;
                        }
                    }
                },
                Some(t) => {
                    let j = choose|j: int| 0 <= j < i && #[trigger] ev[j].0.expires_at == t;
                    assert(q.contains_key(ev[j].0));
                    assert forall|ek: ExpirationKey| #[trigger] q.contains_key(ek) implies t
                        <= ek.expires_at by {
                        let j2 = choose|j2: int| 0 <= j2 < ev.len() && (#[trigger] ev[j2]).0 == ek;
                        assert(t <= ev[j2].0.expires_at);
                    }
                },
            }
        }
        best
    }

    /// Whether an entry is stored under `key`, expired or not.
    pub fn exists_key(&self, key: &str) -> (r: bool)
        ensures
            r == self.entries().contains_key(key@),
    {
        self.entries.contains_key(&key.to_string())
    }

    /// The expiry of the entry under `key`.
    pub fn get_expires_at(&self, key: &str) -> (r: Option<i64>)
        ensures
            r == (if self.entries().contains_key(key@) {
                self.entries()[key@].expires_at
            } else {
                None
            }),
    {
        match self.entries.get(&key.to_string()) {
            Some(e) => e.expires_at,
            None => None,
        }
    }

    /// The value stored under `key`.
    pub fn get_data(&self, key: &str) -> (r: Option<&Data>)
        ensures
            r is None <==> !self.entries().contains_key(key@),
            r matches Some(d) ==> d@ == self.entries()[key@].data,
    {
        match self.entries.get(&key.to_string()) {
            Some(e) => Some(&e.data),
            None => None,
        }
    }

    /// Whether the state is shutting down.
    pub fn is_shutdown(&self) -> (r: bool)
        ensures
            r == self.shutting_down(),
    {
        self.shutdown
    }

    /// Marks the state as shutting down, or not.
    pub fn shutdown(&mut self, s: bool)
        ensures
            old(self).consistent() ==> final(self).consistent(),
            final(self).shutting_down() == s,
            final(self).entries() == old(self).entries(),
            final(self).schedule() == old(self).schedule(),
            final(self).upcoming_id() == old(self).upcoming_id(),
    {
        self.shutdown = s;
    }

    /// An expiration that is due at `now`.
    fn find_due(&self, now: i64) -> (r: Option<ExpirationKey>)
        ensures
            r matches Some(ek) ==> self.schedule().contains_key(ek) && ek.expires_at <= now,
            r is None ==> forall|ek: ExpirationKey| #[trigger] self.schedule().contains_key(ek)
                ==> ek.expires_at > now,
    {
        let n = self.expirations.len();
        let mut i: usize = 0;
        while i < n
            invariant
                n == self.expirations.entry_views().len(),
                0 <= i <= n,
                forall|j: int|
                    0 <= j < i ==> #[trigger] self.expirations.entry_views()[j].0.expires_at > now,
                forall|j: int|
                    0 <= j < n ==> #[trigger] self.expirations.spec_map().contains_key(
                        self.expirations.entry_views()[j].0,
                    ),
            decreases n - i,
        {
            let (k, _) = self.expirations.pair_at(i);
            if k.expires_at <= now {
                proof {
                    assert(self.expirations.spec_map().contains_key(
                        self.expirations.entry_views()[i as int].0,
                    ));
                }
                return Some(*k);
            }
            i += 1;
        }
        proof {
            let ev = self.expirations.entry_views();
            assert forall|ek: ExpirationKey| #[trigger] self.schedule().contains_key(ek) implies ek.expires_at
                > now by {
                let j = choose|j: int| 0 <= j < ev.len() && (#[trigger] ev[j]).0 == ek;
                assert(ev[j].0.expires_at > now);
            }
        }
        None
    }

    /// Removes every key with an expiration due at `now` and the due
    /// expirations, and answers when the next expiration is due. A state
    /// that is shutting down is left alone and answers nothing.
    pub fn purge_expired_keys(&mut self, now: i64) -> (r: Option<i64>)
        ensures
            old(self).consistent() ==> final(self).consistent(),
            final(self).upcoming_id() == old(self).upcoming_id(),
            final(self).shutting_down() == old(self).shutting_down(),
            old(self).shutting_down() ==> r is None && final(self).entries() == old(self).entries()
                && final(self).schedule() == old(self).schedule(),
            !old(self).shutting_down() ==> final(self).entries() == old(self).entries().remove_keys(
                due_keys(old(self).schedule(), now),
            ) && final(self).schedule() == not_due(old(self).schedule(), now) && earliest(
                final(self).schedule(),
                r,
            ),
    {
        proof {
            if self.consistent() {
                lemma_agree_purge(self.entries(), self.schedule(), self.upcoming_id(), now);
            }
        }
        if self.shutdown {
            return None;
        }
        let ghost q0 = self.schedule();
        let ghost m0 = self.entries();
        proof {
            assert(due_keys(q0.remove_keys(self.schedule().dom()), now) =~= vstd::set::Set::<
                Seq<char>,
            >::empty());
            assert(self.entries() =~= m0.remove_keys(due_keys(q0.remove_keys(self.schedule().dom()), now)));
        }
        let _ = self.expirations.len();
        loop
            invariant
                self.schedule().dom().finite(),
                self.schedule().dom().subset_of(q0.dom()),
                forall|ek: ExpirationKey| #[trigger] self.schedule().contains_key(ek) ==> self.schedule()[ek]
                    == q0[ek],
                forall|ek: ExpirationKey|
                    #[trigger] q0.contains_key(ek) && !self.schedule().contains_key(ek) ==> ek.expires_at
                        <= now,
                self.entries() == m0.remove_keys(due_keys(q0.remove_keys(self.schedule().dom()), now)),
                self.upcoming_id() == old(self).upcoming_id(),
                self.shutting_down() == old(self).shutting_down(),
            ensures
                forall|ek: ExpirationKey| #[trigger] self.schedule().contains_key(ek) ==> ek.expires_at
                    > now,
            decreases self.schedule().dom().len(),
        {
            match self.find_due(now) {
                None => {
                    break;
                },
                Some(ek) => {
                    let ghost before = self.schedule();
                    let key = match self.expirations.remove(&ek) {
                        Some(k) => k,
                        None => {
                            proof {
                                assert(false);
                            }
                            return None;
                        },
                    };
                    let _ = self.entries.remove(&key);
                    let _ = self.expirations.len();
                    proof {
                        let p_old = q0.remove_keys(before.dom());
                        let p_new = q0.remove_keys(self.schedule().dom());
                        assert(self.schedule().dom() =~= before.dom().remove(ek));
                        assert(p_new =~= p_old.insert(ek, key@));
                        assert(due_keys(p_new, now) =~= due_keys(p_old, now).insert(key@)) by {
                            assert forall|k: Seq<char>| #[trigger] is_due(p_new, k, now) implies due_keys(
                                p_old,
                                now,
                            ).insert(key@).contains(k) by {
                                let w = choose|w: ExpirationKey|
                                    #[trigger] p_new.contains_key(w) && w.expires_at <= now && p_new[w]
                                        == k;
                                if w != ek {
                                    assert(p_old.contains_key(w));
                                }
                            }
                            assert forall|k: Seq<char>| due_keys(p_old, now).insert(key@).contains(
                                k,
                            ) implies #[trigger] is_due(p_new, k, now) by {
                                if k == key@ {
                                    assert(p_new.contains_key(ek));
                                } else {
                                    let w = choose|w: ExpirationKey|
                                        #[trigger] p_old.contains_key(w) && w.expires_at <= now
                                            && p_old[w] == k;
                                    assert(p_new.contains_key(w));
                                }
                            }
                        }
                        assert(self.entries() =~= m0.remove_keys(due_keys(p_new, now)));
                    }
                },
            }
        }
        proof {
            let p = q0.remove_keys(self.schedule().dom());
            assert(due_keys(p, now) =~= due_keys(q0, now)) by {
                assert forall|k: Seq<char>| is_due(q0, k, now) implies #[trigger] is_due(p, k, now) by {
                    let w = choose|w: ExpirationKey|
                        #[trigger] q0.contains_key(w) && w.expires_at <= now && q0[w] == k;
                    assert(p.contains_key(w));
                }
                assert forall|k: Seq<char>| is_due(p, k, now) implies #[trigger] is_due(q0, k, now) by {
                    let w = choose|w: ExpirationKey|
                        #[trigger] p.contains_key(w) && w.expires_at <= now && p[w] == k;
                    assert(q0.contains_key(w));
                }
            }
            assert(self.schedule() =~= not_due(q0, now));
        }
        self.next_expiration()
    }

    /// Makes the entry under `key` expire at `expires_at`. An expiration
    /// already scheduled for it moves to the new instant; an entry that had
    /// none gets one scheduled. Answers whether there was an entry, and
    /// whether the new instant comes before every scheduled expiration.
    pub fn set_expires_at(&mut self, key: String, expires_at: i64) -> (r: (bool, bool))
        ensures
            old(self).consistent() ==> final(self).consistent(),
            final(self).upcoming_id() == old(self).upcoming_id(),
            final(self).shutting_down() == old(self).shutting_down(),
            r.1 == wakes(old(self).schedule(), expires_at),
            r.0 == old(self).entries().contains_key(key@),
            !r.0 ==> final(self).entries() == old(self).entries() && final(self).schedule() == old(self).schedule(),
            r.0 ==> ({
                let e = old(self).entries()[key@];
                &&& final(self).entries() == old(self).entries().insert(
                    key@,
                    EntryValue { id: e.id, data: e.data, expires_at: Some(expires_at) },
                )
                &&& final(self).schedule() == match e.expires_at {
                    Some(w) => old(self).schedule().remove(ExpirationKey { expires_at: w, id: e.id }).insert(
                        ExpirationKey { expires_at, id: e.id },
                        key@,
                    ),
                    None => old(self).schedule().insert(ExpirationKey { expires_at, id: e.id }, key@),
                }
            }),
    {
        proof {
            if self.consistent() {
                if self.entries().contains_key(key@) {
                    lemma_agree_expiry(self.entries(), self.schedule(), self.upcoming_id(), key@, expires_at);
                }
            }
        }
        let notify = match self.next_expiration() {
            Some(t) => t > expires_at,
            None => true,
        };
        match self.entries.remove(&key) {
            Some(entry) => {
                match entry.expires_at {
                    Some(old_when) => {
                        let _ = self.expirations.remove(&ExpirationKey { expires_at: old_when, id: entry.id });
                        let _ = self.expirations.insert(ExpirationKey { expires_at, id: entry.id }, key.clone());
                    },
                    None => {
                        let _ = self.expirations.insert(ExpirationKey { expires_at, id: entry.id }, key.clone());
                    },
                }
                let _ = self.entries.insert(
                    key,
                    Entry { id: entry.id, data: entry.data, expires_at: Some(expires_at) },
                );
                (true, notify)
            },
            None => (false, notify),
        }
    }

    /// Stores `value` under `key` with the next id, expiring at `expires_at`
    /// if given, and hands back the value it replaces. The replaced entry's
    /// expiration is dropped and the new one scheduled. Also answers whether
    /// the new expiration comes before every scheduled one.
    pub fn update(&mut self, key: String, value: Data, expires_at: Option<i64>) -> (r: (
        Option<Data>,
        bool,
    ))
        requires
            old(self).upcoming_id() < u64::MAX,
        ensures
            old(self).consistent() ==> final(self).consistent(),
            ({
                let m = old(self).entries();
                let q = old(self).schedule();
                let id = old(self).upcoming_id();
                let q1 = match expires_at {
                    Some(t) => q.insert(ExpirationKey { expires_at: t, id }, key@),
                    None => q,
                };
                &&& final(self).entries() == m.insert(
                    key@,
                    EntryValue { id, data: value@, expires_at },
                )
                &&& final(self).upcoming_id() == id + 1
                &&& final(self).shutting_down() == old(self).shutting_down()
                &&& final(self).schedule() == (if m.contains_key(key@) && m[key@].expires_at is Some {
                    q1.remove(ExpirationKey { expires_at: m[key@].expires_at->0, id: m[key@].id })
                } else {
                    q1
                })
                &&& match r.0 {
                    Some(d) => m.contains_key(key@) && d@ == m[key@].data,
                    None => !m.contains_key(key@),
                }
                &&& r.1 == match expires_at {
                    Some(t) => wakes(q, t),
                    None => false,
                }
            }),
    {
        proof {
            if self.consistent() {
                lemma_agree_update(self.entries(), self.schedule(), self.upcoming_id(), key@, value@, expires_at);
            }
        }
        let id = self.next_id();
        let notify = match expires_at {
            Some(t) => {
                let res = match self.next_expiration() {
                    Some(e) => e > t,
                    None => true,
                };
                let _ = self.expirations.insert(ExpirationKey { expires_at: t, id }, key.clone());
                res
            },
            None => false,
        };
        let prev = self.entries.insert(key, Entry { id, data: value, expires_at });
        let old_value = match prev {
            Some(p) => {
                match p.expires_at {
                    Some(when) => {
                        let _ = self.expirations.remove(&ExpirationKey { expires_at: when, id: p.id });
                    },
                    None => {},
                }
                Some(p.data)
            },
            None => None,
        };
        (old_value, notify)
    }

    /// Removes the entry under `key` and its expiration, handing back its
    /// value.
    pub fn remove(&mut self, key: &str) -> (r: Option<Data>)
        ensures
            old(self).consistent() ==> final(self).consistent(),
            ({
                let m = old(self).entries();
                let q = old(self).schedule();
                &&& final(self).entries() == m.remove(key@)
                &&& final(self).upcoming_id() == old(self).upcoming_id()
                &&& final(self).shutting_down() == old(self).shutting_down()
                &&& final(self).schedule() == (if m.contains_key(key@) && m[key@].expires_at is Some {
                    q.remove(ExpirationKey { expires_at: m[key@].expires_at->0, id: m[key@].id })
                } else {
                    q
                })
                &&& match r {
                    Some(d) => m.contains_key(key@) && d@ == m[key@].data,
                    None => !m.contains_key(key@),
                }
            }),
    {
        proof {
            if self.consistent() {
                lemma_agree_remove(self.entries(), self.schedule(), self.upcoming_id(), key@);
            }
        }
        match self.entries.remove(&key.to_string()) {
            Some(p) => {
                match p.expires_at {
                    Some(when) => {
                        let _ = self.expirations.remove(&ExpirationKey { expires_at: when, id: p.id });
                    },
                    None => {},
                }
                Some(p.data)
            },
            None => None,
        }
    }

    /// Adds `value` to the number stored under `key` and answers the number
    /// as it was. Bytes are read as UTF-8 text and then as an integer; bytes
    /// that are not one are an error with the reader's text, and any other
    /// value is the error "type not support". Where nothing is stored, the
    /// number `value` is stored under the next id and the answer is 0.
    pub fn incr_by(&mut self, key: String, value: i64) -> (r: Result<i64, String>)
        requires
            old(self).entries().contains_key(key@) ==> (stored_number(old(self).entries()[key@].data) matches Some(v)
                ==> i64::MIN <= v + value <= i64::MAX),
            !old(self).entries().contains_key(key@) ==> old(self).upcoming_id() < u64::MAX,
        ensures
            old(self).consistent() ==> final(self).consistent(),
            final(self).schedule() == old(self).schedule(),
            final(self).shutting_down() == old(self).shutting_down(),
            ({
                let m = old(self).entries();
                if m.contains_key(key@) {
                    let e = m[key@];
                    &&& final(self).upcoming_id() == old(self).upcoming_id()
                    &&& match stored_number(e.data) {
                        Some(v) => r == Ok::<i64, String>(v) && final(self).entries() == m.insert(
                            key@,
                            EntryValue {
                                id: e.id,
                                data: DataValue::Number((v + value) as i64),
                                expires_at: e.expires_at,
                            },
                        ),
                        None => r is Err && final(self).entries() == m && (!(e.data is Bytes) ==> (
                        r matches Err(x) && x@ == "type not support"@)),
                    }
                } else {
                    &&& r == Ok::<i64, String>(0)
                    &&& final(self).upcoming_id() == old(self).upcoming_id() + 1
                    &&& final(self).entries() == m.insert(
                        key@,
                        EntryValue {
                            id: old(self).upcoming_id(),
                            data: DataValue::Number(value),
                            expires_at: None,
                        },
                    )
                }
            }),
    {
        proof {
            if self.consistent() {
                lemma_agree_writes(self.entries(), self.schedule(), self.upcoming_id(), key@);
            }
        }
        let ghost m0 = self.entries();
        match self.entries.remove(&key) {
            Some(old) => {
                let read: Result<i64, String> = match &old.data {
                    Data::Bytes(b) => match utf8_to_string(b.0.as_slice()) {
                        Ok(text) => parse_i64(text.as_str()),
                        Err(e) => Err(e),
                    },
                    Data::Number(n) => Ok(n.0),
                    _ => Err("type not support".to_string()),
                };
                match read {
                    Ok(old_value) => {
                        let _ = self.entries.insert(
                            key,
                            Entry {
                                id: old.id,
                                expires_at: old.expires_at,
                                data: Data::Number(Number(value + old_value)),
                            },
                        );
                        Ok(old_value)
                    },
                    Err(e) => {
                        let _ = self.entries.insert(key, old);
                        proof {
                            assert(self.entries() =~= m0);
                        }
                        Err(e)
                    },
                }
            },
            None => {
                Number::insert_new(self, key, value);
                Ok(0)
            },
        }
    }

    /// The entry under `key` for a list write: the one stored, or a new empty
    /// list under the next id.
    fn get_or_new_list_entry(&mut self, key: &String) -> (r: Entry)
        requires
            !old(self).entries().contains_key(key@) ==> old(self).upcoming_id() < u64::MAX,
        ensures
            final(self).schedule() == old(self).schedule(),
            final(self).shutting_down() == old(self).shutting_down(),
            final(self).entries() == old(self).entries().remove(key@),
            old(self).entries().contains_key(key@) ==> r@ == old(self).entries()[key@]
                && final(self).upcoming_id() == old(self).upcoming_id(),
            !old(self).entries().contains_key(key@) ==> r@ == (EntryValue {
                id: old(self).upcoming_id(),
                data: DataValue::List(Seq::empty()),
                expires_at: None,
            }) && final(self).upcoming_id() == old(self).upcoming_id() + 1,
    {
        match self.entries.remove(key) {
            Some(e) => e,
            None => {
                let id = self.next_id();
                Entry { id, data: Data::List(List::new()), expires_at: None }
            },
        }
    }

    /// `LPUSH` (`left`) or `RPUSH` on the list under `key`, created when
    /// nothing is stored; answers its new length.
    fn push_or_new(&mut self, key: String, values: Vec<Bytes>, left: bool) -> (r: Result<usize, String>)
        requires
            !old(self).entries().contains_key(key@) ==> old(self).upcoming_id() < u64::MAX,
        ensures
            old(self).consistent() ==> final(self).consistent(),
            final(self).schedule() == old(self).schedule(),
            final(self).shutting_down() == old(self).shutting_down(),
            ({
                let m = old(self).entries();
                let e = if m.contains_key(key@) {
                    m[key@]
                } else {
                    EntryValue { id: old(self).upcoming_id(), data: DataValue::List(Seq::empty()), expires_at: None }
                };
                &&& final(self).upcoming_id() == old(self).upcoming_id() + (if m.contains_key(key@) { 0int } else { 1int })
                &&& match e.data {
                    DataValue::List(l) => {
                        let nl = if left { bytes_view(values@).reverse() + l } else { l + bytes_view(values@) };
                        r == Ok::<usize, String>(nl.len() as usize) && final(self).entries() == m.insert(
                            key@,
                            EntryValue { id: e.id, data: DataValue::List(nl), expires_at: e.expires_at },
                        )
                    },
                    _ => r matches Err(x) && x@ == state_not_a_list() && final(self).entries() == m,
                }
            }),
    {
        proof {
            if self.consistent() {
                lemma_agree_writes(self.entries(), self.schedule(), self.upcoming_id(), key@);
            }
        }
        let ghost m0 = self.entries();
        let e = self.get_or_new_list_entry(&key);
        match e.data {
            Data::List(mut l) => {
                l.push_all(&values, left);
                let n = l.len();
                let _ = self.entries.insert(key, Entry { id: e.id, data: Data::List(l), expires_at: e.expires_at });
                Ok(n)
            },
            data => {
                let _ = self.entries.insert(key, Entry { id: e.id, data, expires_at: e.expires_at });
                proof {
                    assert(self.entries() =~= m0);
                }
                Err("the value stored at key is not a list.".to_string())
            },
        }
    }

    /// `LPUSHX` (`left`) or `RPUSHX` on the list stored under `key`; answers
    /// its new length, 0 when nothing is stored.
    fn push_existing(&mut self, key: &str, values: Vec<Bytes>, left: bool) -> (r: Result<usize, String>)
        ensures
            old(self).consistent() ==> final(self).consistent(),
            final(self).schedule() == old(self).schedule(),
            final(self).shutting_down() == old(self).shutting_down(),
            final(self).upcoming_id() == old(self).upcoming_id(),
            ({
                let m = old(self).entries();
                if !m.contains_key(key@) {
                    r == Ok::<usize, String>(0) && final(self).entries() == m
                } else {
                    let e = m[key@];
                    match e.data {
                        DataValue::List(l) => {
                            let nl = if left { bytes_view(values@).reverse() + l } else { l + bytes_view(values@) };
                            r == Ok::<usize, String>(nl.len() as usize) && final(self).entries() == m.insert(
                                key@,
                                EntryValue { id: e.id, data: DataValue::List(nl), expires_at: e.expires_at },
                            )
                        },
                        _ => r matches Err(x) && x@ == state_not_a_list() && final(self).entries() == m,
                    }
                }
            }),
    {
        proof {
            if self.consistent() {
                lemma_agree_writes(self.entries(), self.schedule(), self.upcoming_id(), key@);
            }
        }
        let ghost m0 = self.entries();
        let k = key.to_string();
        match self.entries.remove(&k) {
            Some(e) => match e.data {
                Data::List(mut l) => {
                    l.push_all(&values, left);
                    let n = l.len();
                    let _ = self.entries.insert(k, Entry { id: e.id, data: Data::List(l), expires_at: e.expires_at });
                    Ok(n)
                },
                data => {
                    let _ = self.entries.insert(k, Entry { id: e.id, data, expires_at: e.expires_at });
                    proof {
                        assert(self.entries() =~= m0);
                    }
                    Err("the value stored at key is not a list.".to_string())
                },
            },
            None => Ok(0),
        }
    }

    /// `LPOP` (`left`) or `RPOP` on the list stored under `key`: up to
    /// `count` values in the order they come off; nothing when nothing is
    /// stored.
    fn pop_existing(&mut self, key: &str, count: usize, left: bool) -> (r: Result<Option<Vec<Bytes>>, String>)
        ensures
            old(self).consistent() ==> final(self).consistent(),
            final(self).schedule() == old(self).schedule(),
            final(self).shutting_down() == old(self).shutting_down(),
            final(self).upcoming_id() == old(self).upcoming_id(),
            ({
                let m = old(self).entries();
                if !m.contains_key(key@) {
                    r matches Ok(None) && final(self).entries() == m
                } else {
                    let e = m[key@];
                    match e.data {
                        DataValue::List(l) => {
                            let n = if count < l.len() { count as int } else { l.len() as int };
                            &&& r matches Ok(Some(v)) && bytes_view(v@) == (if left { l.take(n) } else { l.skip(l.len() - n).reverse() })
                            &&& final(self).entries() == m.insert(
                                key@,
                                EntryValue {
                                    id: e.id,
                                    data: DataValue::List(if left { l.skip(n) } else { l.take(l.len() - n) }),
                                    expires_at: e.expires_at,
                                },
                            )
                        },
                        _ => r matches Err(x) && x@ == state_not_a_list() && final(self).entries() == m,
                    }
                }
            }),
    {
        proof {
            if self.consistent() {
                lemma_agree_writes(self.entries(), self.schedule(), self.upcoming_id(), key@);
            }
        }
        let ghost m0 = self.entries();
        let k = key.to_string();
        match self.entries.remove(&k) {
            Some(e) => match e.data {
                Data::List(mut l) => {
                    let vs = l.pop_some(count, left);
                    let _ = self.entries.insert(k, Entry { id: e.id, data: Data::List(l), expires_at: e.expires_at });
                    Ok(Some(vs))
                },
                data => {
                    let _ = self.entries.insert(k, Entry { id: e.id, data, expires_at: e.expires_at });
                    proof {
                        assert(self.entries() =~= m0);
                    }
                    Err("the value stored at key is not a list.".to_string())
                },
            },
            None => Ok(None),
        }
    }

    /// `LPUSHX`; see `push_existing`.
    pub fn lpushx(&mut self, key: &str, values: Vec<Bytes>) -> (r: Result<usize, String>)
        ensures
            old(self).consistent() ==> final(self).consistent(),
            final(self).schedule() == old(self).schedule(),
            final(self).shutting_down() == old(self).shutting_down(),
            final(self).upcoming_id() == old(self).upcoming_id(),
            ({
                let m = old(self).entries();
                if !m.contains_key(key@) {
                    r == Ok::<usize, String>(0) && final(self).entries() == m
                } else {
                    let e = m[key@];
                    match e.data {
                        DataValue::List(l) => {
                            let nl = bytes_view(values@).reverse() + l;
                            r == Ok::<usize, String>(nl.len() as usize) && final(self).entries() == m.insert(
                                key@,
                                EntryValue { id: e.id, data: DataValue::List(nl), expires_at: e.expires_at },
                            )
                        },
                        _ => r matches Err(x) && x@ == state_not_a_list() && final(self).entries() == m,
                    }
                }
            }),
    {
        self.push_existing(key, values, true)
    }

    /// `RPUSHX`; see `push_existing`.
    pub fn rpushx(&mut self, key: &str, values: Vec<Bytes>) -> (r: Result<usize, String>)
        ensures
            old(self).consistent() ==> final(self).consistent(),
            final(self).schedule() == old(self).schedule(),
            final(self).shutting_down() == old(self).shutting_down(),
            final(self).upcoming_id() == old(self).upcoming_id(),
            ({
                let m = old(self).entries();
                if !m.contains_key(key@) {
                    r == Ok::<usize, String>(0) && final(self).entries() == m
                } else {
                    let e = m[key@];
                    match e.data {
                        DataValue::List(l) => {
                            let nl = l + bytes_view(values@);
                            r == Ok::<usize, String>(nl.len() as usize) && final(self).entries() == m.insert(
                                key@,
                                EntryValue { id: e.id, data: DataValue::List(nl), expires_at: e.expires_at },
                            )
                        },
                        _ => r matches Err(x) && x@ == state_not_a_list() && final(self).entries() == m,
                    }
                }
            }),
    {
        self.push_existing(key, values, false)
    }

    /// `LPUSH`; see `push_or_new`.
    pub fn lpush(&mut self, key: String, values: Vec<Bytes>) -> (r: Result<usize, String>)
        requires
            !old(self).entries().contains_key(key@) ==> old(self).upcoming_id() < u64::MAX,
        ensures
            old(self).consistent() ==> final(self).consistent(),
            final(self).schedule() == old(self).schedule(),
            final(self).shutting_down() == old(self).shutting_down(),
            ({
                let m = old(self).entries();
                let e = if m.contains_key(key@) {
                    m[key@]
                } else {
                    EntryValue { id: old(self).upcoming_id(), data: DataValue::List(Seq::empty()), expires_at: None }
                };
                &&& final(self).upcoming_id() == old(self).upcoming_id() + (if m.contains_key(key@) { 0int } else { 1int })
                &&& match e.data {
                    DataValue::List(l) => {
                        let nl = bytes_view(values@).reverse() + l;
                        r == Ok::<usize, String>(nl.len() as usize) && final(self).entries() == m.insert(
                            key@,
                            EntryValue { id: e.id, data: DataValue::List(nl), expires_at: e.expires_at },
                        )
                    },
                    _ => r matches Err(x) && x@ == state_not_a_list() && final(self).entries() == m,
                }
            }),
    {
        self.push_or_new(key, values, true)
    }

    /// `RPUSH`; see `push_or_new`.
    pub fn rpush(&mut self, key: String, values: Vec<Bytes>) -> (r: Result<usize, String>)
        requires
            !old(self).entries().contains_key(key@) ==> old(self).upcoming_id() < u64::MAX,
        ensures
            old(self).consistent() ==> final(self).consistent(),
            final(self).schedule() == old(self).schedule(),
            final(self).shutting_down() == old(self).shutting_down(),
            ({
                let m = old(self).entries();
                let e = if m.contains_key(key@) {
                    m[key@]
                } else {
                    EntryValue { id: old(self).upcoming_id(), data: DataValue::List(Seq::empty()), expires_at: None }
                };
                &&& final(self).upcoming_id() == old(self).upcoming_id() + (if m.contains_key(key@) { 0int } else { 1int })
                &&& match e.data {
                    DataValue::List(l) => {
                        let nl = l + bytes_view(values@);
                        r == Ok::<usize, String>(nl.len() as usize) && final(self).entries() == m.insert(
                            key@,
                            EntryValue { id: e.id, data: DataValue::List(nl), expires_at: e.expires_at },
                        )
                    },
                    _ => r matches Err(x) && x@ == state_not_a_list() && final(self).entries() == m,
                }
            }),
    {
        self.push_or_new(key, values, false)
    }

    /// `LPOP`; see `pop_existing`.
    pub fn lpop(&mut self, key: &str, count: usize) -> (r: Result<Option<Vec<Bytes>>, String>)
        ensures
            old(self).consistent() ==> final(self).consistent(),
            final(self).schedule() == old(self).schedule(),
            final(self).shutting_down() == old(self).shutting_down(),
            final(self).upcoming_id() == old(self).upcoming_id(),
            ({
                let m = old(self).entries();
                if !m.contains_key(key@) {
                    r matches Ok(None) && final(self).entries() == m
                } else {
                    let e = m[key@];
                    match e.data {
                        DataValue::List(l) => {
                            let n = if count < l.len() { count as int } else { l.len() as int };
                            &&& r matches Ok(Some(v)) && bytes_view(v@) == l.take(n)
                            &&& final(self).entries() == m.insert(
                                key@,
                                EntryValue { id: e.id, data: DataValue::List(l.skip(n)), expires_at: e.expires_at },
                            )
                        },
                        _ => r matches Err(x) && x@ == state_not_a_list() && final(self).entries() == m,
                    }
                }
            }),
    {
        self.pop_existing(key, count, true)
    }

    /// `RPOP`; see `pop_existing`.
    pub fn rpop(&mut self, key: &str, count: usize) -> (r: Result<Option<Vec<Bytes>>, String>)
        ensures
            old(self).consistent() ==> final(self).consistent(),
            final(self).schedule() == old(self).schedule(),
            final(self).shutting_down() == old(self).shutting_down(),
            final(self).upcoming_id() == old(self).upcoming_id(),
            ({
                let m = old(self).entries();
                if !m.contains_key(key@) {
                    r matches Ok(None) && final(self).entries() == m
                } else {
                    let e = m[key@];
                    match e.data {
                        DataValue::List(l) => {
                            let n = if count < l.len() { count as int } else { l.len() as int };
                            &&& r matches Ok(Some(v)) && bytes_view(v@) == l.skip(l.len() - n).reverse()
                            &&& final(self).entries() == m.insert(
                                key@,
                                EntryValue { id: e.id, data: DataValue::List(l.take(l.len() - n)), expires_at: e.expires_at },
                            )
                        },
                        _ => r matches Err(x) && x@ == state_not_a_list() && final(self).entries() == m,
                    }
                }
            }),
    {
        self.pop_existing(key, count, false)
    }

    /// `LRANGE`: the values of the list under `key` that the inclusive range
    /// `start..=stop` covers; none when nothing is stored.
    pub fn lrange(&self, key: &str, start: i64, stop: i64) -> (r: Result<Vec<Bytes>, String>)
        ensures
            ({
                let m = self.entries();
                if !m.contains_key(key@) {
                    r matches Ok(v) && v@.len() == 0
                } else {
                    match m[key@].data {
                        DataValue::List(l) => {
                            let (b, e) = spec_shape(l.len() as int, start as int, stop as int);
                            r matches Ok(v) && bytes_view(v@) == l.subrange(b, e)
                        },
                        _ => r matches Err(x) && x@ == state_not_a_list(),
                    }
                }
            }),
    {
        match self.entries.get(&key.to_string()) {
            Some(e) => match &e.data {
                Data::List(l) => {
                    let (b, e) = l.shape(start, stop);
                    Ok(l.range_values(b, e))
                },
                _ => Err("the value stored at key is not a list.".to_string()),
            },
            None => Ok(Vec::new()),
        }
    }

    /// `LLEN`: the length of the list under `key`, 0 when nothing is stored.
    pub fn llen(&self, key: &str) -> (r: Result<usize, String>)
        ensures
            ({
                let m = self.entries();
                if !m.contains_key(key@) {
                    r == Ok::<usize, String>(0)
                } else {
                    match m[key@].data {
                        DataValue::List(l) => r == Ok::<usize, String>(l.len() as usize),
                        _ => r matches Err(x) && x@ == state_not_a_list(),
                    }
                }
            }),
    {
        match self.entries.get(&key.to_string()) {
            Some(e) => match &e.data {
                Data::List(l) => Ok(l.len()),
                _ => Err("the value stored at key is not a list.".to_string()),
            },
            None => Ok(0),
        }
    }
}

impl Number {
    /// Stores the number `value` under `key` with the next id and no expiry.
    fn insert_new(state: &mut State, key: String, value: i64)
        requires
            old(state).upcoming_id() < u64::MAX,
        ensures
            final(state).entries() == old(state).entries().insert(
                key@,
                EntryValue { id: old(state).upcoming_id(), data: DataValue::Number(value), expires_at: None },
            ),
            final(state).upcoming_id() == old(state).upcoming_id() + 1,
            final(state).schedule() == old(state).schedule(),
            final(state).shutting_down() == old(state).shutting_down(),
    {
        let id = state.next_id();
        let e = Entry { id, data: Data::Number(Number(value)), expires_at: None };
        let _ = state.entries.insert(key, e);
    }
}

} // verus!
