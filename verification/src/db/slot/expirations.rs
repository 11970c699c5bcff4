//! Key expirations: which key is due to expire when, and the purge of the
//! keys whose time has come.

use vstd::prelude::*;

use super::dict::{Dict, EntryView};
use crate::db::data_type::{SimpleType, SimpleValue};
use crate::utils::keymap::{Key, KeyMap};

verus! {

/// A key to expire at an instant, for the entry with the given id.
pub struct ExpirationEntry {
    pub id: u64,
    pub key: SimpleType,
    pub expires_at: i64,
}

/// When an expiration is due and which entry it is for.
#[derive(Clone, Copy, PartialEq, Eq, Structural)]
pub struct ExpirationKey {
    pub expires_at: i64,
    pub id: u64,
}

impl View for ExpirationKey {
    type V = ExpirationKey;

    open spec fn view(&self) -> ExpirationKey {
        *self
    }
}

impl Key for ExpirationKey {
    fn same_key(&self, other: &Self) -> (r: bool) {
        *self == *other
    }

    fn copy_key(&self) -> (r: Self) {
        *self
    }
}

/// The scheduled expirations: at most one key per instant and id.
pub struct Expiration {
    data: KeyMap<ExpirationKey, SimpleType>,
}

/// Whether an expired expiration in `q` removes the key `k` from `m`: one
/// whose instant is not after `now`, for the key `k`, with the id of the
/// entry stored under `k`.
pub open spec fn purged_by(
    m: Map<SimpleValue, EntryView>,
    q: Map<ExpirationKey, SimpleValue>,
    k: SimpleValue,
    now: i64,
) -> bool {
    exists|ek: ExpirationKey|
        #[trigger] q.contains_key(ek) && ek.expires_at <= now && q[ek] == k && m.contains_key(k)
            && m[k].id == ek.id
}

/// The entries that remain once the due expirations of `q` have run.
pub open spec fn spec_purge(
    m: Map<SimpleValue, EntryView>,
    q: Map<ExpirationKey, SimpleValue>,
    now: i64,
) -> Map<SimpleValue, EntryView> {
    Map::new(|k: SimpleValue| m.contains_key(k) && !purged_by(m, q, k, now), |k: SimpleValue| m[k])
}

/// The expirations that are not yet due.
pub open spec fn pending_after(q: Map<ExpirationKey, SimpleValue>, now: i64) -> Map<
    ExpirationKey,
    SimpleValue,
> {
    q.restrict(q.dom().filter(|ek: ExpirationKey| ek.expires_at > now))
}

/// The earliest instant of `q`, if it has any.
pub open spec fn is_earliest(q: Map<ExpirationKey, SimpleValue>, r: Option<i64>) -> bool {
    match r {
        None => q.dom() == vstd::set::Set::<ExpirationKey>::empty(),
        Some(t) => (exists|ek: ExpirationKey| #[trigger] q.contains_key(ek) && ek.expires_at == t)
            && forall|ek: ExpirationKey| #[trigger] q.contains_key(ek) ==> t <= ek.expires_at,
    }
}

impl View for Expiration {
    type V = Map<ExpirationKey, SimpleValue>;

    closed spec fn view(&self) -> Map<ExpirationKey, SimpleValue> {
        self.data.spec_map()
    }
}

impl Expiration {
    /// No expirations.
    pub fn new() -> (r: Expiration)
        ensures
            r@ == Map::<ExpirationKey, SimpleValue>::empty(),
    {
        Expiration { data: KeyMap::new() }
    }

    /// The earliest instant at which a key is due to expire.
    pub fn next_expiration(&self) -> (r: Option<i64>)
        ensures
            is_earliest(self@, r),
    {
        let n = self.data.len();
        let mut best: Option<i64> = None;
        let mut i: usize = 0;
        while i < n
            invariant
                n == self.data.entry_views().len(),
                0 <= i <= n,
                best is None <==> i == 0,
                forall|j: int|
                    0 <= j < i ==> best.unwrap() <= #[trigger] self.data.entry_views()[j].0.expires_at,
                best matches Some(t) ==> exists|j: int|
                    0 <= j < i && #[trigger] self.data.entry_views()[j].0.expires_at == t,
            decreases n - i,
        {
            let (k, _) = self.data.pair_at(i);
            let t = k.expires_at;
            match best {
                Some(b) => {
                    if t < b {
                        best = Some(t);
                    }
                },
                None => {
                    best = Some(t);
                },
            }
            i += 1;
        }
        proof {
            let ev = self.data.entry_views();
            match best {
                None => {
                    assert(self@.dom() =~= vstd::set::Set::<ExpirationKey>::empty()) by {
                        if exists|ek: ExpirationKey| self@.contains_key(ek) {
                            let ek = choose|ek: ExpirationKey| self@.contains_key(ek);
                            let j = choose|j: int| 0 <= j < ev.len() && (#[trigger] ev[j]).0 == ek;
                        }
                    }
                },
                Some(t) => {
                    let j = choose|j: int| 0 <= j < i && #[trigger] ev[j].0.expires_at == t;
                    assert(self@.contains_key(ev[j].0));
                    assert forall|ek: ExpirationKey| #[trigger] self@.contains_key(ek) implies t
                        <= ek.expires_at by {
                        let j2 = choose|j2: int| 0 <= j2 < ev.len() && (#[trigger] ev[j2]).0 == ek;
                        assert(t <= ev[j2].0.expires_at);
                    }
                },
            }
        }
        best
    }

    /// Schedules `key` to expire at `expires_at` for the entry `id`; an
    /// expiration already scheduled for the same instant and id is
    /// replaced. Answers whether the new expiration is due before every other
    /// one, so that whoever waits for the next expiration should wake.
    pub fn schedule(&mut self, entry: ExpirationEntry) -> (need_notify: bool)
        ensures
            final(self)@ == old(self)@.insert(
                ExpirationKey { expires_at: entry.expires_at, id: entry.id },
                entry.key@,
            ),
            need_notify == match old(self).spec_next() {
                Some(t) => t > entry.expires_at,
                None => true,
            },
    {
        let need_notify = match self.next_expiration() {
            Some(t) => t > entry.expires_at,
            None => true,
        };
        proof {
            self.lemma_next_unique();
        }
        self.data.insert(ExpirationKey { expires_at: entry.expires_at, id: entry.id }, entry.key);
        need_notify
    }

    /// The earliest instant of the schedule.
    pub closed spec fn spec_next(self) -> Option<i64> {
        choose|r: Option<i64>| is_earliest(self@, r)
    }

    proof fn lemma_next_unique(self)
        ensures
            forall|r: Option<i64>| is_earliest(self@, r) ==> r == self.spec_next(),
    {
        assert forall|r: Option<i64>| is_earliest(self@, r) implies r == self.spec_next() by {
            let s = self.spec_next();
            assert(is_earliest(self@, s));
            match (r, s) {
                (Some(a), Some(b)) => {
                    let ea = choose|ek: ExpirationKey| #[trigger] self@.contains_key(ek) && ek.expires_at == a;
                    let eb = choose|ek: ExpirationKey| #[trigger] self@.contains_key(ek) && ek.expires_at == b;
                    assert(a <= eb.expires_at);
                    assert(b <= ea.expires_at);
                },
                (Some(a), None) => {
                    let ea = choose|ek: ExpirationKey| #[trigger] self@.contains_key(ek) && ek.expires_at == a;
                    assert(self@.dom().contains(ea));
                },
                (None, Some(b)) => {
                    let eb = choose|ek: ExpirationKey| #[trigger] self@.contains_key(ek) && ek.expires_at == b;
                    assert(self@.dom().contains(eb));
                },
                (None, None) => {},
            }
        }
    }

    /// Moves the expiration of the entry `id` from `pre_time` to `new_time`,
    /// answering whether it was scheduled at `pre_time`.
    pub fn update(&mut self, id: u64, pre_time: i64, new_time: i64) -> (r: bool)
        ensures
            r == old(self)@.contains_key(ExpirationKey { expires_at: pre_time, id }),
            r ==> final(self)@ == old(self)@.remove(ExpirationKey { expires_at: pre_time, id }).insert(
                ExpirationKey { expires_at: new_time, id },
                old(self)@[ExpirationKey { expires_at: pre_time, id }],
            ),
            !r ==> final(self)@ == old(self)@,
    {
        let key = match self.data.remove(&ExpirationKey { expires_at: pre_time, id }) {
            Some(k) => k,
            None => {
                return false;
            },
        };
        self.data.insert(ExpirationKey { expires_at: new_time, id }, key);
        true
    }

    /// An expiration that is due at `now`.
    fn find_due(&self, now: i64) -> (r: Option<ExpirationKey>)
        ensures
            r matches Some(ek) ==> self@.contains_key(ek) && ek.expires_at <= now,
            r is None ==> forall|ek: ExpirationKey| #[trigger] self@.contains_key(ek) ==> ek.expires_at
                > now,
    {
        let n = self.data.len();
        let mut i: usize = 0;
        while i < n
            invariant
                n == self.data.entry_views().len(),
                0 <= i <= n,
                forall|j: int|
                    0 <= j < i ==> #[trigger] self.data.entry_views()[j].0.expires_at > now,
                forall|j: int|
                    0 <= j < n ==> #[trigger] self.data.spec_map().contains_key(
                        self.data.entry_views()[j].0,
                    ),
            decreases n - i,
        {
            let (k, _) = self.data.pair_at(i);
            if k.expires_at <= now {
                proof {
                    assert(self.data.spec_map().contains_key(self.data.entry_views()[i as int].0));
                }
                return Some(*k);
            }
            i += 1;
        }
        proof {
            let ev = self.data.entry_views();
            assert forall|ek: ExpirationKey| #[trigger] self@.contains_key(ek) implies ek.expires_at
                > now by {
                let j = choose|j: int| 0 <= j < ev.len() && (#[trigger] ev[j]).0 == ek;
                assert(ev[j].0.expires_at > now);
            }
        }
        None
    }

    /// Removes from `dict` every key whose expiration is due at `now` and
    /// still belongs to the entry stored under it, drops the due
    /// expirations, and answers the instant at which the next one is due.
    pub fn purge_expired_keys(&mut self, dict: &mut Dict, now: i64) -> (r: Option<i64>)
        ensures
            final(dict)@ == spec_purge(old(dict)@, old(self)@, now),
            final(self)@ == pending_after(old(self)@, now),
            is_earliest(final(self)@, r),
    {
        let ghost q0 = self@;
        let ghost m = dict@;
        proof {
            assert(q0.remove_keys(self@.dom()) =~= Map::<ExpirationKey, SimpleValue>::empty());
            assert(dict@ =~= spec_purge(m, Map::<ExpirationKey, SimpleValue>::empty(), now));
        }
        let _ = self.data.len();
        loop
            invariant
                self@.dom().finite(),
                self@.dom().subset_of(q0.dom()),
                forall|ek: ExpirationKey| #[trigger] self@.contains_key(ek) ==> self@[ek] == q0[ek],
                forall|ek: ExpirationKey|
                    #[trigger] q0.contains_key(ek) && !self@.contains_key(ek) ==> ek.expires_at
                        <= now,
                dict@ == spec_purge(m, q0.remove_keys(self@.dom()), now),
            ensures
                forall|ek: ExpirationKey| #[trigger] self@.contains_key(ek) ==> ek.expires_at > now,
            decreases self@.dom().len(),
        {
            let due = self.find_due(now);
            match due {
                None => {
                    break;
                },
                Some(ek) => {
                    let ghost before = self@;
                    let ghost before_dict = dict@;
                    let key = match self.data.remove(&ek) {
                        Some(k) => k,
                        None => {
                            proof {
                                assert(false);
                            }
                            return None;
                        },
                    };
                    let mut matches_entry = false;
                    match dict.get_any(&key) {
                        Some(e) => {
                            if e.id == ek.id {
                                matches_entry = true;
                            }
                        },
                        None => {},
                    }
                    if matches_entry {
                        dict.remove(&key);
                    }
                    let _ = self.data.len();
                    proof {
                        let p_old = q0.remove_keys(before.dom());
                        let p_new = q0.remove_keys(self@.dom());
                        assert(self@.dom() =~= before.dom().remove(ek));
                        assert(p_new =~= p_old.insert(ek, key@));
                        let target = spec_purge(m, p_new, now);
                        assert forall|k: SimpleValue| #[trigger] dict@.contains_key(k)
                            <==> target.contains_key(k) by {
                            if dict@.contains_key(k) {
                                assert(before_dict.contains_key(k));
                                if purged_by(m, p_new, k, now) {
                                    let w = choose|w: ExpirationKey|
                                        #[trigger] p_new.contains_key(w) && w.expires_at <= now
                                            && p_new[w] == k && m.contains_key(k) && m[k].id
                                            == w.id;
                                    if w != ek {
                                        assert(p_old.contains_key(w));
                                        assert(purged_by(m, p_old, k, now));
                                    }
                                }
                            }
                            if target.contains_key(k) {
                                assert(!purged_by(m, p_old, k, now)) by {
                                    if purged_by(m, p_old, k, now) {
                                        let w = choose|w: ExpirationKey|
                                            #[trigger] p_old.contains_key(w) && w.expires_at
                                                <= now && p_old[w] == k && m.contains_key(k)
                                                && m[k].id == w.id;
                                        assert(p_new.contains_key(w));
                                    }
                                }
                                assert(before_dict.contains_key(k));
                                if k == key@ && matches_entry {
                                    assert(purged_by(m, p_new, k, now)) by {
                                        assert(p_new.contains_key(ek));
                                    }
                                }
                            }
                        }
                        assert(dict@ =~= target);
                    }
                },
            }
        }
        proof {
            let p = q0.remove_keys(self@.dom());
            assert forall|k: SimpleValue| purged_by(m, p, k, now) <==> purged_by(
                m,
                q0,
                k,
                now,
            ) by {
                if purged_by(m, q0, k, now) {
                    let w = choose|w: ExpirationKey|
                        #[trigger] q0.contains_key(w) && w.expires_at <= now && q0[w] == k
                            && m.contains_key(k) && m[k].id == w.id;
                    assert(p.contains_key(w));
                }
                if purged_by(m, p, k, now) {
                    let w = choose|w: ExpirationKey|
                        #[trigger] p.contains_key(w) && w.expires_at <= now && p[w] == k
                            && m.contains_key(k) && m[k].id == w.id;
                    assert(q0.contains_key(w));
                }
            }
            assert(dict@ =~= spec_purge(m, q0, now));
            assert(self@ =~= pending_after(q0, now));
        }
        self.next_expiration()
    }
}

} // verus!
