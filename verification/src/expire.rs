//! Expirations of the slot layer: which key of which slot expires when.
//!
//! The purge drops the expirations that are due and tells when the next
//! one is.

use vstd::prelude::*;

use crate::slot::data_type::{SimpleType, SimpleValue};

verus! {

/// A key of a slot, due to expire at an instant, for the entry with the
/// given id.
pub struct Entry {
    pub expires_at: i64,
    pub slot: u16,
    pub id: u64,
    pub key: SimpleType,
}

/// An expiration, as a mathematical value.
pub struct EntryView {
    pub expires_at: i64,
    pub slot: u16,
    pub id: u64,
    pub key: SimpleValue,
}

impl View for Entry {
    type V = EntryView;

    open spec fn view(&self) -> EntryView {
        EntryView { expires_at: self.expires_at, slot: self.slot, id: self.id, key: self.key@ }
    }
}

/// The earliest instant among the expirations `s`, if there is one.
pub open spec fn earliest(s: vstd::set::Set<EntryView>, r: Option<i64>) -> bool {
    match r {
        None => s == vstd::set::Set::<EntryView>::empty(),
        Some(t) => (exists|e: EntryView| #[trigger] s.contains(e) && e.expires_at == t) && forall|
            e: EntryView,
        | #[trigger] s.contains(e) ==> t <= e.expires_at,
    }
}

/// Expirations, as mathematical values.
pub open spec fn views(s: Seq<Entry>) -> Seq<EntryView> {
    s.map_values(|e: Entry| e@)
}

/// The scheduled expirations, each once.
pub struct Expiration {
    data: Vec<Entry>,
}

impl View for Expiration {
    type V = vstd::set::Set<EntryView>;

    closed spec fn view(&self) -> vstd::set::Set<EntryView> {
        self.data@.map_values(|e: Entry| e@).to_set()
    }
}

impl Entry {
    fn same(&self, other: &Entry) -> (r: bool)
        ensures
            r == (self@ == other@),
    {
        self.expires_at == other.expires_at && self.slot == other.slot && self.id == other.id
            && self.key.same(&other.key)
    }
}

impl Expiration {
    /// No expirations.
    pub fn new() -> (r: Expiration)
        ensures
            r@ == vstd::set::Set::<EntryView>::empty(),
    {
        let r = Expiration { data: Vec::new() };
        assert(r@ =~= vstd::set::Set::<EntryView>::empty());
        r
    }

    /// The earliest instant at which an expiration is due.
    pub fn next_expiration(&self) -> (r: Option<i64>)
        ensures
            earliest(self@, r),
    {
        let ghost v = self.data@.map_values(|e: Entry| e@);
        let mut best: Option<i64> = None;
        let mut i: usize = 0;
        while i < self.data.len()
            invariant
                v == self.data@.map_values(|e: Entry| e@),
                0 <= i <= self.data@.len(),
                best is None <==> i == 0,
                forall|j: int| 0 <= j < i ==> best.unwrap() <= #[trigger] v[j].expires_at,
                best matches Some(t) ==> exists|j: int| 0 <= j < i && #[trigger] v[j].expires_at == t,
            decreases self.data@.len() - i,
        {
            let t = self.data[i].expires_at;
            proof {
                assert(v[i as int].expires_at == t);
            }
            match best {
                Some(b) => {
                    if t < b {
                        best = Some(t);
                    }
                },
                None => {
                    best = Some(t);
                },
            }
            i += 1;
        }
        proof {
            let s = self@;
            match best {
                None => {
                    assert(s =~= vstd::set::Set::<EntryView>::empty()) by {
                        assert(v.len() == 0);
                    }
                },
                Some(t) => {
                    let j = choose|j: int| 0 <= j < i && #[trigger] v[j].expires_at == t;
                    assert(s.contains(v[j]));
                    assert forall|e: EntryView| #[trigger] s.contains(e) implies t <= e.expires_at by {
                        let k = choose|k: int| 0 <= k < v.len() && v[k] == e;
                        assert(t <= v[k].expires_at);
                    }
                },
            }
        }
        best
    }

    /// Schedules `e`, answering whether it is due before every expiration
    /// scheduled so far, so that the purge should wake.
    pub fn receive(&mut self, e: Entry) -> (need_notify: bool)
        ensures
            final(self)@ == old(self)@.insert(e@),
            need_notify == forall|x: EntryView| #[trigger] old(self)@.contains(x) ==> x.expires_at > e.expires_at,
    {
        let next = self.next_expiration();
        let need_notify = match next {
            Some(t) => t > e.expires_at,
            None => true,
        };
        proof {
            let s = self@;
            match next {
                Some(t) => {
                    let w = choose|x: EntryView| #[trigger] s.contains(x) && x.expires_at == t;
                    assert(need_notify == forall|x: EntryView| #[trigger] s.contains(x) ==> x.expires_at
                        > e.expires_at) by {
                        if !need_notify {
                            assert(s.contains(w));
                        }
                    }
                },
                None => {},
            }
        }
        let ghost v0 = self.data@.map_values(|x: Entry| x@);
        let mut i: usize = 0;
        while i < self.data.len()
            invariant
                v0 == self.data@.map_values(|x: Entry| x@),
                self@ == old(self)@,
                need_notify == forall|x: EntryView| #[trigger] old(self)@.contains(x) ==> x.expires_at
                    > e.expires_at,
                0 <= i <= self.data@.len(),
                forall|j: int| 0 <= j < i ==> v0[j] != e@,
            decreases self.data@.len() - i,
        {
            if self.data[i].same(&e) {
                proof {
                    assert(v0[i as int] == e@);
                    assert(v0.contains(e@));
                    assert(self@.contains(e@));
                    assert(self@.insert(e@) =~= self@);
                }
                return need_notify;
            }
            i += 1;
        }
        let ghost ev = e@;
        self.data.push(e);
        proof {
            let v1 = self.data@.map_values(|x: Entry| x@);
            assert(v1 =~= v0.push(ev));
            v0.lemma_push_to_set_commute(ev);
        }
        need_notify
    }

    /// Drops every expiration due at `now` and answers when the next of the
    /// others is due.
    pub fn purge_expired_keys(&mut self, now: i64) -> (r: Option<i64>)
        ensures
            final(self)@ == old(self)@.filter(|x: EntryView| x.expires_at > now),
            earliest(final(self)@, r),
    {
        let ghost s0 = self@;
        let mut data: Vec<Entry> = Vec::new();
        std::mem::swap(&mut data, &mut self.data);
        let ghost v = data@.map_values(|e: Entry| e@);
        let mut kept: Vec<Entry> = Vec::new();
        let mut i: usize = 0;
        proof {
            assert(v.to_set() == s0);
        }
        while i < data.len()
            invariant
                0 <= i <= data@.len(),
                v == data@.map_values(|e: Entry| e@),
                forall|x: EntryView| #[trigger] views(kept@).to_set().contains(x) <==> (exists|j: int|
                    0 <= j < i && v[j] == x) && x.expires_at > now,
            decreases data@.len() - i,
        {
            let ghost k0 = views(kept@);
            if data[i].expires_at > now {
                let e = Entry {
                    expires_at: data[i].expires_at,
                    slot: data[i].slot,
                    id: data[i].id,
                    key: data[i].key.duplicate(),
                };
                kept.push(e);
                proof {
                    let k1 = views(kept@);
                    assert(k1 =~= k0.push(v[i as int]));
                    assert forall|x: EntryView| #[trigger] k1.to_set().contains(x) <==> (exists|j: int|
                        0 <= j < i + 1 && v[j] == x) && x.expires_at > now by {
                        if k1.to_set().contains(x) {
                            let a = choose|a: int| 0 <= a < k1.len() && k1[a] == x;
                            if a < k0.len() {
                                assert(k0[a] == x);
                                assert(k0.to_set().contains(x));
                            } else {
                                assert(v[i as int] == x);
                            }
                        }
                        if (exists|j: int| 0 <= j < i + 1 && v[j] == x) && x.expires_at > now {
                            let j = choose|j: int| 0 <= j < i + 1 && v[j] == x;
                            if j < i {
                                assert(k0.to_set().contains(x));
                                let a = choose|a: int| 0 <= a < k0.len() && k0[a] == x;
                                assert(k1[a] == x);
                            } else {
                                assert(k1[k0.len() as int] == x);
                            }
                        }
                    }
                }
            } else {
                proof {
                    assert forall|x: EntryView| #[trigger] k0.to_set().contains(x) <==> (exists|j: int|
                        0 <= j < i + 1 && v[j] == x) && x.expires_at > now by {
                        if (exists|j: int| 0 <= j < i + 1 && v[j] == x) && x.expires_at > now {
                            let j = choose|j: int| 0 <= j < i + 1 && v[j] == x;
                            assert(j < i);
                        }
                        if k0.to_set().contains(x) {
                            let j = choose|j: int| 0 <= j < i && v[j] == x;
                            assert(0 <= j < i + 1 && v[j] == x);
                        }
                    }
                }
            }
            i += 1;
        }
        self.data = kept;
        proof {
            assert(self@ == views(self.data@).to_set());
            assert forall|x: EntryView| self@.contains(x) <==> s0.filter(|y: EntryView| y.expires_at > now).contains(
                x,
            ) by {
                assert(views(self.data@).to_set().contains(x) <==> (exists|j: int| 0 <= j < data@.len() && v[j] == x)
                    && x.expires_at > now);
                if s0.contains(x) {
                    let j = choose|j: int| 0 <= j < v.len() && v[j] == x;
                    assert(0 <= j < data@.len() && v[j] == x);
                }
                if exists|j: int| 0 <= j < data@.len() && v[j] == x {
                    let j = choose|j: int| 0 <= j < data@.len() && v[j] == x;
                    assert(v.to_set().contains(v[j]));
                }
            }
            assert(self@ =~= s0.filter(|y: EntryView| y.expires_at > now));
        }
        self.next_expiration()
    }
}

} // verus!
