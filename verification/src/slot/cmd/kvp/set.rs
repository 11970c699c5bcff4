//! Setting pairs under a key.

use vstd::prelude::*;

use crate::slot::cmd::WriteResp;
use crate::slot::data_type::{CollectionType, DataType, DataView, Kvp, SimpleType, SimpleValue};
use crate::slot::dict::{Dict, Value, ValueView};
use crate::utils::options::NxXx;

verus! {

/// Write the pairs `entries` under `key`, under a condition on each pair's
/// key.
pub struct SetReq {
    pub key: SimpleType,
    pub entries: Vec<(SimpleType, SimpleType)>,
    pub nx_xx: NxXx,
}

/// How many pairs there were and are.
pub struct Resp {
    old_len: usize,
    new_len: usize,
}

impl Resp {
    /// The number of pairs before the write.
    pub closed spec fn before(&self) -> usize {
        self.old_len
    }

    /// The number of pairs the write reports after it.
    pub closed spec fn after(&self) -> usize {
        self.new_len
    }

    /// The number of pairs before the write.
    pub fn old_len(&self) -> (r: usize)
        ensures
            r == self.before(),
    {
        self.old_len
    }

    /// The number of pairs the write reports after it.
    pub fn new_len(&self) -> (r: usize)
        ensures
            r == self.after(),
    {
        self.new_len
    }
}

/// Whether the pair for `k` is written into the pairs `m`: `NX` only for a
/// new key, `XX` only for an existing one.
pub open spec fn pair_written(m: Map<SimpleValue, SimpleValue>, k: SimpleValue, nx_xx: NxXx) -> bool {
    match nx_xx {
        NxXx::Nx => !m.contains_key(k),
        NxXx::Xx => m.contains_key(k),
        NxXx::NoCondition => true,
    }
}

/// The pairs `m` after the pairs `es` are written in turn.
pub open spec fn pairs_after(m: Map<SimpleValue, SimpleValue>, es: Seq<(SimpleValue, SimpleValue)>, nx_xx: NxXx) -> Map<
    SimpleValue,
    SimpleValue,
>
    decreases es.len(),
{
    if es.len() == 0 {
        m
    } else {
        let m0 = pairs_after(m, es.drop_last(), nx_xx);
        let (k, v) = es.last();
        if pair_written(m0, k, nx_xx) {
            m0.insert(k, v)
        } else {
            m0
        }
    }
}

/// Pairs, as mathematical values.
pub open spec fn pairs_view(s: Seq<(SimpleType, SimpleType)>) -> Seq<(SimpleValue, SimpleValue)> {
    s.map_values(|p: (SimpleType, SimpleType)| (p.0@, p.1@))
}

/// The entry the write works on: the one stored under `k`, expired or not,
/// or new empty pairs with id `id` and no expiry.
pub open spec fn kvp_entry(m: Map<SimpleValue, ValueView>, k: SimpleValue, id: u64) -> ValueView {
    if m.contains_key(k) {
        m[k]
    } else {
        ValueView { id, data: DataView::Kvp(Map::empty()), expire_at: None }
    }
}

impl SetReq {
    /// Applies the write with id `id`: writes the pairs of `entries` in turn
    /// into the pairs stored under the key, expired or not, which are first
    /// started empty with the id and no expiry where nothing is stored; `NX`
    /// and `XX` decide by each pair's key. The entry keeps its id and expiry.
    /// Answers the number of pairs before and after; anything else stored is
    /// the error "error type", with nothing changed.
    pub fn apply(self, id: u64, dict: &mut Dict) -> (r: Result<WriteResp<Resp>, String>)
        ensures
            ({
                let m = old(dict)@;
                let k = self.key@;
                let e = kvp_entry(m, k, id);
                match e.data {
                    DataView::Kvp(p) => {
                        let p2 = pairs_after(p, pairs_view(self.entries@), self.nx_xx);
                        &&& r matches Ok(w) && w.new_expires_at is None && w.payload.before() == p.dom().len()
                            && w.payload.after() == p2.dom().len()
                        &&& final(dict)@ == m.insert(k, ValueView { id: e.id, data: DataView::Kvp(p2), expire_at: e.expire_at })
                    },
                    _ => r matches Err(x) && x@ == "error type"@ && final(dict)@ == m,
                }
            }),
    {
        let ghost m0 = dict@;
        let (mut kvp, vid, ea) = match dict.remove(&self.key) {
            Some(v) => match v.data {
                DataType::CollectionType(CollectionType::Kvp(p)) => (p, v.id, v.expire_at),
                data => {
                    let _ = dict.insert(self.key, Value { id: v.id, data, expire_at: v.expire_at });
                    proof {
                        assert(dict@ =~= m0);
                    }
                    return Err("error type".to_string());
                },
            },
            None => (Kvp::new(), id, None),
        };
        let ghost p0 = kvp@;
        let ghost es = pairs_view(self.entries@);
        let old_len = kvp.len();
        let mut i: usize = 0;
        proof {
            assert(es.take(0) =~= Seq::<(SimpleValue, SimpleValue)>::empty());
        }
        while i < self.entries.len()
            invariant
                0 <= i <= self.entries@.len(),
                es == pairs_view(self.entries@),
                kvp@ == pairs_after(p0, es.take(i as int), self.nx_xx),
            decreases self.entries@.len() - i,
        {
            proof {
                assert(es.take(i + 1).drop_last() =~= es.take(i as int));
                assert(es.take(i + 1).last() == es[i as int]);
            }
            let (k, v) = &self.entries[i];
            let write = match self.nx_xx {
                NxXx::Nx => kvp.get(k).is_none(),
                NxXx::Xx => kvp.get(k).is_some(),
                NxXx::NoCondition => true,
            };
            if write {
                kvp.insert_mut(k.duplicate(), v.duplicate());
            }
            i += 1;
        }
        proof {
            assert(es.take(self.entries@.len() as int) =~= es);
        }
        let new_len = kvp.len();
        let _ = dict.insert(
            self.key,
            Value { id: vid, data: DataType::CollectionType(CollectionType::Kvp(kvp)), expire_at: ea },
        );
        Ok(WriteResp { new_expires_at: None, payload: Resp { old_len, new_len } })
    }
}

} // verus!
