//! `ZADD` on a slot.

use vstd::prelude::*;

use crate::slot::cmd::WriteResp;
use crate::slot::data_type::sorted_set::{agree, zset_consistent, nodes_sorted, nodes_view, Node, NodeView, SortedSet, SortedSetView};
use crate::slot::data_type::{CollectionType, DataType, DataView, SimpleType, SimpleValue};
use crate::slot::dict::{live_value, Dict, Value, ValueView};
use crate::utils::options::{GtLt, NxXx};

verus! {

/// Add `nodes` to the sorted set under `key`, under conditions.
pub struct Req {
    pub key: SimpleType,
    pub nodes: Vec<Node>,
    /// `XX`: only update members that exist; `NX`: only add new members.
    pub nx_xx: NxXx,
    /// `LT` / `GT`: only update a member whose new score is less / greater;
    /// new members are still added, unless `XX` holds them back.
    pub gt_lt: GtLt,
    pub incr: bool,
}

/// The number of members before and after, and how many nodes were written.
pub struct Resp {
    pub old_len: usize,
    pub new_len: usize,
    pub update_len: usize,
}

/// A sorted set while `ZADD` works through its nodes: the node of each
/// member, the nodes in order as a set, and how many nodes were written.
pub struct AddState {
    pub hash: Map<SimpleValue, NodeView>,
    pub value: vstd::set::Set<NodeView>,
    pub updated: nat,
}

/// Whether `ZADD` writes node `n`, given the members' nodes `h`.
pub open spec fn can_update(h: Map<SimpleValue, NodeView>, n: NodeView, nx_xx: NxXx, gt_lt: GtLt) -> bool {
    match (nx_xx, gt_lt) {
        (NxXx::Nx, GtLt::NoCondition) => !h.contains_key(n.key),
        (NxXx::Nx, _) => false,
        (_, GtLt::Gt) => if h.contains_key(n.key) {
            h[n.key].score < n.score
        } else {
            nx_xx is NoCondition
        },
        (_, GtLt::Lt) => if h.contains_key(n.key) {
            h[n.key].score > n.score
        } else {
            nx_xx is NoCondition
        },
        (NxXx::Xx, GtLt::NoCondition) => h.contains_key(n.key),
        (NxXx::NoCondition, GtLt::NoCondition) => true,
    }
}

/// `ZADD` on node `n`: the member's node becomes `n`, whose score, with
/// `incr`, has the old score added; in order, the old node makes way for
/// it.
pub open spec fn add_step(st: AddState, n: NodeView, nx_xx: NxXx, gt_lt: GtLt, incr: bool) -> AddState {
    if can_update(st.hash, n, nx_xx, gt_lt) {
        if st.hash.contains_key(n.key) {
            let on = st.hash[n.key];
            let n2 = if incr { NodeView { key: n.key, score: (n.score + on.score) as i64 } } else { n };
            AddState { hash: st.hash.insert(n.key, n2), value: st.value.remove(on).insert(n2), updated: st.updated + 1 }
        } else {
            AddState { hash: st.hash.insert(n.key, n), value: st.value.insert(n), updated: st.updated + 1 }
        }
    } else {
        st
    }
}

/// `ZADD` on the nodes `ns` in turn.
pub open spec fn add_all(st: AddState, ns: Seq<NodeView>, nx_xx: NxXx, gt_lt: GtLt, incr: bool) -> AddState
    decreases ns.len(),
{
    if ns.len() == 0 {
        st
    } else {
        add_step(add_all(st, ns.drop_last(), nx_xx, gt_lt, incr), ns.last(), nx_xx, gt_lt, incr)
    }
}

/// Whether every score sum `ZADD` makes on `ns` fits in an `i64`.
pub open spec fn add_fits(st: AddState, ns: Seq<NodeView>, nx_xx: NxXx, gt_lt: GtLt, incr: bool) -> bool
    decreases ns.len(),
{
    ns.len() == 0 || (add_fits(st, ns.drop_last(), nx_xx, gt_lt, incr) && ({
        let s = add_all(st, ns.drop_last(), nx_xx, gt_lt, incr);
        let n = ns.last();
        can_update(s.hash, n, nx_xx, gt_lt) && incr && s.hash.contains_key(n.key) ==> i64::MIN <= n.score
            + s.hash[n.key].score <= i64::MAX
    }))
}

proof fn lemma_add_fits_prefix(st: AddState, ns: Seq<NodeView>, n: int, nx_xx: NxXx, gt_lt: GtLt, incr: bool)
    requires
        add_fits(st, ns, nx_xx, gt_lt, incr),
        0 <= n <= ns.len(),
    ensures
        add_fits(st, ns.take(n), nx_xx, gt_lt, incr),
    decreases ns.len(),
{
    if n < ns.len() {
        assert(ns.drop_last().take(n) =~= ns.take(n));
        lemma_add_fits_prefix(st, ns.drop_last(), n, nx_xx, gt_lt, incr);
    } else {
        assert(ns.take(n) =~= ns);
    }
}

/// `ZADD` with `XX` never adds a member, whatever `GT`/`LT` say: the
/// members after it are exactly those before.
pub proof fn lemma_zadd_xx_adds_nothing(st: AddState, ns: Seq<NodeView>, gt_lt: GtLt, incr: bool)
    ensures
        add_all(st, ns, NxXx::Xx, gt_lt, incr).hash.dom() == st.hash.dom(),
    decreases ns.len(),
{
    if ns.len() > 0 {
        lemma_zadd_xx_adds_nothing(st, ns.drop_last(), gt_lt, incr);
        let s0 = add_all(st, ns.drop_last(), NxXx::Xx, gt_lt, incr);
        let n = ns.last();
        if can_update(s0.hash, n, NxXx::Xx, gt_lt) {
            assert(s0.hash.contains_key(n.key));
            assert(add_step(s0, n, NxXx::Xx, gt_lt, incr).hash.dom() =~= s0.hash.dom());
        }
    }
}

/// `ZADD` with `NX` never touches a member that exists: its node stays as
/// it was.
pub proof fn lemma_zadd_nx_keeps_members(st: AddState, ns: Seq<NodeView>, gt_lt: GtLt, incr: bool)
    ensures
        forall|k: SimpleValue| #[trigger] st.hash.contains_key(k) ==> add_all(st, ns, NxXx::Nx, gt_lt, incr).hash.contains_key(k)
            && add_all(st, ns, NxXx::Nx, gt_lt, incr).hash[k] == st.hash[k],
    decreases ns.len(),
{
    if ns.len() > 0 {
        lemma_zadd_nx_keeps_members(st, ns.drop_last(), gt_lt, incr);
        let s0 = add_all(st, ns.drop_last(), NxXx::Nx, gt_lt, incr);
        let n = ns.last();
        if can_update(s0.hash, n, NxXx::Nx, gt_lt) {
            assert(!st.hash.contains_key(n.key));
        }
    }
}

/// `ZADD` with `GT` and without `INCR` only ever raises the score of a
/// member that exists, and it stays a member.
pub proof fn lemma_zadd_gt_only_raises(st: AddState, ns: Seq<NodeView>, nx_xx: NxXx)
    ensures
        forall|k: SimpleValue| #[trigger] st.hash.contains_key(k) ==> add_all(st, ns, nx_xx, GtLt::Gt, false).hash.contains_key(k)
            && st.hash[k].score <= add_all(st, ns, nx_xx, GtLt::Gt, false).hash[k].score,
    decreases ns.len(),
{
    if ns.len() > 0 {
        lemma_zadd_gt_only_raises(st, ns.drop_last(), nx_xx);
    }
}

/// `ZADD` with `LT` and without `INCR` only ever lowers the score of a
/// member that exists, and it stays a member.
pub proof fn lemma_zadd_lt_only_lowers(st: AddState, ns: Seq<NodeView>, nx_xx: NxXx)
    ensures
        forall|k: SimpleValue| #[trigger] st.hash.contains_key(k) ==> add_all(st, ns, nx_xx, GtLt::Lt, false).hash.contains_key(k)
            && add_all(st, ns, nx_xx, GtLt::Lt, false).hash[k].score <= st.hash[k].score,
    decreases ns.len(),
{
    if ns.len() > 0 {
        lemma_zadd_lt_only_lowers(st, ns.drop_last(), nx_xx);
    }
}

/// `ZADD` without options writes every node: afterwards each node's member
/// is in the set, and the last node given sets its member's score (without
/// `INCR`).
pub proof fn lemma_zadd_plain_writes_all(st: AddState, ns: Seq<NodeView>)
    ensures
        forall|i: int| 0 <= i < ns.len() ==> add_all(st, ns, NxXx::NoCondition, GtLt::NoCondition, false).hash.contains_key(
            #[trigger] ns[i].key,
        ),
        ns.len() > 0 ==> add_all(st, ns, NxXx::NoCondition, GtLt::NoCondition, false).hash[ns.last().key] == ns.last(),
    decreases ns.len(),
{
    if ns.len() > 0 {
        lemma_zadd_plain_writes_all(st, ns.drop_last());
        assert forall|i: int| 0 <= i < ns.len() implies add_all(st, ns, NxXx::NoCondition, GtLt::NoCondition, false).hash.contains_key(
            #[trigger] ns[i].key,
        ) by {
            if i < ns.len() - 1 {
                assert(ns[i] == ns.drop_last()[i]);
            }
        }
    }
}

/// Whether `ZADD`'s answer has as many members after as before.
pub open spec fn answer_keeps_len(r: Result<WriteResp<Resp>, String>) -> bool {
    r matches Ok(w) && w.payload.new_len == w.payload.old_len
}

/// One step of `ZADD` keeps the member map and the nodes in agreement.
proof fn lemma_add_step_agree(st: AddState, v: NodeView, nx_xx: NxXx, gt_lt: GtLt, incr: bool)
    requires
        agree(st.hash, st.value),
    ensures
        agree(add_step(st, v, nx_xx, gt_lt, incr).hash, add_step(st, v, nx_xx, gt_lt, incr).value),
{
    let st2 = add_step(st, v, nx_xx, gt_lt, incr);
    if can_update(st.hash, v, nx_xx, gt_lt) {
        let k = v.key;
        let n2 = st2.hash[k];
        assert(n2.key == k);
        assert forall|k2: SimpleValue| #[trigger] st2.hash.contains_key(k2) implies st2.hash[k2].key == k2 && st2.value.contains(
            st2.hash[k2],
        ) by {
            if k2 != k {
                assert(st.hash.contains_key(k2));
                if st.hash.contains_key(k) {
                    assert(st.hash[k2] != st.hash[k]);
                }
            }
        }
        assert forall|n: NodeView| #[trigger] st2.value.contains(n) implies st2.hash.contains_key(n.key) && st2.hash[n.key] == n by {
            if n != n2 {
                assert(st.value.contains(n));
                if n.key == k {
                    assert(st.hash[k] == n);
                }
            }
        }
    }
}

/// `ZADD` keeps the member map and the nodes in agreement.
pub proof fn lemma_add_agree(st: AddState, ns: Seq<NodeView>, nx_xx: NxXx, gt_lt: GtLt, incr: bool)
    requires
        agree(st.hash, st.value),
    ensures
        agree(add_all(st, ns, nx_xx, gt_lt, incr).hash, add_all(st, ns, nx_xx, gt_lt, incr).value),
    decreases ns.len(),
{
    if ns.len() > 0 {
        lemma_add_agree(st, ns.drop_last(), nx_xx, gt_lt, incr);
        lemma_add_step_agree(add_all(st, ns.drop_last(), nx_xx, gt_lt, incr), ns.last(), nx_xx, gt_lt, incr);
    }
}

/// A sorted set as `ZADD` starts on it.
pub open spec fn start_state(z: SortedSetView) -> AddState {
    AddState { hash: z.hash, value: z.value.to_set(), updated: 0 }
}

/// The entry `ZADD` works on at `now`: the live one under `k`, or a new
/// empty sorted set with id `id` and no expiry.
pub open spec fn zset_entry(m: Map<SimpleValue, ValueView>, k: SimpleValue, now: i64, id: u64) -> ValueView {
    match live_value(m, k, now) {
        Some(v) => v,
        None => ValueView {
            id,
            data: DataView::SortedSet(SortedSetView { hash: Map::empty(), value: Seq::empty() }),
            expire_at: None,
        },
    }
}

impl Req {
    /// Applies the write with id `id` at `now`: works through the nodes in
    /// turn on the sorted set live under the key, started under the id
    /// where nothing is live. Answers the number of members before and
    /// after and how many nodes were written; anything else stored is the
    /// error "error type".
    pub fn apply(self, id: u64, dict: &mut Dict, now: i64) -> (r: Result<WriteResp<Resp>, String>)
        requires
            zset_entry(old(dict)@, self.key@, now, id).data matches DataView::SortedSet(z) ==> add_fits(
                start_state(z),
                nodes_view(self.nodes@),
                self.nx_xx,
                self.gt_lt,
                self.incr,
            ),
        ensures
            ({
                let m = old(dict)@;
                let k = self.key@;
                let e = zset_entry(m, k, now, id);
                match e.data {
                    DataView::SortedSet(z) => {
                        let fin = add_all(start_state(z), nodes_view(self.nodes@), self.nx_xx, self.gt_lt, self.incr);
                        &&& r matches Ok(w) && w.new_expires_at is None && w.payload.old_len == z.hash.dom().len()
                            && w.payload.new_len == fin.hash.dom().len() && w.payload.update_len == fin.updated
                        &&& final(dict)@.dom() == m.dom().insert(k)
                        &&& final(dict)@.remove(k) == m.remove(k)
                        &&& final(dict)@[k].id == e.id && final(dict)@[k].expire_at == e.expire_at
                        &&& final(dict)@[k].data matches DataView::SortedSet(z2) && z2.hash == fin.hash
                            && z2.value.to_set() == fin.value && nodes_sorted(z2.value)
                            && (zset_consistent(z) ==> zset_consistent(z2))
                            && (self.nx_xx is Xx ==> z2.hash.dom() == z.hash.dom() && answer_keeps_len(r))
                            && (self.nx_xx is Nx ==> forall|mk: SimpleValue| #[trigger] z.hash.contains_key(mk)
                                ==> z2.hash.contains_key(mk) && z2.hash[mk] == z.hash[mk])
                    },
                    _ => r matches Err(x) && x@ == "error type"@ && final(dict)@ == m.insert(k, e),
                }
            }),
    {
        let v = dict.take_live_or(
            &self.key,
            now,
            Value {
                id,
                data: DataType::CollectionType(CollectionType::SortedSet(SortedSet::new())),
                expire_at: None,
            },
        );
        let ghost e = v@;
        let mut z = match v.data {
            DataType::CollectionType(CollectionType::SortedSet(z)) => z,
            data => {
                let _ = dict.insert(self.key, Value { id: v.id, data, expire_at: v.expire_at });
                return Err("error type".to_string());
            },
        };
        proof {
            use_type_invariant(&z.value);
        }
        let ghost z0 = z@;
        proof {
            lemma_zadd_xx_adds_nothing(start_state(z0), nodes_view(self.nodes@), self.gt_lt, self.incr);
            lemma_zadd_nx_keeps_members(start_state(z0), nodes_view(self.nodes@), self.gt_lt, self.incr);
        }
        let ghost ns = nodes_view(self.nodes@);
        let old_len = z.hash.len();
        let mut update_len: usize = 0;
        let mut i: usize = 0;
        while i < self.nodes.len()
            invariant
                0 <= i <= self.nodes@.len(),
                ns == nodes_view(self.nodes@),
                add_fits(start_state(z0), ns, self.nx_xx, self.gt_lt, self.incr),
                ({
                    let st = add_all(start_state(z0), ns.take(i as int), self.nx_xx, self.gt_lt, self.incr);
                    &&& z@.hash == st.hash
                    &&& z@.value.to_set() == st.value
                    &&& update_len == st.updated
                    &&& update_len <= i
                }),
                nodes_sorted(z@.value),
            decreases self.nodes@.len() - i,
        {
            proof {
                assert(ns.take(i + 1).drop_last() =~= ns.take(i as int));
                assert(ns.take(i + 1).last() == ns[i as int]);
                lemma_add_fits_prefix(start_state(z0), ns, (i + 1) as int, self.nx_xx, self.gt_lt, self.incr);
            }
            let mut node = self.nodes[i].duplicate();
            let can = match (self.nx_xx, self.gt_lt) {
                (NxXx::Nx, GtLt::NoCondition) => !z.hash.contains_key(&node.key),
                (NxXx::Nx, _) => false,
                (_, GtLt::Gt) => match z.hash.get(&node.key) {
                    Some(x) => x.score < node.score,
                    None => self.nx_xx.is_none(),
                },
                (_, GtLt::Lt) => match z.hash.get(&node.key) {
                    Some(x) => x.score > node.score,
                    None => self.nx_xx.is_none(),
                },
                (NxXx::Xx, GtLt::NoCondition) => z.hash.contains_key(&node.key),
                (NxXx::NoCondition, GtLt::NoCondition) => true,
            };
            if can {
                update_len = update_len + 1;
                let k = node.key.duplicate();
                let c = node.duplicate();
                match z.hash.insert(k, c) {
                    Some(on) => {
                        let _ = z.value.remove_mut(&on);
                        if self.incr {
                            node.score = node.score + on.score;
                            let k2 = node.key.duplicate();
                            let c2 = node.duplicate();
                            let _ = z.hash.insert(k2, c2);
                        }
                    },
                    None => {},
                }
                z.value.insert_mut(node);
            }
            i += 1;
        }
        proof {
            assert(ns.take(self.nodes@.len() as int) =~= ns);
            if zset_consistent(z0) {
                lemma_add_agree(start_state(z0), ns, self.nx_xx, self.gt_lt, self.incr);
            }
        }
        let new_len = z.hash.len();
        let _ = dict.insert(
            self.key,
            Value { id: v.id, data: DataType::CollectionType(CollectionType::SortedSet(z)), expire_at: v.expire_at },
        );
        Ok(WriteResp { new_expires_at: None, payload: Resp { old_len, update_len, new_len } })
    }
}

} // verus!
