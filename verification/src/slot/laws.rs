//! What holds of the slot layer's commands taken together.

use vstd::prelude::*;

use super::cmd::simple::get::spec_get;
use super::data_type::{DataView, SimpleValue};
use super::cmd::sorted_set::add::{add_all, can_update, AddState};
use super::data_type::sorted_set::NodeView;
use super::dict::ValueView;
use crate::utils::options::{GtLt, NxXx};

verus! {

/// Whether one of the nodes `ns`, judged against the members' map `h`, is
/// written for member `k` by `ZADD` with these options.
pub open spec fn written_for(h: Map<SimpleValue, NodeView>, ns: Seq<NodeView>, k: SimpleValue, nx_xx: NxXx, gt_lt: GtLt) -> bool {
    exists|i: int| 0 <= i < ns.len() && (#[trigger] ns[i]).key == k && can_update(h, ns[i], nx_xx, gt_lt)
}

/// `ZADD` without `INCR` of nodes for distinct members works node by node
/// against the set as it was: each node the options let through, judged
/// against the members' map before the command, becomes its member's node;
/// every other member keeps its node; the count is the number of nodes let
/// through.
pub proof fn lemma_zadd_per_node(st: AddState, ns: Seq<NodeView>, nx_xx: NxXx, gt_lt: GtLt)
    requires
        forall|i: int, j: int| 0 <= i < j < ns.len() ==> (#[trigger] ns[i]).key != (#[trigger] ns[j]).key,
    ensures
        ({
            let fin = add_all(st, ns, nx_xx, gt_lt, false);
            &&& forall|k: SimpleValue| #[trigger] fin.hash.contains_key(k) <==> (st.hash.contains_key(k) || written_for(
                st.hash,
                ns,
                k,
                nx_xx,
                gt_lt,
            ))
            &&& forall|i: int| 0 <= i < ns.len() && can_update(st.hash, #[trigger] ns[i], nx_xx, gt_lt) ==> fin.hash[ns[i].key] == ns[i]
            &&& forall|k: SimpleValue| st.hash.contains_key(k) && !written_for(st.hash, ns, k, nx_xx, gt_lt) ==> #[trigger] fin.hash[k] == st.hash[k]
            &&& fin.updated == st.updated + ns.filter(|n: NodeView| can_update(st.hash, n, nx_xx, gt_lt)).len()
        }),
    decreases ns.len(),
{
    reveal(Seq::filter);
    if ns.len() > 0 {
        let d = ns.drop_last();
        let n = ns.last();
        assert forall|i: int, j: int| 0 <= i < j < d.len() implies (#[trigger] d[i]).key != (#[trigger] d[j]).key by {
            assert(d[i] == ns[i] && d[j] == ns[j]);
        }
        lemma_zadd_per_node(st, d, nx_xx, gt_lt);
        let mid = add_all(st, d, nx_xx, gt_lt, false);
        let fin = add_all(st, ns, nx_xx, gt_lt, false);
        assert(!written_for(st.hash, d, n.key, nx_xx, gt_lt)) by {
            if written_for(st.hash, d, n.key, nx_xx, gt_lt) {
                let i = choose|i: int| 0 <= i < d.len() && (#[trigger] d[i]).key == n.key && can_update(st.hash, d[i], nx_xx, gt_lt);
                assert(ns[i].key != ns[ns.len() - 1].key);
            }
        }
        assert(mid.hash.contains_key(n.key) == st.hash.contains_key(n.key));
        if st.hash.contains_key(n.key) {
            assert(mid.hash[n.key] == st.hash[n.key]);
        }
        assert(can_update(mid.hash, n, nx_xx, gt_lt) == can_update(st.hash, n, nx_xx, gt_lt));
        assert(ns.filter(|m: NodeView| can_update(st.hash, m, nx_xx, gt_lt)) == (if can_update(st.hash, n, nx_xx, gt_lt) {
            d.filter(|m: NodeView| can_update(st.hash, m, nx_xx, gt_lt)).push(n)
        } else {
            d.filter(|m: NodeView| can_update(st.hash, m, nx_xx, gt_lt))
        }));
        assert forall|k: SimpleValue| #[trigger] fin.hash.contains_key(k) <==> (st.hash.contains_key(k) || written_for(
            st.hash,
            ns,
            k,
            nx_xx,
            gt_lt,
        )) by {
            if written_for(st.hash, d, k, nx_xx, gt_lt) {
                let i = choose|i: int| 0 <= i < d.len() && (#[trigger] d[i]).key == k && can_update(st.hash, d[i], nx_xx, gt_lt);
                assert(ns[i] == d[i]);
            }
            if written_for(st.hash, ns, k, nx_xx, gt_lt) {
                let i = choose|i: int| 0 <= i < ns.len() && (#[trigger] ns[i]).key == k && can_update(st.hash, ns[i], nx_xx, gt_lt);
                if i < d.len() {
                    assert(d[i] == ns[i]);
                }
            }
            if k == n.key && can_update(st.hash, n, nx_xx, gt_lt) {
                assert(ns[ns.len() - 1] == n);
            }
        }
        assert forall|i: int| 0 <= i < ns.len() && can_update(st.hash, #[trigger] ns[i], nx_xx, gt_lt) implies fin.hash[ns[i].key] == ns[i] by {
            if i < d.len() {
                assert(d[i] == ns[i]);
                assert(ns[i].key != n.key);
            }
        }
        assert forall|k: SimpleValue| st.hash.contains_key(k) && !written_for(st.hash, ns, k, nx_xx, gt_lt) implies #[trigger] fin.hash[k] == st.hash[k] by {
            if written_for(st.hash, d, k, nx_xx, gt_lt) {
                let i = choose|i: int| 0 <= i < d.len() && (#[trigger] d[i]).key == k && can_update(st.hash, d[i], nx_xx, gt_lt);
                assert(ns[i] == d[i]);
                assert(written_for(st.hash, ns, k, nx_xx, gt_lt));
            }
            if k == n.key && can_update(st.hash, n, nx_xx, gt_lt) {
                assert(ns[ns.len() - 1] == n);
                assert(written_for(st.hash, ns, k, nx_xx, gt_lt));
            }
        }
    }
}

/// After `SET` stores `v` under `k` with no expiry, or with one after
/// `now`, `GET` at `now` answers `v`; at or after the expiry it answers
/// `Null`.
pub proof fn lemma_get_after_set(m: Map<SimpleValue, ValueView>, k: SimpleValue, v: SimpleValue, id: u64, ea: Option<i64>, now: i64)
    ensures
        (ea matches Some(t) ==> t > now) ==> spec_get(
            m.insert(k, ValueView { id, data: DataView::Simple(v), expire_at: ea }),
            k,
            now,
        ) == v,
        (ea matches Some(t) && t <= now) ==> spec_get(
            m.insert(k, ValueView { id, data: DataView::Simple(v), expire_at: ea }),
            k,
            now,
        ) == SimpleValue::Null,
{
}

/// After the entry under `k` is removed, `GET` answers `Null`.
pub proof fn lemma_get_after_del(m: Map<SimpleValue, ValueView>, k: SimpleValue, now: i64)
    ensures
        spec_get(m.remove(k), k, now) == SimpleValue::Null,
{
}

} // verus!
