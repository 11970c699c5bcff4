//! Removing a range of members from a sorted set.

use vstd::prelude::*;

use crate::slot::cmd::WriteResp;
use crate::slot::data_type::sorted_set::{
    agree, lemma_node_order, zset_consistent, node_above, node_below, node_range_refused, nodes_sorted, nodes_view, ordered, Node, NodeView,
};
use crate::slot::data_type::{CollectionType, DataType, DataView, SimpleType, SimpleValue};
use crate::slot::dict::{live_value, Dict, Value};
use crate::utils::bound::Bound;

verus! {

/// Remove the members of the sorted set under `key` between two members
/// (lower end first), walking in order or, with `rev`, in reverse order.
pub struct Req {
    pub key: SimpleType,
    pub range: (Bound<SimpleType>, Bound<SimpleType>),
    pub rev: bool,
}

/// A member end as an end of a range of nodes, at `score`.
pub open spec fn member_end(b: Bound<SimpleType>, score: i64) -> Bound<Node> {
    match b {
        Bound::Included(k) => Bound::Included(Node { key: k, score }),
        Bound::Excluded(k) => Bound::Excluded(Node { key: k, score }),
        Bound::Unbounded => Bound::Unbounded,
    }
}

/// The nodes of `s` the removal walks: between the two members taken at
/// the score of the first node, in order or in reverse order.
pub open spec fn walked(s: Seq<NodeView>, range: (Bound<SimpleType>, Bound<SimpleType>), rev: bool) -> Seq<NodeView> {
    let lo = member_end(range.0, s[0].score);
    let hi = member_end(range.1, s[0].score);
    ordered(s, rev).filter(|n: NodeView| node_above(lo, n) && node_below(hi, n))
}

/// Removing the members of the nodes `ns` in turn from `h`: the members'
/// map after, and the nodes taken out of it in that order.
pub open spec fn drain(h: Map<SimpleValue, NodeView>, ns: Seq<NodeView>) -> (Map<SimpleValue, NodeView>, Seq<NodeView>)
    decreases ns.len(),
{
    if ns.len() == 0 {
        (h, Seq::empty())
    } else {
        let (h1, out) = drain(h, ns.drop_last());
        let k = ns.last().key;
        if h1.contains_key(k) {
            (h1.remove(k), out.push(h1[k]))
        } else {
            (h1, out)
        }
    }
}

/// Whether no node comes twice in `s`.
pub open spec fn distinct_nodes(s: Seq<NodeView>) -> bool {
    forall|i: int, j: int| 0 <= i < j < s.len() ==> s[i] != s[j]
}

/// What a filter keeps of a sequence with no node twice comes from it, with
/// no node twice.
proof fn lemma_filter_distinct(s: Seq<NodeView>, p: spec_fn(NodeView) -> bool)
    requires
        distinct_nodes(s),
    ensures
        distinct_nodes(s.filter(p)),
        forall|i: int| 0 <= i < s.filter(p).len() ==> s.contains(#[trigger] s.filter(p)[i]),
    decreases s.len(),
{
    reveal(Seq::filter);
    if s.len() > 0 {
        let d = s.drop_last();
        assert(distinct_nodes(d)) by {
            assert forall|i: int, j: int| 0 <= i < j < d.len() implies d[i] != d[j] by {
                assert(d[i] == s[i] && d[j] == s[j]);
            }
        }
        lemma_filter_distinct(d, p);
        let f = d.filter(p);
        assert forall|i: int| 0 <= i < f.len() implies s.contains(#[trigger] f[i]) by {
            let a = choose|a: int| 0 <= a < d.len() && d[a] == f[i];
            assert(s[a] == f[i]);
        }
        if p(s.last()) {
            assert(s.filter(p) == f.push(s.last()));
            assert forall|i: int| 0 <= i < f.len() implies f[i] != s.last() by {
                let a = choose|a: int| 0 <= a < d.len() && d[a] == f[i];
                assert(s[a] == f[i]);
                assert(s[a] != s[s.len() - 1]);
            }
            assert(s.contains(s.last())) by {
                assert(s[s.len() - 1] == s.last());
            }
        } else {
            assert(s.filter(p) == f);
        }
    }
}

/// Draining nodes of the set that come once each keeps the member map and
/// the nodes in agreement.
proof fn lemma_drain_agree(h: Map<SimpleValue, NodeView>, v: vstd::set::Set<NodeView>, ns: Seq<NodeView>)
    requires
        agree(h, v),
        distinct_nodes(ns),
        forall|i: int| 0 <= i < ns.len() ==> v.contains(#[trigger] ns[i]),
    ensures
        agree(drain(h, ns).0, v - ns.to_set()),
    decreases ns.len(),
{
    if ns.len() == 0 {
        assert(v - ns.to_set() =~= v);
    } else {
        let d = ns.drop_last();
        let n = ns.last();
        assert(distinct_nodes(d)) by {
            assert forall|i: int, j: int| 0 <= i < j < d.len() implies d[i] != d[j] by {
                assert(d[i] == ns[i] && d[j] == ns[j]);
            }
        }
        assert forall|i: int| 0 <= i < d.len() implies v.contains(#[trigger] d[i]) by {
            assert(d[i] == ns[i]);
        }
        lemma_drain_agree(h, v, d);
        let h1 = drain(h, d).0;
        let v1 = v - d.to_set();
        assert(!d.to_set().contains(n)) by {
            if d.contains(n) {
                let a = choose|a: int| 0 <= a < d.len() && d[a] == n;
                assert(ns[a] == ns[ns.len() - 1]);
            }
        }
        assert(v.contains(n)) by {
            assert(ns[ns.len() - 1] == n);
        }
        assert(v1.contains(n));
        assert(h1.contains_key(n.key) && h1[n.key] == n);
        let h2 = h1.remove(n.key);
        assert(drain(h, ns).0 == h2);
        assert(ns =~= d.push(n));
        d.lemma_push_to_set_commute(n);
        let v2 = v - ns.to_set();
        assert(v2 =~= v1.remove(n));
        assert forall|k: SimpleValue| #[trigger] h2.contains_key(k) implies h2[k].key == k && v2.contains(h2[k]) by {
            assert(h1[k] != n);
        }
        assert forall|m: NodeView| #[trigger] v2.contains(m) implies h2.contains_key(m.key) && h2[m.key] == m by {
            assert(v1.contains(m));
            if m.key == n.key {
                assert(h1[n.key] == m);
            }
        }
    }
}

impl Req {
    /// Removes, at `now`, the walked nodes from the sorted set live under
    /// the key and their members from its members' map, answering the
    /// members' nodes in the order they were removed. Nothing live, or an
    /// empty sorted set, answers nothing; anything else stored is the error
    /// "error type". A refused range on a sorted set that is not empty is
    /// not accepted.
    pub fn apply(self, _id: u64, dict: &mut Dict, now: i64) -> (r: Result<WriteResp<Vec<Node>>, String>)
        requires
            live_value(old(dict)@, self.key@, now) matches Some(v) ==> (v.data matches DataView::SortedSet(z) ==> (
            z.value.len() > 0 ==> !node_range_refused(
                member_end(self.range.0, z.value[0].score),
                member_end(self.range.1, z.value[0].score),
            ))),
        ensures
            ({
                let m = old(dict)@;
                let k = self.key@;
                match live_value(m, k, now) {
                    None => r matches Ok(w) && w.payload@.len() == 0 && w.new_expires_at is None && final(dict)@ == m,
                    Some(v) => match v.data {
                        DataView::SortedSet(z) => if z.value.len() == 0 {
                            r matches Ok(w) && w.payload@.len() == 0 && w.new_expires_at is None && final(dict)@ == m
                        } else {
                            let gone = walked(z.value, self.range, self.rev);
                            let (h2, out) = drain(z.hash, gone);
                            &&& r matches Ok(w) && nodes_view(w.payload@) == out && w.new_expires_at is None
                            &&& final(dict)@.dom() == m.dom()
                            &&& final(dict)@.remove(k) == m.remove(k)
                            &&& final(dict)@[k].id == v.id && final(dict)@[k].expire_at == v.expire_at
                            &&& final(dict)@[k].data matches DataView::SortedSet(z2) && z2.hash == h2
                                && z2.value.to_set() == z.value.to_set() - gone.to_set() && nodes_sorted(z2.value)
                                && (zset_consistent(z) ==> zset_consistent(z2))
                        },
                        _ => r matches Err(x) && x@ == "error type"@ && final(dict)@ == m,
                    },
                }
            }),
    {
        let ghost m0 = dict@;
        if !dict.d_exists(&self.key, now) {
            return Ok(WriteResp { new_expires_at: None, payload: Vec::new() });
        }
        let v = match dict.remove(&self.key) {
            Some(v) => v,
            None => {
                return Ok(WriteResp { new_expires_at: None, payload: Vec::new() });
            },
        };
        let mut z = match v.data {
            DataType::CollectionType(CollectionType::SortedSet(z)) => z,
            data => {
                let _ = dict.insert(self.key, Value { id: v.id, data, expire_at: v.expire_at });
                proof {
                    assert(dict@ =~= m0);
                }
                return Err("error type".to_string());
            },
        };
        proof {
            use_type_invariant(&z.value);
        }
        let ghost z0 = z@;
        let score = match z.value.first() {
            Some(n) => n.score,
            None => {
                let _ = dict.insert(
                    self.key,
                    Value { id: v.id, data: DataType::CollectionType(CollectionType::SortedSet(z)), expire_at: v.expire_at },
                );
                proof {
                    assert(dict@ =~= m0);
                }
                return Ok(WriteResp { new_expires_at: None, payload: Vec::new() });
            },
        };
        let lo = match &self.range.0 {
            Bound::Included(k) => Bound::Included(Node { key: k.duplicate(), score }),
            Bound::Excluded(k) => Bound::Excluded(Node { key: k.duplicate(), score }),
            Bound::Unbounded => Bound::Unbounded,
        };
        let hi = match &self.range.1 {
            Bound::Included(k) => Bound::Included(Node { key: k.duplicate(), score }),
            Bound::Excluded(k) => Bound::Excluded(Node { key: k.duplicate(), score }),
            Bound::Unbounded => Bound::Unbounded,
        };
        let gone = z.value.between(&lo, &hi, self.rev);
        proof {
            let l2 = member_end(self.range.0, score);
            let h2 = member_end(self.range.1, score);
            assert((|n: NodeView| node_above(lo, n) && node_below(hi, n)) =~= (|n: NodeView|
                node_above(l2, n) && node_below(h2, n)));
            assert(nodes_view(gone@) == walked(z@.value, self.range, self.rev));
        }
        let ghost g = nodes_view(gone@);
        proof {
            assert(!node_range_refused(lo, hi));
        }
        let ghost h0 = z@.hash;
        let ghost s0 = z@.value.to_set();
        let mut res: Vec<Node> = Vec::new();
        let mut i: usize = 0;
        while i < gone.len()
            invariant
                0 <= i <= gone@.len(),
                g == nodes_view(gone@),
                z@.hash == drain(h0, g.take(i as int)).0,
                nodes_view(res@) == drain(h0, g.take(i as int)).1,
                z@.value.to_set() == s0 - g.take(i as int).to_set(),
                nodes_sorted(z@.value),
            decreases gone@.len() - i,
        {
            proof {
                assert(g.take(i + 1).drop_last() =~= g.take(i as int));
                assert(g.take(i + 1).last() == gone@[i as int]@);
                assert(g.take(i + 1) =~= g.take(i as int).push(gone@[i as int]@));
                g.take(i as int).lemma_push_to_set_commute(gone@[i as int]@);
            }
            let _ = z.value.remove_mut(&gone[i]);
            let ghost r0 = res@;
            match z.hash.remove(&gone[i].key) {
                Some(n) => {
                    res.push(n);
                    proof {
                        assert(nodes_view(res@) =~= nodes_view(r0).push(res@[r0.len() as int]@));
                    }
                },
                None => {},
            }
            proof {
                assert(z@.value.to_set() =~= s0 - g.take(i + 1).to_set());
            }
            i += 1;
        }
        proof {
            assert(g.take(gone@.len() as int) =~= g);
            if zset_consistent(z0) {
                let o = ordered(z0.value, self.rev);
                assert(distinct_nodes(o)) by {
                    assert forall|a: int, b: int| 0 <= a < b < o.len() implies o[a] != o[b] by {
                        if self.rev {
                            let a2 = z0.value.len() - 1 - b;
                            let b2 = z0.value.len() - 1 - a;
                            assert(o[a] == z0.value[b2] && o[b] == z0.value[a2]);
                            lemma_node_order(z0.value[a2], z0.value[b2], z0.value[b2]);
                        } else {
                            lemma_node_order(z0.value[a], z0.value[b], z0.value[b]);
                        }
                    }
                }
                let lo2 = member_end(self.range.0, z0.value[0].score);
                let hi2 = member_end(self.range.1, z0.value[0].score);
                lemma_filter_distinct(o, |n: NodeView| node_above(lo2, n) && node_below(hi2, n));
                assert forall|a: int| 0 <= a < g.len() implies z0.value.to_set().contains(#[trigger] g[a]) by {
                    assert(o.contains(g[a]));
                    let b = choose|b: int| 0 <= b < o.len() && o[b] == g[a];
                    if self.rev {
                        assert(o[b] == z0.value[z0.value.len() - 1 - b]);
                    }
                }
                lemma_drain_agree(h0, s0, g);
            }
        }
        let _ = dict.insert(
            self.key,
            Value { id: v.id, data: DataType::CollectionType(CollectionType::SortedSet(z)), expire_at: v.expire_at },
        );
        proof {
            assert(dict@.dom() =~= m0.dom());
            assert(dict@.remove(self.key@) =~= m0.remove(self.key@));
        }
        Ok(WriteResp { new_expires_at: None, payload: res })
    }
}

} // verus!
