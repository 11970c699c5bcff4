//! Sorted sets of a slot: nodes ordered by member, then by score.

use vstd::prelude::*;

use super::{lemma_value_order, value_order, SimpleType, SimpleValue};
use crate::utils::bound::Bound;
use crate::utils::keymap::KeyMap;

pub use crate::db::data_type::sorted_set::sharp_limit;

verus! {

/// A member and its score, a whole number.
#[derive(Debug, PartialEq, Eq)]
pub struct Node {
    pub key: SimpleType,
    pub score: i64,
}

/// A member and its score, as mathematical values.
pub struct NodeView {
    pub key: SimpleValue,
    pub score: i64,
}

impl View for Node {
    type V = NodeView;

    open spec fn view(&self) -> NodeView {
        NodeView { key: self.key@, score: self.score }
    }
}

/// Whether `a` comes before `b`: by member first, then by score.
pub open spec fn node_lt(a: NodeView, b: NodeView) -> bool {
    value_order(a.key, b.key) < 0 || (a.key == b.key && a.score < b.score)
}

/// Whether the nodes of `s` come in strictly increasing order.
pub open spec fn nodes_sorted(s: Seq<NodeView>) -> bool {
    forall|i: int, j: int| 0 <= i < j < s.len() ==> node_lt(#[trigger] s[i], #[trigger] s[j])
}

/// Nodes, as mathematical values.
pub open spec fn nodes_view(s: Seq<Node>) -> Seq<NodeView> {
    s.map_values(|n: Node| n@)
}

/// The order of nodes is a strict total order.
pub proof fn lemma_node_order(a: NodeView, b: NodeView, c: NodeView)
    ensures
        !node_lt(a, a),
        node_lt(a, b) ==> !node_lt(b, a),
        a == b || node_lt(a, b) || node_lt(b, a),
        node_lt(a, b) && node_lt(b, c) ==> node_lt(a, c),
{
    lemma_value_order(a.key, b.key, c.key);
    lemma_value_order(a.key, a.key, a.key);
    lemma_value_order(b.key, c.key, a.key);
    lemma_value_order(b.key, a.key, c.key);
    lemma_value_order(a.key, c.key, b.key);
    lemma_value_order(c.key, a.key, b.key);
}

/// Whether node `n` lies on the inner side of the lower end `b`.
pub open spec fn node_above(b: Bound<Node>, n: NodeView) -> bool {
    match b {
        Bound::Included(x) => !node_lt(n, x@),
        Bound::Excluded(x) => node_lt(x@, n),
        Bound::Unbounded => true,
    }
}

/// Whether node `n` lies on the inner side of the upper end `b`.
pub open spec fn node_below(b: Bound<Node>, n: NodeView) -> bool {
    match b {
        Bound::Included(x) => !node_lt(x@, n),
        Bound::Excluded(x) => node_lt(n, x@),
        Bound::Unbounded => true,
    }
}

/// Whether a range of nodes is one the ordered set refuses: its lower end
/// after its upper end, or the same node excluded at both ends.
pub open spec fn node_range_refused(lo: Bound<Node>, hi: Bound<Node>) -> bool {
    match (lo, hi) {
        (Bound::Excluded(s), Bound::Excluded(e)) => s@ == e@ || node_lt(e@, s@),
        (Bound::Included(s), Bound::Included(e)) => node_lt(e@, s@),
        (Bound::Included(s), Bound::Excluded(e)) => node_lt(e@, s@),
        (Bound::Excluded(s), Bound::Included(e)) => node_lt(e@, s@),
        _ => false,
    }
}

impl Node {
    /// A copy of this node.
    pub fn duplicate(&self) -> (r: Node)
        ensures
            r@ == self@,
    {
        Node { key: self.key.duplicate(), score: self.score }
    }

    /// Whether this node comes before `other`.
    pub fn less(&self, other: &Node) -> (r: bool)
        ensures
            r == node_lt(self@, other@),
    {
        let o = self.key.order(&other.key);
        proof {
            lemma_value_order(self@.key, other@.key, other@.key);
        }
        o < 0 || (o == 0 && self.score < other.score)
    }
}

/// Nodes kept in order, no node twice.
pub struct OrderedNodes {
    nodes: Vec<Node>,
}

impl View for OrderedNodes {
    type V = Seq<NodeView>;

    closed spec fn view(&self) -> Seq<NodeView> {
        nodes_view(self.nodes@)
    }
}

impl OrderedNodes {
    /// The nodes come in increasing order.
    #[verifier::type_invariant]
    pub open spec fn sorted(self) -> bool {
        nodes_sorted(self@)
    }

    /// No nodes.
    pub fn new() -> (r: OrderedNodes)
        ensures
            r@ == Seq::<NodeView>::empty(),
    {
        let r = OrderedNodes { nodes: Vec::new() };
        assert(r@ =~= Seq::<NodeView>::empty());
        r
    }

    /// The number of nodes.
    pub fn size(&self) -> (r: usize)
        ensures
            r == self@.len(),
    {
        self.nodes.len()
    }

    /// The node at position `i` in order.
    pub fn at(&self, i: usize) -> (r: &Node)
        requires
            i < self@.len(),
        ensures
            r@ == self@[i as int],
    {
        &self.nodes[i]
    }

    /// The first node.
    pub fn first(&self) -> (r: Option<&Node>)
        ensures
            r is None <==> self@.len() == 0,
            r matches Some(n) ==> n@ == self@[0],
    {
        if self.nodes.len() == 0 {
            None
        } else {
            Some(&self.nodes[0])
        }
    }

    /// The number of nodes that come before `n`.
    fn position(&self, n: &Node) -> (r: usize)
        ensures
            r <= self@.len(),
            forall|i: int| 0 <= i < r ==> node_lt(#[trigger] self@[i], n@),
            forall|i: int| r <= i < self@.len() ==> !node_lt(#[trigger] self@[i], n@),
    {
        proof {
            use_type_invariant(self);
        }
        let mut i: usize = 0;
        while i < self.nodes.len()
            invariant
                0 <= i <= self@.len(),
                self@ == nodes_view(self.nodes@),
                nodes_sorted(self@),
                forall|j: int| 0 <= j < i ==> node_lt(#[trigger] self@[j], n@),
            decreases self@.len() - i,
        {
            if !self.nodes[i].less(n) {
                proof {
                    assert forall|j: int| i <= j < self@.len() implies !node_lt(
                        #[trigger] self@[j],
                        n@,
                    ) by {
                        if j > i {
                            lemma_node_order(self@[i as int], self@[j], n@);
                            lemma_node_order(n@, self@[i as int], self@[j]);
                        }
                    }
                }
                return i;
            }
            i += 1;
        }
        i
    }

    fn same_at(&self, p: usize, n: &Node) -> (r: bool)
        requires
            p < self@.len(),
        ensures
            r == (self@[p as int] == n@),
    {
        let k = self.nodes[p].key.same(&n.key);
        k && self.nodes[p].score == n.score
    }

    /// Adds `n`; nothing changes when it is already there.
    pub fn insert_mut(&mut self, n: Node)
        ensures
            final(self)@.to_set() == old(self)@.to_set().insert(n@),
            nodes_sorted(final(self)@),
    {
        proof {
            use_type_invariant(&*self);
        }
        let ghost s0 = self@;
        let p = self.position(&n);
        if p < self.nodes.len() && self.same_at(p, &n) {
            proof {
                assert(s0[p as int] == n@);
                assert(s0.to_set().contains(n@));
                assert(s0.to_set().insert(n@) =~= s0.to_set());
            }
            return;
        }
        let ghost nv = n@;
        let mut nodes: Vec<Node> = Vec::new();
        std::mem::swap(&mut nodes, &mut self.nodes);
        nodes.insert(p, n);
        proof {
            let s1 = nodes_view(nodes@);
            assert(s1 =~= s0.insert(p as int, nv));
            assert forall|i: int, j: int| 0 <= i < j < s1.len() implies node_lt(
                #[trigger] s1[i],
                #[trigger] s1[j],
            ) by {
                if j == p {
                    assert(node_lt(s0[i], nv));
                } else if i == p {
                    assert(s1[j] == s0[j - 1]);
                    lemma_node_order(s0[j - 1], nv, nv);
                    if j - 1 == p {
                        assert(s0[p as int] != nv);
                    } else {
                        lemma_node_order(s0[p as int], nv, nv);
                        assert(node_lt(s0[p as int], s0[j - 1]));
                        if s0[p as int] != nv {
                            lemma_node_order(nv, s0[p as int], s0[j - 1]);
                        }
                    }
                } else {
                    let i0 = if i < p { i } else { i - 1 };
                    let j0 = if j < p { j } else { j - 1 };
                    assert(s1[i] == s0[i0]);
                    assert(s1[j] == s0[j0]);
                }
            }
            assert(s1.to_set() =~= s0.to_set().insert(nv)) by {
                assert forall|x: NodeView| s1.to_set().contains(x) implies s0.to_set().insert(
                    nv,
                ).contains(x) by {
                    let k = choose|k: int| 0 <= k < s1.len() && s1[k] == x;
                    if k < p {
                        assert(s0[k] == x);
                    } else if k > p {
                        assert(s0[k - 1] == x);
                    }
                }
                assert forall|x: NodeView| s0.to_set().insert(nv).contains(x) implies s1.to_set().contains(
                    x,
                ) by {
                    if x == nv {
                        assert(s1[p as int] == x);
                    } else {
                        let k = choose|k: int| 0 <= k < s0.len() && s0[k] == x;
                        if k < p {
                            assert(s1[k] == x);
                        } else {
                            assert(s1[k + 1] == x);
                        }
                    }
                }
            }
        }
        self.nodes = nodes;
        proof {
            use_type_invariant(&*self);
        }
    }

    /// Removes `n`, answering whether it was there.
    pub fn remove_mut(&mut self, n: &Node) -> (r: bool)
        ensures
            r == old(self)@.contains(n@),
            final(self)@.to_set() == old(self)@.to_set().remove(n@),
            nodes_sorted(final(self)@),
    {
        proof {
            use_type_invariant(&*self);
        }
        let ghost s0 = self@;
        let p = self.position(n);
        if !(p < self.nodes.len() && self.same_at(p, n)) {
            proof {
                if s0.contains(n@) {
                    let j = choose|j: int| 0 <= j < s0.len() && s0[j] == n@;
                    lemma_node_order(n@, n@, n@);
                    if j > p {
                        assert(node_lt(s0[p as int], s0[j]));
                    }
                    assert(false);
                }
                assert(s0.to_set().remove(n@) =~= s0.to_set());
            }
            return false;
        }
        let mut nodes: Vec<Node> = Vec::new();
        std::mem::swap(&mut nodes, &mut self.nodes);
        let _ = nodes.remove(p);
        proof {
            let s1 = nodes_view(nodes@);
            assert(s1 =~= s0.remove(p as int));
            assert(s0[p as int] == n@);
            assert forall|i: int, j: int| 0 <= i < j < s1.len() implies node_lt(
                #[trigger] s1[i],
                #[trigger] s1[j],
            ) by {
                let i0 = if i < p { i } else { i + 1 };
                let j0 = if j < p { j } else { j + 1 };
                assert(s1[i] == s0[i0]);
                assert(s1[j] == s0[j0]);
            }
            assert(s1.to_set() =~= s0.to_set().remove(n@)) by {
                assert forall|x: NodeView| s1.to_set().contains(x) implies s0.to_set().remove(
                    n@,
                ).contains(x) by {
                    let k = choose|k: int| 0 <= k < s1.len() && s1[k] == x;
                    let k0 = if k < p { k } else { k + 1 };
                    assert(s0[k0] == x);
                    lemma_node_order(s0[k0], s0[p as int], s0[p as int]);
                }
                assert forall|x: NodeView| s0.to_set().remove(n@).contains(x) implies s1.to_set().contains(
                    x,
                ) by {
                    let k = choose|k: int| 0 <= k < s0.len() && s0[k] == x;
                    if k < p {
                        assert(s1[k] == x);
                    } else {
                        assert(k != p);
                        assert(s1[k - 1] == x);
                    }
                }
            }
        }
        self.nodes = nodes;
        proof {
            use_type_invariant(&*self);
        }
        true
    }

    /// Copies of the nodes between `lo` and `hi`, in order (or in reverse
    /// order with `rev`). A refused range is not accepted.
    pub fn between(&self, lo: &Bound<Node>, hi: &Bound<Node>, rev: bool) -> (r: Vec<Node>)
        requires
            !node_range_refused(*lo, *hi),
        ensures
            nodes_view(r@) == ordered(self@, rev).filter(|n: NodeView| node_above(*lo, n) && node_below(*hi, n)),
    {
        let ghost pred = |n: NodeView| node_above(*lo, n) && node_below(*hi, n);
        let mut hits: Vec<Node> = Vec::new();
        let mut i: usize = 0;
        let len = self.nodes.len();
        while i < len
            invariant
                0 <= i <= len,
                len == self@.len(),
                self@ == nodes_view(self.nodes@),
                pred == (|n: NodeView| node_above(*lo, n) && node_below(*hi, n)),
                nodes_view(hits@) == ordered(self@, rev).take(i as int).filter(pred),
            decreases len - i,
        {
            let n = if rev {
                &self.nodes[len - 1 - i]
            } else {
                &self.nodes[i]
            };
            proof {
                let o = ordered(self@, rev);
                assert(n@ == o[i as int]);
                assert(o.take(i + 1).drop_last() =~= o.take(i as int));
                reveal(Seq::filter);
            }
            let ghost h0 = hits@;
            let above = match lo {
                Bound::Included(x) => !n.less(x),
                Bound::Excluded(x) => x.less(n),
                Bound::Unbounded => true,
            };
            let below = match hi {
                Bound::Included(x) => !x.less(n),
                Bound::Excluded(x) => n.less(x),
                Bound::Unbounded => true,
            };
            if above && below {
                let c = n.duplicate();
                hits.push(c);
                proof {
                    assert(nodes_view(hits@) =~= nodes_view(h0).push(n@));
                }
            }
            i += 1;
        }
        proof {
            assert(ordered(self@, rev).take(len as int) =~= ordered(self@, rev));
        }
        hits
    }
}

/// The nodes in order, or in reverse order.
pub open spec fn ordered(s: Seq<NodeView>, rev: bool) -> Seq<NodeView> {
    if rev {
        s.reverse()
    } else {
        s
    }
}

/// Whether a member map and a set of nodes agree: every member's node is
/// that member's and is among the nodes, and every node is its member's
/// node.
pub open spec fn agree(h: Map<SimpleValue, NodeView>, v: vstd::set::Set<NodeView>) -> bool {
    &&& forall|k: SimpleValue| #[trigger] h.contains_key(k) ==> h[k].key == k && v.contains(h[k])
    &&& forall|n: NodeView| #[trigger] v.contains(n) ==> h.contains_key(n.key) && h[n.key] == n
}

/// Whether a sorted set's member map and its nodes in order agree.
pub open spec fn zset_consistent(z: SortedSetView) -> bool {
    agree(z.hash, z.value.to_set())
}

/// A sorted set: the node of each member, and the nodes in order.
pub struct SortedSet {
    pub hash: KeyMap<SimpleType, Node>,
    pub value: OrderedNodes,
}

/// A sorted set, as mathematical values.
pub struct SortedSetView {
    pub hash: Map<SimpleValue, NodeView>,
    pub value: Seq<NodeView>,
}

impl View for SortedSet {
    type V = SortedSetView;

    open spec fn view(&self) -> SortedSetView {
        SortedSetView { hash: self.hash.spec_map(), value: self.value@ }
    }
}

impl SortedSet {
    /// An empty sorted set.
    pub fn new() -> (r: SortedSet)
        ensures
            r@.hash == Map::<SimpleValue, NodeView>::empty(),
            r@.value == Seq::<NodeView>::empty(),
            zset_consistent(r@),
    {
        let r = SortedSet { hash: KeyMap::new(), value: OrderedNodes::new() };
        assert(r@.value.to_set() =~= vstd::set::Set::<NodeView>::empty());
        r
    }
}

} // verus!
