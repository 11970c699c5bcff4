//! Sorted sets: members ordered by score, then by name.
//!
//! Scores are whole numbers here; members with equal scores are ordered by
//! the bytes of their names.

use vstd::prelude::*;

use crate::utils::bound::{above_lower, below_upper, contains, in_range, Bound};
use crate::utils::keymap::KeyMap;
use crate::utils::options::{GtLt, NxXx};
use crate::utils::bytes::{bytes_order, lex_order, lemma_lex_order_swap, lemma_lex_order_trans, lemma_lex_order_zero};

verus! {

/// A member of a sorted set and its score.
#[derive(Debug, PartialEq, Eq)]
pub struct Node {
    pub key: String,
    pub score: i64,
}

/// A member and its score, as mathematical values.
pub struct NodeView {
    pub key: Seq<char>,
    pub score: i64,
}

impl View for Node {
    type V = NodeView;

    open spec fn view(&self) -> NodeView {
        NodeView { key: self.key@, score: self.score }
    }
}

/// The order of member names: by the bytes that encode them.
pub open spec fn key_order(a: Seq<char>, b: Seq<char>) -> int {
    lex_order(vstd::utf8::encode_utf8(a), vstd::utf8::encode_utf8(b))
}

/// Whether `a` comes before `b`: a lower score, or an equal score and a name
/// that comes first.
pub open spec fn node_lt(a: NodeView, b: NodeView) -> bool {
    a.score < b.score || (a.score == b.score && key_order(a.key, b.key) < 0)
}

/// Whether the nodes of `s` come in strictly increasing order.
pub open spec fn nodes_sorted(s: Seq<NodeView>) -> bool {
    forall|i: int, j: int| 0 <= i < j < s.len() ==> node_lt(#[trigger] s[i], #[trigger] s[j])
}

/// Nodes, as mathematical values.
pub open spec fn nodes_view(s: Seq<Node>) -> Seq<NodeView> {
    s.map_values(|n: Node| n@)
}

/// Names compare equal exactly when they are equal.
pub proof fn lemma_key_order_zero(a: Seq<char>, b: Seq<char>)
    ensures
        (key_order(a, b) == 0) == (a == b),
        key_order(a, b) == -key_order(b, a),
{
    lemma_lex_order_zero(vstd::utf8::encode_utf8(a), vstd::utf8::encode_utf8(b));
    lemma_lex_order_swap(vstd::utf8::encode_utf8(a), vstd::utf8::encode_utf8(b));
    if vstd::utf8::encode_utf8(a) == vstd::utf8::encode_utf8(b) {
        vstd::utf8::encode_utf8_decode_utf8(a);
        vstd::utf8::encode_utf8_decode_utf8(b);
    }
}

/// The order of nodes is a strict total order.
pub proof fn lemma_node_order(a: NodeView, b: NodeView, c: NodeView)
    ensures
        !node_lt(a, a),
        node_lt(a, b) ==> !node_lt(b, a),
        a == b || node_lt(a, b) || node_lt(b, a),
        node_lt(a, b) && node_lt(b, c) ==> node_lt(a, c),
{
    lemma_key_order_zero(a.key, b.key);
    lemma_key_order_zero(a.key, a.key);
    lemma_lex_order_swap(vstd::utf8::encode_utf8(a.key), vstd::utf8::encode_utf8(b.key));
    if node_lt(a, b) && node_lt(b, c) && a.score == b.score && b.score == c.score {
        lemma_lex_order_trans(
            vstd::utf8::encode_utf8(a.key),
            vstd::utf8::encode_utf8(b.key),
            vstd::utf8::encode_utf8(c.key),
        );
    }
}

impl Node {
    /// A member with its score.
    pub fn new(key: String, score: i64) -> (r: Node)
        ensures
            r@ == (NodeView { key: key@, score }),
    {
        Node { key, score }
    }

    /// A copy of this node.
    pub fn duplicate(&self) -> (r: Node)
        ensures
            r@ == self@,
    {
        Node { key: self.key.clone(), score: self.score }
    }

    /// Whether this node comes before `other`.
    pub fn less(&self, other: &Node) -> (r: bool)
        ensures
            r == node_lt(self@, other@),
    {
        if self.score < other.score {
            true
        } else if self.score > other.score {
            false
        } else {
            bytes_order(self.key.as_str().as_bytes(), other.key.as_str().as_bytes()) < 0
        }
    }

    /// Whether two nodes are the same.
    pub fn same(&self, other: &Node) -> (r: bool)
        ensures
            r == (self@ == other@),
    {
        self.score == other.score && self.key.eq(&other.key)
    }
}

/// The nodes of a sorted set, kept in order with no node twice.
pub struct NodeSet {
    nodes: Vec<Node>,
}

impl View for NodeSet {
    type V = Seq<NodeView>;

    closed spec fn view(&self) -> Seq<NodeView> {
        nodes_view(self.nodes@)
    }
}

impl NodeSet {
    #[verifier::type_invariant]
    closed spec fn sorted(self) -> bool {
        nodes_sorted(nodes_view(self.nodes@))
    }

    /// An empty set of nodes.
    pub fn new() -> (r: NodeSet)
        ensures
            r@ == Seq::<NodeView>::empty(),
            nodes_sorted(r@),
    {
        let r = NodeSet { nodes: Vec::new() };
        assert(r@ =~= Seq::<NodeView>::empty());
        r
    }

    /// The number of nodes.
    pub fn size(&self) -> (r: usize)
        ensures
            r == self@.len(),
    {
        self.nodes.len()
    }

    /// The node at position `i` in order.
    pub fn at(&self, i: usize) -> (r: &Node)
        requires
            i < self@.len(),
        ensures
            r@ == self@[i as int],
    {
        &self.nodes[i]
    }

    /// The first node in order.
    pub fn first(&self) -> (r: Option<&Node>)
        ensures
            r is None <==> self@.len() == 0,
            r matches Some(n) ==> n@ == self@[0],
    {
        if self.nodes.len() == 0 {
            None
        } else {
            Some(&self.nodes[0])
        }
    }

    /// Where `n` stands, or where it would be put: the number of nodes that
    /// come before it.
    fn position(&self, n: &Node) -> (r: usize)
        ensures
            r <= self@.len(),
            forall|i: int| 0 <= i < r ==> node_lt(#[trigger] self@[i], n@),
            forall|i: int| r <= i < self@.len() ==> !node_lt(#[trigger] self@[i], n@),
    {
        proof {
            use_type_invariant(self);
        }
        let mut i: usize = 0;
        while i < self.nodes.len()
            invariant
                0 <= i <= self@.len(),
                self@ == nodes_view(self.nodes@),
                nodes_sorted(self@),
                forall|j: int| 0 <= j < i ==> node_lt(#[trigger] self@[j], n@),
            decreases self@.len() - i,
        {
            if !self.nodes[i].less(n) {
                proof {
                    assert forall|j: int| i <= j < self@.len() implies !node_lt(
                        #[trigger] self@[j],
                        n@,
                    ) by {
                        if j > i {
                            lemma_node_order(self@[i as int], self@[j], n@);
                            lemma_node_order(n@, self@[i as int], self@[j]);
                        }
                    }
                }
                return i;
            }
            i += 1;
        }
        i
    }

    /// Whether `n` is one of the nodes.
    pub fn contains(&self, n: &Node) -> (r: bool)
        ensures
            r == self@.contains(n@),
    {
        proof {
            use_type_invariant(self);
        }
        let p = self.position(n);
        let r = p < self.nodes.len() && self.nodes[p].same(n);
        proof {
            if r {
                assert(self@[p as int] == n@);
            } else if self@.contains(n@) {
                let j = choose|j: int| 0 <= j < self@.len() && self@[j] == n@;
                lemma_node_order(n@, n@, n@);
                if j > p {
                    assert(node_lt(self@[p as int], self@[j]));
                }
                assert(false);
            }
        }
        r
    }

    /// Adds `n`; nothing changes when it is already there.
    pub fn insert(&mut self, n: Node)
        ensures
            final(self)@.to_set() == old(self)@.to_set().insert(n@),
            nodes_sorted(final(self)@),
    {
        proof {
            use_type_invariant(&*self);
        }
        let ghost s0 = self@;
        let p = self.position(&n);
        if p < self.nodes.len() && self.nodes[p].same(&n) {
            proof {
                assert(s0[p as int] == n@);
                assert(s0.to_set().contains(n@));
                assert(s0.to_set().insert(n@) =~= s0.to_set());
            }
            return;
        }
        let ghost nv = n@;
        let mut nodes: Vec<Node> = Vec::new();
        std::mem::swap(&mut nodes, &mut self.nodes);
        nodes.insert(p, n);
        proof {
            let s1 = nodes_view(nodes@);
            assert(s1 =~= s0.insert(p as int, nv));
            assert forall|i: int, j: int| 0 <= i < j < s1.len() implies node_lt(
                #[trigger] s1[i],
                #[trigger] s1[j],
            ) by {
                if j == p {
                    assert(node_lt(s0[i], nv));
                } else if i == p {
                    assert(s1[j] == s0[j - 1]);
                    lemma_node_order(s0[j - 1], nv, nv);
                    assert(!node_lt(s0[j - 1], nv));
                    if j - 1 == p {
                        assert(s0[p as int] != nv);
                    } else {
                        lemma_node_order(s0[p as int], nv, nv);
                        assert(!node_lt(s0[p as int], nv));
                        assert(node_lt(s0[p as int], s0[j - 1]));
                        if s0[p as int] == nv {
                        } else {
                            lemma_node_order(nv, s0[p as int], s0[j - 1]);
                        }
                    }
                } else {
                    let i0 = if i < p { i } else { i - 1 };
                    let j0 = if j < p { j } else { j - 1 };
                    assert(s1[i] == s0[i0]);
                    assert(s1[j] == s0[j0]);
                }
            }
            assert(s1.to_set() =~= s0.to_set().insert(nv)) by {
                assert forall|x: NodeView| s1.to_set().contains(x) implies s0.to_set().insert(
                    nv,
                ).contains(x) by {
                    let k = choose|k: int| 0 <= k < s1.len() && s1[k] == x;
                    if k < p {
                        assert(s0[k] == x);
                    } else if k > p {
                        assert(s0[k - 1] == x);
                    }
                }
                assert forall|x: NodeView| s0.to_set().insert(nv).contains(x) implies s1.to_set().contains(
                    x,
                ) by {
                    if x == nv {
                        assert(s1[p as int] == x);
                    } else {
                        let k = choose|k: int| 0 <= k < s0.len() && s0[k] == x;
                        if k < p {
                            assert(s1[k] == x);
                        } else {
                            assert(s1[k + 1] == x);
                        }
                    }
                }
            }
        }
        self.nodes = nodes;
        proof {
            use_type_invariant(&*self);
        }
    }

    /// Removes `n`, answering whether it was there.
    pub fn remove(&mut self, n: &Node) -> (r: bool)
        ensures
            r == old(self)@.contains(n@),
            final(self)@.to_set() == old(self)@.to_set().remove(n@),
            final(self)@.len() == old(self)@.len() - (if r { 1int } else { 0int }),
            nodes_sorted(final(self)@),
    {
        proof {
            use_type_invariant(&*self);
        }
        let ghost s0 = self@;
        let p = self.position(n);
        if !(p < self.nodes.len() && self.nodes[p].same(n)) {
            proof {
                if s0.contains(n@) {
                    let j = choose|j: int| 0 <= j < s0.len() && s0[j] == n@;
                    lemma_node_order(n@, n@, n@);
                    if j > p {
                        assert(node_lt(s0[p as int], s0[j]));
                    }
                    assert(false);
                }
                assert(s0.to_set().remove(n@) =~= s0.to_set());
            }
            return false;
        }
        let mut nodes: Vec<Node> = Vec::new();
        std::mem::swap(&mut nodes, &mut self.nodes);
        let _ = nodes.remove(p);
        proof {
            let s1 = nodes_view(nodes@);
            assert(s1 =~= s0.remove(p as int));
            assert(s0[p as int] == n@);
            assert forall|i: int, j: int| 0 <= i < j < s1.len() implies node_lt(
                #[trigger] s1[i],
                #[trigger] s1[j],
            ) by {
                let i0 = if i < p { i } else { i + 1 };
                let j0 = if j < p { j } else { j + 1 };
                assert(s1[i] == s0[i0]);
                assert(s1[j] == s0[j0]);
            }
            assert(s1.to_set() =~= s0.to_set().remove(n@)) by {
                assert forall|x: NodeView| s1.to_set().contains(x) implies s0.to_set().remove(
                    n@,
                ).contains(x) by {
                    let k = choose|k: int| 0 <= k < s1.len() && s1[k] == x;
                    let k0 = if k < p { k } else { k + 1 };
                    assert(s0[k0] == x);
                    lemma_node_order(s0[k0], s0[p as int], s0[p as int]);
                }
                assert forall|x: NodeView| s0.to_set().remove(n@).contains(x) implies s1.to_set().contains(
                    x,
                ) by {
                    let k = choose|k: int| 0 <= k < s0.len() && s0[k] == x;
                    if k < p {
                        assert(s1[k] == x);
                    } else {
                        assert(k != p);
                        assert(s1[k - 1] == x);
                    }
                }
            }
        }
        self.nodes = nodes;
        proof {
            use_type_invariant(&*self);
        }
        true
    }
}


/// The nodes in order, or in reverse order.
pub open spec fn ordered(s: Seq<NodeView>, rev: bool) -> Seq<NodeView> {
    if rev {
        s.reverse()
    } else {
        s
    }
}

/// The items of `s` that `take(count)` and then `skip(offset)` leave: those
/// at positions `offset` up to `count`, as far as `s` reaches.
pub open spec fn take_skip<A>(s: Seq<A>, count: int, offset: int) -> Seq<A> {
    let c = if count < s.len() { count } else { s.len() as int };
    let o = if offset < c { offset } else { c };
    s.subrange(o, c)
}

/// The offset and the end position that a `LIMIT offset count` gives on a
/// sorted set of `len` nodes: a negative offset counts as 0, a negative
/// count means all of them.
pub open spec fn spec_sharp_limit(limit: Option<(i64, i64)>, len: usize) -> (usize, usize) {
    match limit {
        Some((offset, count)) => {
            let o: i64 = if offset < 0 { 0 } else { offset };
            (o as usize, if count < 0 { len } else { (o + count) as usize })
        },
        None => (0, len),
    }
}

/// Whether `offset + count` of a limit fits in an `i64`.
pub open spec fn limit_fits(limit: Option<(i64, i64)>) -> bool {
    limit matches Some((offset, count)) ==> (count >= 0 ==> (if offset < 0 { 0 } else { offset })
        + count <= i64::MAX)
}

/// The offset and the end position of a `LIMIT`; see `spec_sharp_limit`.
pub fn sharp_limit(limit: Option<(i64, i64)>, len: usize) -> (r: (usize, usize))
    requires
        limit_fits(limit),
    ensures
        r == spec_sharp_limit(limit, len),
{
    match limit {
        Some((offset, count)) => {
            let o: i64 = if offset < 0 {
                0
            } else {
                offset
            };
            (o as usize, if count < 0 {
                len
            } else {
                (o + count) as usize
            })
        },
        None => (0, len),
    }
}

/// A rank in a sorted set of `len` nodes as a position: a negative rank
/// counts from the end, `-1` being the last node; the end of a range
/// (`max`) is one past the rank; the result is clamped to `0..=len`.
pub open spec fn spec_rank_index(len: int, index: int, max: bool) -> int {
    let i1 = if index < 0 { index + len } else { index };
    let i2 = if max { i1 + 1 } else { i1 };
    let i3 = if i2 < 0 { 0 } else { i2 };
    if i3 > len {
        len
    } else {
        i3
    }
}

/// A rank as a position; see `spec_rank_index`.
pub fn shape_rank_index(len: usize, index: i64, max: bool) -> (r: usize)
    requires
        len <= i64::MAX,
        !(max && index == i64::MAX),
    ensures
        r == spec_rank_index(len as int, index as int, max),
{
    let mut index = index;
    if index < 0 {
        index += len as i64;
    }
    if max {
        index += 1;
    }
    if index < 0 {
        index = 0;
    }
    if index > len as i64 {
        len
    } else {
        index as usize
    }
}

/// `ZRANGE` by rank: the nodes at positions `range.0..=range.1` of the
/// order (or of the reverse order), then the `LIMIT` window of those.
pub open spec fn spec_zrange_by_rank(
    s: Seq<NodeView>,
    range: (i64, i64),
    rev: bool,
    limit: Option<(i64, i64)>,
) -> Seq<NodeView> {
    let a = spec_rank_index(s.len() as int, range.0 as int, false);
    let b = spec_rank_index(s.len() as int, range.1 as int, true);
    let window = if a < b { ordered(s, rev).subrange(a, b) } else { Seq::empty() };
    let (offset, count) = spec_sharp_limit(limit, s.len() as usize);
    take_skip(window, count as int, offset as int)
}

/// The score range a `ZRANGEBYSCORE` looks at: a reverse query names the
/// upper end first.
pub open spec fn score_range(range: (Bound<i64>, Bound<i64>), rev: bool) -> (Bound<i64>, Bound<i64>) {
    if rev {
        (range.1, range.0)
    } else {
        range
    }
}

/// Whether a range's lower end lies above its upper end.
pub open spec fn score_range_inverted(range: (Bound<i64>, Bound<i64>)) -> bool {
    match (range.0, range.1) {
        (Bound::Included(a), Bound::Included(b)) => a > b,
        (Bound::Included(a), Bound::Excluded(b)) => a > b,
        (Bound::Excluded(a), Bound::Included(b)) => a > b,
        (Bound::Excluded(a), Bound::Excluded(b)) => a > b,
        _ => false,
    }
}

/// `ZRANGEBYSCORE`: the nodes whose score lies in the range, in order (or in
/// reverse order), then the `LIMIT` window of those.
pub open spec fn spec_zrange_by_score(
    s: Seq<NodeView>,
    range: (Bound<i64>, Bound<i64>),
    rev: bool,
    limit: Option<(i64, i64)>,
) -> Seq<NodeView> {
    let r = score_range(range, rev);
    let (offset, count) = spec_sharp_limit(limit, s.len() as usize);
    take_skip(ordered(s, rev).filter(|n: NodeView| in_range(r, n.score)), count as int, offset as int)
}

/// The names of a lexicographic range, in the order a query looks at them.
pub open spec fn lex_range(range: (Bound<String>, Bound<String>), rev: bool) -> (Bound<String>, Bound<String>) {
    if rev {
        (range.1, range.0)
    } else {
        range
    }
}

/// Whether node `n` lies on the inner side of the lower end at `score`.
pub open spec fn node_above(b: Bound<String>, score: i64, n: NodeView) -> bool {
    match b {
        Bound::Included(k) => !node_lt(n, NodeView { key: k@, score }),
        Bound::Excluded(k) => node_lt(NodeView { key: k@, score }, n),
        Bound::Unbounded => true,
    }
}

/// Whether node `n` lies on the inner side of the upper end at `score`.
pub open spec fn node_below(b: Bound<String>, score: i64, n: NodeView) -> bool {
    match b {
        Bound::Included(k) => !node_lt(NodeView { key: k@, score }, n),
        Bound::Excluded(k) => node_lt(n, NodeView { key: k@, score }),
        Bound::Unbounded => true,
    }
}

/// Whether the names of a lexicographic range make an empty or inverted
/// range of nodes: the lower name after the upper one, or the same name
/// excluded at both ends.
pub open spec fn lex_range_refused(range: (Bound<String>, Bound<String>)) -> bool {
    match (range.0, range.1) {
        (Bound::Included(a), Bound::Included(b)) => key_order(a@, b@) > 0,
        (Bound::Included(a), Bound::Excluded(b)) => key_order(a@, b@) > 0,
        (Bound::Excluded(a), Bound::Included(b)) => key_order(a@, b@) > 0,
        (Bound::Excluded(a), Bound::Excluded(b)) => key_order(a@, b@) >= 0,
        _ => false,
    }
}

/// `ZRANGEBYLEX`: the nodes between the two names taken at the score of the
/// first node, in order (or in reverse order), then the `LIMIT` window of
/// those. An empty set gives nothing.
pub open spec fn spec_zrange_by_lex(
    s: Seq<NodeView>,
    range: (Bound<String>, Bound<String>),
    rev: bool,
    limit: Option<(i64, i64)>,
) -> Seq<NodeView> {
    if s.len() == 0 {
        Seq::empty()
    } else {
        let score = s[0].score;
        let r = lex_range(range, rev);
        let (offset, count) = spec_sharp_limit(limit, s.len() as usize);
        take_skip(
            ordered(s, rev).filter(|n: NodeView| node_above(r.0, score, n) && node_below(r.1, score, n)),
            count as int,
            offset as int,
        )
    }
}

/// `ZRANK`'s scan: walking the nodes in order (or reverse order), the first
/// node named like `v` answers how many nodes came before it; passing `v`'s
/// score first answers nothing.
pub open spec fn zrank_scan(s: Seq<NodeView>, v: NodeView, rev: bool) -> Option<int>
    decreases s.len(),
{
    if s.len() == 0 {
        None
    } else if s[0].key == v.key {
        Some(0)
    } else if (if rev { s[0].score < v.score } else { s[0].score > v.score }) {
        None
    } else {
        match zrank_scan(s.drop_first(), v, rev) {
            Some(i) => Some(i + 1),
            None => None,
        }
    }
}

/// A rank found further along, counted from `d` nodes earlier.
pub open spec fn rank_after(r: Option<int>, d: int) -> Option<int> {
    match r {
        Some(i) => Some(i + d),
        None => None,
    }
}

impl NodeSet {
    /// The node at position `i` of the order, or of the reverse order.
    fn ordered_at(&self, i: usize, rev: bool) -> (r: &Node)
        requires
            i < self@.len(),
        ensures
            r@ == ordered(self@, rev)[i as int],
    {
        if rev {
            &self.nodes[self.nodes.len() - 1 - i]
        } else {
            &self.nodes[i]
        }
    }

    /// Copies of the nodes at positions `[b, e)` of `v`.
    fn window(v: &Vec<Node>, b: usize, e: usize) -> (r: Vec<Node>)
        requires
            b <= e <= v@.len(),
        ensures
            nodes_view(r@) == nodes_view(v@).subrange(b as int, e as int),
    {
        let mut r: Vec<Node> = Vec::new();
        let mut i: usize = b;
        while i < e
            invariant
                b <= i <= e <= v@.len(),
                nodes_view(r@) == nodes_view(v@).subrange(b as int, i as int),
            decreases e - i,
        {
            let ghost r0 = r@;
            r.push(v[i].duplicate());
            proof {
                assert(nodes_view(r@) =~= nodes_view(r0).push(v@[i as int]@));
                assert(nodes_view(v@).subrange(b as int, i + 1) =~= nodes_view(v@).subrange(
                    b as int,
                    i as int,
                ).push(v@[i as int]@));
            }
            i += 1;
        }
        r
    }

    /// The `LIMIT` window of `v`.
    fn limit_window(v: &Vec<Node>, count: usize, offset: usize) -> (r: Vec<Node>)
        ensures
            nodes_view(r@) == take_skip(nodes_view(v@), count as int, offset as int),
    {
        let c = if count < v.len() {
            count
        } else {
            v.len()
        };
        let o = if offset < c {
            offset
        } else {
            c
        };
        Self::window(v, o, c)
    }

    /// `ZRANGE` by rank; see `spec_zrange_by_rank`.
    pub fn zrange_by_rank(&self, range: (i64, i64), rev: bool, limit: Option<(i64, i64)>) -> (r: Vec<Node>)
        requires
            self@.len() <= i64::MAX,
            range.1 != i64::MAX,
            limit_fits(limit),
        ensures
            nodes_view(r@) == spec_zrange_by_rank(self@, range, rev, limit),
    {
        let len = self.nodes.len();
        let a = shape_rank_index(len, range.0, false);
        let b = shape_rank_index(len, range.1, true);
        let (offset, count) = sharp_limit(limit, len);
        let mut win: Vec<Node> = Vec::new();
        if a < b {
            let mut i: usize = a;
            while i < b
                invariant
                    a <= i <= b <= self@.len(),
                    nodes_view(win@) == ordered(self@, rev).subrange(a as int, i as int),
                decreases b - i,
            {
                let ghost w0 = win@;
                let n = self.ordered_at(i, rev).duplicate();
                let ghost nv = n@;
                win.push(n);
                proof {
                    assert(nodes_view(win@) =~= nodes_view(w0).push(nv));
                    assert(ordered(self@, rev).subrange(a as int, i + 1) =~= ordered(
                        self@,
                        rev,
                    ).subrange(a as int, i as int).push(nv));
                }
                i += 1;
            }
        } else {
            proof {
                assert(nodes_view(win@) =~= Seq::<NodeView>::empty());
            }
        }
        Self::limit_window(&win, count, offset)
    }

    /// `ZRANGEBYSCORE`; see `spec_zrange_by_score`. A range whose lower end
    /// lies above its upper end is not accepted.
    pub fn zrange_by_score(&self, range: (Bound<i64>, Bound<i64>), rev: bool, limit: Option<(i64, i64)>) -> (r:
        Vec<Node>)
        requires
            !score_range_inverted(score_range(range, rev)),
            limit_fits(limit),
        ensures
            nodes_view(r@) == spec_zrange_by_score(self@, range, rev, limit),
    {
        let range = if rev {
            (range.1, range.0)
        } else {
            range
        };
        let ghost pred = |n: NodeView| in_range(range, n.score);
        let (offset, count) = sharp_limit(limit, self.nodes.len());
        let mut hits: Vec<Node> = Vec::new();
        let mut i: usize = 0;
        while i < self.nodes.len()
            invariant
                0 <= i <= self@.len(),
                self@.len() == self.nodes@.len(),
                pred == (|n: NodeView| in_range(range, n.score)),
                nodes_view(hits@) == ordered(self@, rev).take(i as int).filter(pred),
            decreases self@.len() - i,
        {
            let n = self.ordered_at(i, rev);
            let ghost h0 = hits@;
            proof {
                let o = ordered(self@, rev);
                assert(o.take(i + 1).drop_last() =~= o.take(i as int));
                reveal(Seq::filter);
            }
            if contains(&range, n.score) {
                let c = n.duplicate();
                hits.push(c);
                proof {
                    assert(nodes_view(hits@) =~= nodes_view(h0).push(n@));
                }
            }
            i += 1;
        }
        proof {
            assert(ordered(self@, rev).take(self@.len() as int) =~= ordered(self@, rev));
        }
        Self::limit_window(&hits, count, offset)
    }

    /// `ZRANGEBYLEX`; see `spec_zrange_by_lex`. On a set that is not empty,
    /// a range whose names are inverted, or that excludes the same name at
    /// both ends, is not accepted.
    pub fn zrange_by_lex(&self, range: (Bound<String>, Bound<String>), rev: bool, limit: Option<(i64, i64)>) -> (r:
        Vec<Node>)
        requires
            self@.len() > 0 ==> !lex_range_refused(lex_range(range, rev)),
            limit_fits(limit),
        ensures
            nodes_view(r@) == spec_zrange_by_lex(self@, range, rev, limit),
    {
        let score = match self.first() {
            Some(t) => t.score,
            None => {
                let v: Vec<Node> = Vec::new();
                proof {
                    assert(nodes_view(v@) =~= Seq::<NodeView>::empty());
                }
                return v;
            },
        };
        let range = if rev {
            (range.1, range.0)
        } else {
            range
        };
        let ghost pred = |n: NodeView| node_above(range.0, score, n) && node_below(range.1, score, n);
        let (offset, count) = sharp_limit(limit, self.nodes.len());
        let mut hits: Vec<Node> = Vec::new();
        let mut i: usize = 0;
        while i < self.nodes.len()
            invariant
                0 <= i <= self@.len(),
                self@.len() == self.nodes@.len(),
                pred == (|n: NodeView| node_above(range.0, score, n) && node_below(range.1, score, n)),
                nodes_view(hits@) == ordered(self@, rev).take(i as int).filter(pred),
            decreases self@.len() - i,
        {
            let n = self.ordered_at(i, rev);
            let ghost h0 = hits@;
            proof {
                let o = ordered(self@, rev);
                assert(o.take(i + 1).drop_last() =~= o.take(i as int));
                reveal(Seq::filter);
            }
            let above = match &range.0 {
                Bound::Included(k) => {
                    let b = Node { key: k.clone(), score };
                    !n.less(&b)
                },
                Bound::Excluded(k) => {
                    let b = Node { key: k.clone(), score };
                    b.less(n)
                },
                Bound::Unbounded => true,
            };
            let below = match &range.1 {
                Bound::Included(k) => {
                    let b = Node { key: k.clone(), score };
                    !b.less(n)
                },
                Bound::Excluded(k) => {
                    let b = Node { key: k.clone(), score };
                    n.less(&b)
                },
                Bound::Unbounded => true,
            };
            if above && below {
                let c = n.duplicate();
                hits.push(c);
                proof {
                    assert(nodes_view(hits@) =~= nodes_view(h0).push(n@));
                }
            }
            i += 1;
        }
        proof {
            assert(ordered(self@, rev).take(self@.len() as int) =~= ordered(self@, rev));
        }
        Self::limit_window(&hits, count, offset)
    }

    /// `ZRANK`'s scan for `value`; see `zrank_scan`.
    pub fn zrank(&self, value: &Node, rev: bool) -> (r: Option<usize>)
        ensures
            match r {
                Some(i) => zrank_scan(ordered(self@, rev), value@, rev) == Some(i as int),
                None => zrank_scan(ordered(self@, rev), value@, rev) is None,
            },
    {
        let mut i: usize = 0;
        proof {
            assert(ordered(self@, rev).skip(0) =~= ordered(self@, rev));
        }
        while i < self.nodes.len()
            invariant
                0 <= i <= self@.len(),
                self@.len() == self.nodes@.len(),
                zrank_scan(ordered(self@, rev), value@, rev) == rank_after(
                    zrank_scan(ordered(self@, rev).skip(i as int), value@, rev),
                    i as int,
                ),
            decreases self@.len() - i,
        {
            let n = self.ordered_at(i, rev);
            let ghost rest = ordered(self@, rev).skip(i as int);
            proof {
                assert(rest[0] == n@);
                assert(rest.drop_first() =~= ordered(self@, rev).skip(i + 1));
            }
            if n.key.eq(&value.key) {
                proof {
                    assert(rest.len() > 0);
                    assert(zrank_scan(rest, value@, rev) == Some(0int));
                }
                return Some(i);
            }
            let passed = if rev {
                n.score < value.score
            } else {
                n.score > value.score
            };
            if passed {
                return None;
            }
            i += 1;
        }
        proof {
            assert(ordered(self@, rev).skip(i as int).len() == 0);
        }
        None
    }
}

/// A filter whose test holds exactly on the positions `a..b` keeps that
/// stretch.
proof fn lemma_filter_range(s: Seq<NodeView>, p: spec_fn(NodeView) -> bool, a: int, b: int)
    requires
        0 <= a <= b <= s.len(),
        forall|i: int| 0 <= i < s.len() ==> (p(#[trigger] s[i]) <==> a <= i < b),
    ensures
        s.filter(p) == s.subrange(a, b),
    decreases s.len(),
{
    reveal(Seq::filter);
    if s.len() == 0 {
        assert(s.filter(p) =~= s.subrange(a, b));
    } else {
        let d = s.drop_last();
        let n = s.len() - 1;
        let b2 = if b > n { n } else { b };
        let a2 = if a > b2 { b2 } else { a };
        assert forall|i: int| 0 <= i < d.len() implies (p(#[trigger] d[i]) <==> a2 <= i < b2) by {
            assert(d[i] == s[i]);
            if a2 < a {
                assert(a == b);
            }
        }
        lemma_filter_range(d, p, a2, b2);
        if p(s.last()) {
            assert(s[n] == s.last());
            assert(b == s.len() && a <= n);
            assert(s.filter(p) =~= s.subrange(a, b));
        } else {
            assert(s[n] == s.last());
            assert(s.filter(p) =~= s.subrange(a, b));
        }
    }
}

/// In a sorted set that holds `v`, and no other node named like it, the
/// scan of `ZRANK` for `v` answers the position of `v` in the order (or in
/// the reverse order): the number of nodes that come before it (or after
/// it).
pub proof fn lemma_zrank_finds_member(s: Seq<NodeView>, v: NodeView, rev: bool)
    requires
        nodes_sorted(s),
        s.contains(v),
        forall|i: int| 0 <= i < s.len() && (#[trigger] s[i]).key == v.key ==> s[i] == v,
    ensures
        zrank_scan(ordered(s, rev), v, rev) matches Some(r) && 0 <= r < s.len() && ordered(s, rev)[r] == v
            && r == (if rev { s.filter(|n: NodeView| node_lt(v, n)).len() } else { s.filter(|n: NodeView| node_lt(n, v)).len() }),
{
    let o = ordered(s, rev);
    let j = choose|j: int| 0 <= j < s.len() && s[j] == v;
    let k = if rev { s.len() - 1 - j } else { j };
    assert(o[k] == v);
    lemma_scan_reaches(o, v, rev, k, s, j);
    if rev {
        let p = |n: NodeView| node_lt(v, n);
        assert forall|i: int| 0 <= i < s.len() implies (p(#[trigger] s[i]) <==> j + 1 <= i < s.len()) by {
            lemma_node_order(s[i], v, v);
            lemma_node_order(v, s[i], s[i]);
        }
        lemma_filter_range(s, p, j + 1, s.len() as int);
    } else {
        let p = |n: NodeView| node_lt(n, v);
        assert forall|i: int| 0 <= i < s.len() implies (p(#[trigger] s[i]) <==> 0 <= i < j) by {
            lemma_node_order(s[i], v, v);
            lemma_node_order(v, s[i], s[i]);
        }
        lemma_filter_range(s, p, 0, j);
    }
}

proof fn lemma_scan_reaches(o: Seq<NodeView>, v: NodeView, rev: bool, k: int, s: Seq<NodeView>, j: int)
    requires
        nodes_sorted(s),
        0 <= j < s.len(),
        s[j] == v,
        forall|i: int| 0 <= i < s.len() && (#[trigger] s[i]).key == v.key ==> s[i] == v,
        o == ordered(s, rev),
        0 <= k < o.len(),
        k == (if rev { s.len() - 1 - j } else { j }),
    ensures
        zrank_scan(o, v, rev) == Some(k),
    decreases k,
{
    let i0 = if rev { s.len() - 1 } else { 0 };
    assert(o[0] == s[i0]);
    if k == 0 {
        assert(o[0] == v);
    } else {
        if rev {
            assert(node_lt(s[j], s[i0]));
        } else {
            assert(node_lt(s[i0], s[j]));
        }
        assert(s[i0] != v) by {
            lemma_node_order(v, v, v);
        }
        assert(o[0].key != v.key);
        let s2 = if rev { s.drop_last() } else { s.drop_first() };
        let j2 = if rev { j } else { j - 1 };
        assert(o.drop_first() =~= ordered(s2, rev));
        assert(nodes_sorted(s2));
        assert forall|i: int| 0 <= i < s2.len() && (#[trigger] s2[i]).key == v.key implies s2[i] == v by {
            if rev {
                assert(s2[i] == s[i]);
            } else {
                assert(s2[i] == s[i + 1]);
            }
        }
        lemma_scan_reaches(o.drop_first(), v, rev, k - 1, s2, j2);
    }
}

/// Names, as mathematical values.
pub open spec fn keys_view(s: Seq<String>) -> Seq<Seq<char>> {
    s.map_values(|k: String| k@)
}

/// Whether `ZADD` with these options writes node `n` into the members' map
/// `h`: always without options; with `NX` only a new member; with `XX` only
/// an existing one; with `GT` or `LT` an existing member only when its
/// score goes up, or down, and a new member unless `XX` holds it back.
pub open spec fn spec_can_update(h: Map<Seq<char>, NodeView>, n: NodeView, nx_xx: NxXx, gt_lt: GtLt) -> bool {
    match (nx_xx, gt_lt) {
        (NxXx::NoCondition, GtLt::NoCondition) => true,
        (NxXx::Nx, GtLt::NoCondition) => !h.contains_key(n.key),
        (NxXx::Nx, _) => false,
        (NxXx::Xx, GtLt::NoCondition) => h.contains_key(n.key),
        (_, GtLt::Gt) => if h.contains_key(n.key) {
            n.score > h[n.key].score
        } else {
            nx_xx is NoCondition
        },
        (_, GtLt::Lt) => if h.contains_key(n.key) {
            n.score < h[n.key].score
        } else {
            nx_xx is NoCondition
        },
    }
}

/// The members' map after `ZADD` considers node `v`; with `incr` an existing
/// member's score is added to `v`'s.
pub open spec fn add_step(h: Map<Seq<char>, NodeView>, v: NodeView, nx_xx: NxXx, gt_lt: GtLt, incr: bool) -> Map<
    Seq<char>,
    NodeView,
> {
    if spec_can_update(h, v, nx_xx, gt_lt) {
        let sc: int = if incr && h.contains_key(v.key) { v.score + h[v.key].score } else { v.score as int };
        h.insert(v.key, NodeView { key: v.key, score: sc as i64 })
    } else {
        h
    }
}

/// Whether the sum that `add_step` makes fits in an `i64`.
pub open spec fn step_fits(h: Map<Seq<char>, NodeView>, v: NodeView, nx_xx: NxXx, gt_lt: GtLt, incr: bool) -> bool {
    spec_can_update(h, v, nx_xx, gt_lt) && incr && h.contains_key(v.key) ==> i64::MIN <= v.score
        + h[v.key].score <= i64::MAX
}

/// The members' map after `ZADD` considers the nodes `vs` in turn.
pub open spec fn add_all(h: Map<Seq<char>, NodeView>, vs: Seq<NodeView>, nx_xx: NxXx, gt_lt: GtLt, incr: bool) -> Map<
    Seq<char>,
    NodeView,
>
    decreases vs.len(),
{
    if vs.len() == 0 {
        h
    } else {
        add_step(add_all(h, vs.drop_last(), nx_xx, gt_lt, incr), vs.last(), nx_xx, gt_lt, incr)
    }
}

/// Whether every sum that `add_all` makes fits in an `i64`.
pub open spec fn add_fits(h: Map<Seq<char>, NodeView>, vs: Seq<NodeView>, nx_xx: NxXx, gt_lt: GtLt, incr: bool) -> bool
    decreases vs.len(),
{
    vs.len() == 0 || (add_fits(h, vs.drop_last(), nx_xx, gt_lt, incr) && step_fits(
        add_all(h, vs.drop_last(), nx_xx, gt_lt, incr),
        vs.last(),
        nx_xx,
        gt_lt,
        incr,
    ))
}

proof fn lemma_add_fits_prefix(
    h: Map<Seq<char>, NodeView>,
    vs: Seq<NodeView>,
    n: int,
    nx_xx: NxXx,
    gt_lt: GtLt,
    incr: bool,
)
    requires
        add_fits(h, vs, nx_xx, gt_lt, incr),
        0 <= n <= vs.len(),
    ensures
        add_fits(h, vs.take(n), nx_xx, gt_lt, incr),
    decreases vs.len(),
{
    if n < vs.len() {
        assert(vs.drop_last().take(n) =~= vs.take(n));
        lemma_add_fits_prefix(h, vs.drop_last(), n, nx_xx, gt_lt, incr);
    } else {
        assert(vs.take(n) =~= vs);
    }
}

/// A sorted set while `ZADD` works through its nodes: the node of each
/// member, the nodes in order as a set, how many members were added and
/// how many existing members had their score changed.
pub struct AddState {
    pub hash: Map<Seq<char>, NodeView>,
    pub value: vstd::set::Set<NodeView>,
    pub added: nat,
    pub changed: nat,
}

/// `ZADD` on node `v`: the member's node becomes the one `add_step`
/// writes; in order, the old node makes way for it.
pub open spec fn add_state_step(st: AddState, v: NodeView, nx_xx: NxXx, gt_lt: GtLt, incr: bool) -> AddState {
    if spec_can_update(st.hash, v, nx_xx, gt_lt) {
        let h2 = add_step(st.hash, v, nx_xx, gt_lt, incr);
        let n2 = h2[v.key];
        if st.hash.contains_key(v.key) {
            let on = st.hash[v.key];
            AddState {
                hash: h2,
                value: st.value.remove(on).insert(n2),
                added: st.added,
                changed: if on.score != n2.score { st.changed + 1 } else { st.changed },
            }
        } else {
            AddState { hash: h2, value: st.value.insert(n2), added: st.added + 1, changed: st.changed }
        }
    } else {
        st
    }
}

/// `ZADD` on the nodes `vs` in turn.
pub open spec fn add_state_all(st: AddState, vs: Seq<NodeView>, nx_xx: NxXx, gt_lt: GtLt, incr: bool) -> AddState
    decreases vs.len(),
{
    if vs.len() == 0 {
        st
    } else {
        add_state_step(add_state_all(st, vs.drop_last(), nx_xx, gt_lt, incr), vs.last(), nx_xx, gt_lt, incr)
    }
}

/// A sorted set as `ZADD` starts on it.
pub open spec fn add_start(z: SortedSetView) -> AddState {
    AddState { hash: z.hash, value: z.value.to_set(), added: 0, changed: 0 }
}

/// What `ZADD` answers: the members added, and with `ch` also the members
/// whose score changed.
pub open spec fn add_answer(st: AddState, ch: bool) -> nat {
    if ch {
        st.added + st.changed
    } else {
        st.added
    }
}

/// The members' map that `add_state_all` keeps is the one `add_all` makes.
proof fn lemma_add_state_hash(st: AddState, vs: Seq<NodeView>, nx_xx: NxXx, gt_lt: GtLt, incr: bool)
    ensures
        add_state_all(st, vs, nx_xx, gt_lt, incr).hash == add_all(st.hash, vs, nx_xx, gt_lt, incr),
        add_state_all(st, vs, nx_xx, gt_lt, incr).added + add_state_all(st, vs, nx_xx, gt_lt, incr).changed
            <= st.added + st.changed + vs.len(),
    decreases vs.len(),
{
    if vs.len() > 0 {
        lemma_add_state_hash(st, vs.drop_last(), nx_xx, gt_lt, incr);
    }
}

/// `ZADD` with `XX` never adds a member, whatever `GT`/`LT` say: the
/// members after it are exactly those before, and none counts as added.
pub proof fn lemma_zadd_xx_adds_nothing(st: AddState, vs: Seq<NodeView>, gt_lt: GtLt, incr: bool)
    ensures
        add_state_all(st, vs, NxXx::Xx, gt_lt, incr).hash.dom() == st.hash.dom(),
        add_state_all(st, vs, NxXx::Xx, gt_lt, incr).added == st.added,
    decreases vs.len(),
{
    if vs.len() > 0 {
        lemma_zadd_xx_adds_nothing(st, vs.drop_last(), gt_lt, incr);
        let s0 = add_state_all(st, vs.drop_last(), NxXx::Xx, gt_lt, incr);
        let v = vs.last();
        if spec_can_update(s0.hash, v, NxXx::Xx, gt_lt) {
            assert(s0.hash.contains_key(v.key));
            assert(add_step(s0.hash, v, NxXx::Xx, gt_lt, incr).dom() =~= s0.hash.dom());
        }
    }
}

/// `ZADD` with `NX` never touches a member that exists: its node stays as
/// it was, and no score counts as changed.
pub proof fn lemma_zadd_nx_keeps_members(st: AddState, vs: Seq<NodeView>, gt_lt: GtLt, incr: bool)
    ensures
        forall|k: Seq<char>| #[trigger] st.hash.contains_key(k) ==> add_state_all(st, vs, NxXx::Nx, gt_lt, incr).hash.contains_key(k)
            && add_state_all(st, vs, NxXx::Nx, gt_lt, incr).hash[k] == st.hash[k],
        add_state_all(st, vs, NxXx::Nx, gt_lt, incr).changed == st.changed,
    decreases vs.len(),
{
    if vs.len() > 0 {
        lemma_zadd_nx_keeps_members(st, vs.drop_last(), gt_lt, incr);
        let s0 = add_state_all(st, vs.drop_last(), NxXx::Nx, gt_lt, incr);
        let v = vs.last();
        if spec_can_update(s0.hash, v, NxXx::Nx, gt_lt) {
            assert(!s0.hash.contains_key(v.key));
            assert(!st.hash.contains_key(v.key));
        }
    }
}

/// `ZADD` with `GT` and without `INCR` only ever raises the score of a
/// member that exists, and it stays a member.
pub proof fn lemma_zadd_gt_only_raises(st: AddState, vs: Seq<NodeView>, nx_xx: NxXx)
    ensures
        forall|k: Seq<char>| #[trigger] st.hash.contains_key(k) ==> add_state_all(st, vs, nx_xx, GtLt::Gt, false).hash.contains_key(k)
            && st.hash[k].score <= add_state_all(st, vs, nx_xx, GtLt::Gt, false).hash[k].score,
    decreases vs.len(),
{
    if vs.len() > 0 {
        lemma_zadd_gt_only_raises(st, vs.drop_last(), nx_xx);
    }
}

/// `ZADD` with `LT` and without `INCR` only ever lowers the score of a
/// member that exists, and it stays a member.
pub proof fn lemma_zadd_lt_only_lowers(st: AddState, vs: Seq<NodeView>, nx_xx: NxXx)
    ensures
        forall|k: Seq<char>| #[trigger] st.hash.contains_key(k) ==> add_state_all(st, vs, nx_xx, GtLt::Lt, false).hash.contains_key(k)
            && add_state_all(st, vs, nx_xx, GtLt::Lt, false).hash[k].score <= st.hash[k].score,
    decreases vs.len(),
{
    if vs.len() > 0 {
        lemma_zadd_lt_only_lowers(st, vs.drop_last(), nx_xx);
    }
}

/// `ZADD` without options writes every node: afterwards each node's member
/// is in the set, and the last node given for a member sets its score
/// (without `INCR`).
pub proof fn lemma_zadd_plain_writes_all(st: AddState, vs: Seq<NodeView>)
    ensures
        forall|i: int| 0 <= i < vs.len() ==> add_state_all(st, vs, NxXx::NoCondition, GtLt::NoCondition, false).hash.contains_key(
            #[trigger] vs[i].key,
        ),
        vs.len() > 0 ==> add_state_all(st, vs, NxXx::NoCondition, GtLt::NoCondition, false).hash[vs.last().key].score
            == vs.last().score,
    decreases vs.len(),
{
    if vs.len() > 0 {
        lemma_zadd_plain_writes_all(st, vs.drop_last());
        assert forall|i: int| 0 <= i < vs.len() implies add_state_all(st, vs, NxXx::NoCondition, GtLt::NoCondition, false).hash.contains_key(
            #[trigger] vs[i].key,
        ) by {
            if i < vs.len() - 1 {
                assert(vs[i] == vs.drop_last()[i]);
            }
        }
    }
}

/// The nodes that `ZREM` of the names `ks` takes out: those of the members
/// named.
pub open spec fn zrem_gone(h: Map<Seq<char>, NodeView>, ks: vstd::set::Set<Seq<char>>) -> vstd::set::Set<NodeView> {
    vstd::set::Set::new(|n: NodeView| exists|k: Seq<char>| #[trigger] ks.contains(k) && h.contains_key(k) && h[k] == n)
}

/// Whether a member map and a set of nodes agree: every member's node is
/// named after it and is among the nodes, and every node is its member's
/// node.
pub open spec fn agree(h: Map<Seq<char>, NodeView>, v: vstd::set::Set<NodeView>) -> bool {
    &&& forall|k: Seq<char>| #[trigger] h.contains_key(k) ==> h[k].key == k && v.contains(h[k])
    &&& forall|n: NodeView| #[trigger] v.contains(n) ==> h.contains_key(n.key) && h[n.key] == n
}

/// Whether a sorted set's member map and its nodes in order agree.
pub open spec fn zset_consistent(z: SortedSetView) -> bool {
    agree(z.hash, z.value.to_set())
}

/// One step of `ZADD` keeps the member map and the nodes in agreement.
proof fn lemma_add_step_agree(st: AddState, v: NodeView, nx_xx: NxXx, gt_lt: GtLt, incr: bool)
    requires
        agree(st.hash, st.value),
    ensures
        agree(add_state_step(st, v, nx_xx, gt_lt, incr).hash, add_state_step(st, v, nx_xx, gt_lt, incr).value),
{
    let st2 = add_state_step(st, v, nx_xx, gt_lt, incr);
    if spec_can_update(st.hash, v, nx_xx, gt_lt) {
        let k = v.key;
        let n2 = st2.hash[k];
        assert(n2.key == k);
        assert forall|k2: Seq<char>| #[trigger] st2.hash.contains_key(k2) implies st2.hash[k2].key == k2 && st2.value.contains(
            st2.hash[k2],
        ) by {
            if k2 != k {
                assert(st.hash.contains_key(k2));
                if st.hash.contains_key(k) {
                    assert(st.hash[k2] != st.hash[k]);
                }
            }
        }
        assert forall|n: NodeView| #[trigger] st2.value.contains(n) implies st2.hash.contains_key(n.key) && st2.hash[n.key] == n by {
            if n != n2 {
                assert(st.value.contains(n));
                if n.key == k {
                    assert(st.hash[k] == n);
                }
            }
        }
    }
}

/// `ZADD` keeps the member map and the nodes in agreement.
pub proof fn lemma_add_agree(st: AddState, vs: Seq<NodeView>, nx_xx: NxXx, gt_lt: GtLt, incr: bool)
    requires
        agree(st.hash, st.value),
    ensures
        agree(add_state_all(st, vs, nx_xx, gt_lt, incr).hash, add_state_all(st, vs, nx_xx, gt_lt, incr).value),
    decreases vs.len(),
{
    if vs.len() > 0 {
        lemma_add_agree(st, vs.drop_last(), nx_xx, gt_lt, incr);
        lemma_add_step_agree(add_state_all(st, vs.drop_last(), nx_xx, gt_lt, incr), vs.last(), nx_xx, gt_lt, incr);
    }
}

/// Removing nodes, and the members they belong to, keeps the member map and
/// the nodes in agreement.
proof fn lemma_remove_agree(
    h: Map<Seq<char>, NodeView>,
    v: vstd::set::Set<NodeView>,
    g: vstd::set::Set<NodeView>,
    ks: vstd::set::Set<Seq<char>>,
)
    requires
        agree(h, v),
        g.subset_of(v),
        forall|k: Seq<char>| #[trigger] ks.contains(k) <==> exists|n: NodeView| #[trigger] g.contains(n) && n.key == k,
    ensures
        agree(h.remove_keys(ks), v - g),
{
    let h2 = h.remove_keys(ks);
    let v2 = v - g;
    assert forall|k: Seq<char>| #[trigger] h2.contains_key(k) implies h2[k].key == k && v2.contains(h2[k]) by {
        if g.contains(h[k]) {
            assert(ks.contains(h[k].key));
        }
    }
    assert forall|n: NodeView| #[trigger] v2.contains(n) implies h2.contains_key(n.key) && h2[n.key] == n by {
        if ks.contains(n.key) {
            let m = choose|m: NodeView| #[trigger] g.contains(m) && m.key == n.key;
            assert(v.contains(m));
            assert(h[m.key] == m);
        }
    }
}

/// A stretch of a sorted sequence of nodes is sorted, and each of its nodes
/// is one of the sequence's.
proof fn lemma_sorted_subrange(s: Seq<NodeView>, lo: int, hi: int)
    requires
        nodes_sorted(s),
        0 <= lo <= hi <= s.len(),
    ensures
        nodes_sorted(s.subrange(lo, hi)),
        forall|i: int| 0 <= i < hi - lo ==> s.contains(#[trigger] s.subrange(lo, hi)[i]),
{
    assert forall|i: int| 0 <= i < hi - lo implies s.contains(#[trigger] s.subrange(lo, hi)[i]) by {
        assert(s[lo + i] == s.subrange(lo, hi)[i]);
    }
    assert forall|i: int, j: int| 0 <= i < j < hi - lo implies node_lt(
        #[trigger] s.subrange(lo, hi)[i],
        #[trigger] s.subrange(lo, hi)[j],
    ) by {
        assert(s.subrange(lo, hi)[i] == s[lo + i]);
        assert(s.subrange(lo, hi)[j] == s[lo + j]);
    }
}

/// The nodes of a sorted sequence that a predicate keeps are sorted, and
/// each is one of the sequence's.
proof fn lemma_sorted_filter(s: Seq<NodeView>, p: spec_fn(NodeView) -> bool)
    requires
        nodes_sorted(s),
    ensures
        nodes_sorted(s.filter(p)),
        forall|i: int| 0 <= i < s.filter(p).len() ==> s.contains(#[trigger] s.filter(p)[i]),
    decreases s.len(),
{
    reveal(Seq::filter);
    if s.len() > 0 {
        let d = s.drop_last();
        assert(nodes_sorted(d));
        lemma_sorted_filter(d, p);
        let f = d.filter(p);
        assert forall|i: int| 0 <= i < f.len() implies s.contains(#[trigger] f[i]) by {
            let k = choose|k: int| 0 <= k < d.len() && d[k] == f[i];
            assert(s[k] == f[i]);
        }
        if p(s.last()) {
            let g = f.push(s.last());
            assert forall|i: int, j: int| 0 <= i < j < g.len() implies node_lt(
                #[trigger] g[i],
                #[trigger] g[j],
            ) by {
                if j == f.len() {
                    let k = choose|k: int| 0 <= k < d.len() && d[k] == f[i];
                    assert(node_lt(s[k], s[s.len() - 1]));
                } else {
                    assert(g[i] == f[i] && g[j] == f[j]);
                }
            }
            assert forall|i: int| 0 <= i < g.len() implies s.contains(#[trigger] g[i]) by {
                if i == f.len() {
                    assert(s[s.len() - 1] == g[i]);
                } else {
                    assert(g[i] == f[i]);
                }
            }
        }
    }
}

/// The nodes a `ZRANGEBYSCORE` picks, in order, from sorted nodes are sorted,
/// are nodes of the set, and have scores in the range.
pub proof fn lemma_zrange_by_score_parts(s: Seq<NodeView>, range: (Bound<i64>, Bound<i64>), limit: Option<(i64, i64)>)
    requires
        nodes_sorted(s),
    ensures
        nodes_sorted(spec_zrange_by_score(s, range, false, limit)),
        forall|i: int|
            0 <= i < spec_zrange_by_score(s, range, false, limit).len() ==> s.contains(
                #[trigger] spec_zrange_by_score(s, range, false, limit)[i],
            ) && in_range(range, spec_zrange_by_score(s, range, false, limit)[i].score),
{
    let p = |n: NodeView| in_range(range, n.score);
    lemma_sorted_filter(s, p);
    let f = s.filter(p);
    broadcast use vstd::seq_lib::group_filter_ensures;
    let (offset, count) = spec_sharp_limit(limit, s.len() as usize);
    let c = if (count as int) < f.len() { count as int } else { f.len() as int };
    let o = if (offset as int) < c { offset as int } else { c };
    lemma_sorted_subrange(f, o, c);
    assert(ordered(s, false) == s);
    assert(score_range(range, false) == range);
    let g = spec_zrange_by_score(s, range, false, limit);
    assert(g =~= f.subrange(o, c));
    assert forall|i: int| 0 <= i < g.len() implies s.contains(#[trigger] g[i]) && in_range(range, g[i].score) by {
        assert(g[i] == f[o + i]);
        assert(p(f[o + i]));
    }
}

/// The nodes of a sorted sequence are distinct.
proof fn lemma_sorted_distinct(s: Seq<NodeView>)
    requires
        nodes_sorted(s),
    ensures
        forall|i: int, j: int| 0 <= i < j < s.len() ==> #[trigger] s[i] != #[trigger] s[j],
{
    assert forall|i: int, j: int| 0 <= i < j < s.len() implies #[trigger] s[i] != #[trigger] s[j] by {
        lemma_node_order(s[i], s[j], s[j]);
    }
}

/// Which nodes a `ZRANGE` asks for: by rank, by score or by name.
pub enum RangeItem {
    Rank((i64, i64)),
    Socre((Bound<i64>, Bound<i64>)),
    Lex((Bound<String>, Bound<String>)),
}

/// A sorted set: its members by name, and its nodes in order.
pub struct SortedSet {
    version: u64,
    hash: KeyMap<String, Node>,
    value: NodeSet,
}

/// A sorted set, as mathematical values.
pub struct SortedSetView {
    /// The node of each member, by name.
    pub hash: Map<Seq<char>, NodeView>,
    /// The nodes in order.
    pub value: Seq<NodeView>,
}

impl View for SortedSet {
    type V = SortedSetView;

    closed spec fn view(&self) -> SortedSetView {
        SortedSetView { hash: self.hash.spec_map(), value: self.value@ }
    }
}

impl SortedSet {
    /// How many times `ZREM` has written to this set, modulo 2^64.
    pub closed spec fn version(self) -> u64 {
        self.version
    }

    /// A new empty sorted set.
    pub fn new() -> (r: SortedSet)
        ensures
            r@.hash == Map::<Seq<char>, NodeView>::empty(),
            r@.value == Seq::<NodeView>::empty(),
            zset_consistent(r@),
    {
        SortedSet { version: 0, hash: KeyMap::new(), value: NodeSet::new() }
    }

    /// Whether `key` is a member.
    pub fn contains_key(&self, key: &String) -> (r: bool)
        ensures
            r == self@.hash.contains_key(key@),
    {
        self.hash.contains_key(key)
    }

    /// The node of member `key`.
    pub fn get(&self, key: &String) -> (r: Option<&Node>)
        ensures
            r is None <==> !self@.hash.contains_key(key@),
            r matches Some(n) ==> n@ == self@.hash[key@],
    {
        self.hash.get(key)
    }

    /// The number of nodes in order.
    pub fn size(&self) -> (r: usize)
        ensures
            r == self@.value.len(),
    {
        self.value.size()
    }

    /// The nodes in order.
    pub fn nodes(&self) -> (r: &NodeSet)
        ensures
            r@ == self@.value,
    {
        &self.value
    }

    /// Whether `ZADD` with these options writes `node`.
    pub fn can_update(&self, node: &Node, nx_xx: NxXx, gt_lt: GtLt) -> (r: bool)
        ensures
            r == spec_can_update(self@.hash, node@, nx_xx, gt_lt),
    {
        match (nx_xx, gt_lt) {
            (NxXx::NoCondition, GtLt::NoCondition) => true,
            (NxXx::Nx, GtLt::NoCondition) => !self.contains_key(&node.key),
            (NxXx::Nx, _) => false,
            (NxXx::Xx, GtLt::NoCondition) => self.contains_key(&node.key),
            (_, GtLt::Gt) => match self.get(&node.key) {
                Some(n) => node.score > n.score,
                None => nx_xx.is_none(),
            },
            (_, GtLt::Lt) => match self.get(&node.key) {
                Some(n) => node.score < n.score,
                None => nx_xx.is_none(),
            },
        }
    }

    /// `ZADD` on this set: writes each of `nodes` in turn that the options
    /// let through, adding the old score with `incr`, into the members' map
    /// and, in place of the member's old node, into the nodes in order.
    /// Answers how many members were added, and with `ch` also how many
    /// existing members had their score changed.
    pub fn add(&mut self, nodes: Vec<Node>, nx_xx: NxXx, gt_lt: GtLt, ch: bool, incr: bool) -> (r: usize)
        requires
            add_fits(old(self)@.hash, nodes_view(nodes@), nx_xx, gt_lt, incr),
        ensures
            zset_consistent(old(self)@) ==> zset_consistent(final(self)@),
            ({
                let fin = add_state_all(add_start(old(self)@), nodes_view(nodes@), nx_xx, gt_lt, incr);
                &&& final(self)@.hash == fin.hash
                &&& final(self)@.hash == add_all(old(self)@.hash, nodes_view(nodes@), nx_xx, gt_lt, incr)
                &&& final(self)@.value.to_set() == fin.value
                &&& nodes_sorted(final(self)@.value)
                &&& r == add_answer(fin, ch)
            }),
            final(self).version() == old(self).version(),
            nx_xx is Xx ==> final(self)@.hash.dom() == old(self)@.hash.dom() && (!ch ==> r == 0),
            nx_xx is Nx ==> forall|k: Seq<char>| #[trigger] old(self)@.hash.contains_key(k) ==> final(self)@.hash.contains_key(k)
                && final(self)@.hash[k] == old(self)@.hash[k],
    {
        let ghost st0 = add_start(self@);
        let ghost vs = nodes_view(nodes@);
        proof {
            lemma_zadd_xx_adds_nothing(st0, vs, gt_lt, incr);
            lemma_zadd_nx_keeps_members(st0, vs, gt_lt, incr);
        }
        let mut added: usize = 0;
        let mut changed: usize = 0;
        let mut i: usize = 0;
        proof {
            use_type_invariant(&self.value);
            assert(vs.take(0) =~= Seq::<NodeView>::empty());
        }
        while i < nodes.len()
            invariant
                0 <= i <= nodes@.len(),
                vs == nodes_view(nodes@),
                st0.hash == old(self)@.hash,
                self.version == old(self).version,
                add_fits(st0.hash, vs, nx_xx, gt_lt, incr),
                ({
                    let st = add_state_all(st0, vs.take(i as int), nx_xx, gt_lt, incr);
                    &&& self@.hash == st.hash
                    &&& self@.value.to_set() == st.value
                    &&& added == st.added
                    &&& changed == st.changed
                    &&& added + changed <= i
                }),
            decreases nodes@.len() - i,
        {
            proof {
                assert(vs.take(i + 1).drop_last() =~= vs.take(i as int));
                assert(vs.take(i + 1).last() == nodes@[i as int]@);
                lemma_add_fits_prefix(st0.hash, vs, (i + 1) as int, nx_xx, gt_lt, incr);
                lemma_add_state_hash(st0, vs.take(i as int), nx_xx, gt_lt, incr);
                assert(vs.take(i + 1).drop_last() =~= vs.take(i as int));
            }
            let mut v = nodes[i].duplicate();
            if self.can_update(&v, nx_xx, gt_lt) {
                match self.hash.remove(&v.key) {
                    Some(ov) => {
                        if incr {
                            v.score = v.score + ov.score;
                        }
                        let _ = self.value.remove(&ov);
                        if ov.score != v.score {
                            changed = changed + 1;
                        }
                    },
                    None => {
                        added = added + 1;
                    },
                }
                let k = v.key.clone();
                self.value.insert(v.duplicate());
                let _ = self.hash.insert(k, v);
            }
            i += 1;
        }
        proof {
            assert(vs.take(nodes@.len() as int) =~= vs);
            lemma_add_state_hash(st0, vs, nx_xx, gt_lt, incr);
            if zset_consistent(old(self)@) {
                lemma_add_agree(st0, vs, nx_xx, gt_lt, incr);
            }
            use_type_invariant(&self.value);
        }
        if ch {
            added + changed
        } else {
            added
        }
    }

    /// `ZREM` on this set: drops the members named in `members` from the
    /// members' map and their nodes from the nodes in order, and answers how
    /// many members it dropped. Counts one more write of the set.
    pub fn zrem(&mut self, members: Vec<String>) -> (r: usize)
        ensures
            zset_consistent(old(self)@) ==> zset_consistent(final(self)@),
            ({
                let ks = keys_view(members@).to_set();
                &&& final(self)@.hash == old(self)@.hash.remove_keys(ks)
                &&& final(self)@.value.to_set() == old(self)@.value.to_set() - zrem_gone(old(self)@.hash, ks)
                &&& nodes_sorted(final(self)@.value)
                &&& r == ks.intersect(old(self)@.hash.dom()).len()
            }),
            final(self).version() == old(self).version().wrapping_add(1),
    {
        let ghost h0 = self@.hash;
        let ghost v0 = self@.value.to_set();
        let mut count: usize = 0;
        let mut i: usize = 0;
        proof {
            assert(keys_view(members@.take(0)).to_set() =~= vstd::set::Set::<Seq<char>>::empty());
            assert(zrem_gone(h0, vstd::set::Set::<Seq<char>>::empty()) =~= vstd::set::Set::<NodeView>::empty());
            assert(v0 - vstd::set::Set::<NodeView>::empty() =~= v0);
            assert(vstd::set::Set::<Seq<char>>::empty().intersect(h0.dom()) =~= vstd::set::Set::<Seq<char>>::empty());
        }
        while i < members.len()
            invariant
                0 <= i <= members@.len(),
                h0 == old(self)@.hash,
                v0 == old(self)@.value.to_set(),
                self.version == old(self).version,
                count <= i,
                ({
                    let ks = keys_view(members@.take(i as int)).to_set();
                    &&& self@.hash == h0.remove_keys(ks)
                    &&& self@.value.to_set() == v0 - zrem_gone(h0, ks)
                    &&& count == ks.intersect(h0.dom()).len()
                }),
            decreases members@.len() - i,
        {
            let ghost ks = keys_view(members@.take(i as int)).to_set();
            let ghost k = members@[i as int]@;
            let ghost ks2 = ks.insert(k);
            proof {
                assert(keys_view(members@.take(i + 1)) =~= keys_view(members@.take(i as int)).push(k));
                keys_view(members@.take(i as int)).lemma_push_to_set_commute(k);
                vstd::seq_lib::seq_to_set_is_finite(keys_view(members@.take(i as int)));
            }
            match self.hash.remove(&members[i]) {
                Some(n) => {
                    let _ = self.value.remove(&n);
                    count = count + 1;
                    proof {
                        assert(h0.contains_key(k) && !ks.contains(k));
                        assert(n@ == h0[k]);
                        assert(ks2.intersect(h0.dom()) =~= ks.intersect(h0.dom()).insert(k));
                        assert(!ks.intersect(h0.dom()).contains(k));
                        assert(ks.intersect(h0.dom()).finite());
                        assert forall|x: NodeView| #[trigger] zrem_gone(h0, ks2).contains(x) implies zrem_gone(
                            h0,
                            ks,
                        ).insert(n@).contains(x) by {
                            let k2 = choose|k2: Seq<char>| #[trigger] ks2.contains(k2) && h0.contains_key(k2) && h0[k2] == x;
                            if k2 != k {
                                assert(ks.contains(k2));
                            }
                        }
                        assert forall|x: NodeView| #[trigger] zrem_gone(h0, ks).insert(n@).contains(x) implies zrem_gone(
                            h0,
                            ks2,
                        ).contains(x) by {
                            if x == n@ {
                                assert(ks2.contains(k));
                            } else {
                                let k2 = choose|k2: Seq<char>| #[trigger] ks.contains(k2) && h0.contains_key(k2) && h0[k2] == x;
                                assert(ks2.contains(k2));
                            }
                        }
                        assert(zrem_gone(h0, ks2) =~= zrem_gone(h0, ks).insert(n@));
                        assert(self@.value.to_set() =~= v0 - zrem_gone(h0, ks2));
                    }
                },
                None => {
                    proof {
                        assert(!h0.contains_key(k) || ks.contains(k));
                        assert(ks2.intersect(h0.dom()) =~= ks.intersect(h0.dom()));
                        assert forall|x: NodeView| #[trigger] zrem_gone(h0, ks2).contains(x) implies zrem_gone(
                            h0,
                            ks,
                        ).contains(x) by {
                            let k2 = choose|k2: Seq<char>| #[trigger] ks2.contains(k2) && h0.contains_key(k2) && h0[k2] == x;
                            if k2 == k {
                                assert(ks.contains(k));
                            } else {
                                assert(ks.contains(k2));
                            }
                        }
                        assert forall|x: NodeView| #[trigger] zrem_gone(h0, ks).contains(x) implies zrem_gone(
                            h0,
                            ks2,
                        ).contains(x) by {
                            let k2 = choose|k2: Seq<char>| #[trigger] ks.contains(k2) && h0.contains_key(k2) && h0[k2] == x;
                            assert(ks2.contains(k2));
                        }
                        assert(zrem_gone(h0, ks2) =~= zrem_gone(h0, ks));
                    }
                },
            }
            proof {
                assert(self@.hash =~= h0.remove_keys(ks2));
            }
            i += 1;
        }
        proof {
            assert(members@.take(members@.len() as int) =~= members@);
            use_type_invariant(&self.value);
        }
        self.version = self.version.wrapping_add(1);
        count
    }

    /// Removes the nodes in `gone` from the nodes in order and their names
    /// from the members' map; answers how many nodes in order went.
    fn remove_nodes(&mut self, gone: &Vec<Node>) -> (r: usize)
        requires
            nodes_sorted(nodes_view(gone@)),
            forall|i: int| 0 <= i < gone@.len() ==> old(self)@.value.contains(#[trigger] gone@[i]@),
        ensures
            zset_consistent(old(self)@) ==> zset_consistent(final(self)@),
            final(self).version() == old(self).version(),
            final(self)@.value.to_set() == old(self)@.value.to_set() - nodes_view(gone@).to_set(),
            nodes_sorted(final(self)@.value),
            final(self)@.hash == old(self)@.hash.remove_keys(nodes_view(gone@).map_values(|n: NodeView| n.key).to_set()),
            r == gone@.len(),
    {
        let ghost h0 = self@.hash;
        let ghost v0 = self@.value;
        proof {
            use_type_invariant(&self.value);
            lemma_sorted_distinct(nodes_view(gone@));
            assert forall|a: int, b: int| 0 <= a < b < gone@.len() implies (#[trigger] gone@[a])@
                != (#[trigger] gone@[b])@ by {
                assert(nodes_view(gone@)[a] == gone@[a]@);
                assert(nodes_view(gone@)[b] == gone@[b]@);
            }
        }
        let old_size = self.value.size();
        let mut i: usize = 0;
        while i < gone.len()
            invariant
                0 <= i <= gone@.len(),
                forall|a: int, b: int| 0 <= a < b < gone@.len() ==> (#[trigger] gone@[a])@ != (#[trigger] gone@[b])@,
                forall|a: int| 0 <= a < gone@.len() ==> v0.contains(#[trigger] gone@[a]@),
                old_size == v0.len(),
                self.version == old(self).version,
                self@.value.to_set() == v0.to_set() - nodes_view(gone@.take(i as int)).to_set(),
                self@.value.len() == v0.len() - i,
                nodes_sorted(self@.value),
                self@.hash == h0.remove_keys(nodes_view(gone@.take(i as int)).map_values(|n: NodeView| n.key).to_set()),
            decreases gone@.len() - i,
        {
            let ghost before = self@.value;
            proof {
                assert(nodes_view(gone@.take(i + 1)) =~= nodes_view(gone@.take(i as int)).push(gone@[i as int]@));
                nodes_view(gone@.take(i as int)).lemma_push_to_set_commute(gone@[i as int]@);
                assert(nodes_view(gone@.take(i + 1)).map_values(|n: NodeView| n.key) =~= nodes_view(
                    gone@.take(i as int),
                ).map_values(|n: NodeView| n.key).push(gone@[i as int]@.key));
                nodes_view(gone@.take(i as int)).map_values(|n: NodeView| n.key).lemma_push_to_set_commute(
                    gone@[i as int]@.key,
                );
                assert(v0.to_set().contains(gone@[i as int]@));
                assert(!nodes_view(gone@.take(i as int)).to_set().contains(gone@[i as int]@)) by {
                    if nodes_view(gone@.take(i as int)).to_set().contains(gone@[i as int]@) {
                        let k = choose|k: int| 0 <= k < i && nodes_view(gone@.take(i as int))[k] == gone@[i as int]@;
                        assert(gone@[k]@ == gone@[i as int]@);
                    }
                }
                assert(before.to_set().contains(gone@[i as int]@));
                vstd::seq_lib::lemma_seq_contains_after_push(before, gone@[i as int]@, gone@[i as int]@);
            }
            let removed = self.value.remove(&gone[i]);
            proof {
                assert(before.to_set().contains(gone@[i as int]@));
                assert(removed);
            }
            let _ = self.hash.remove(&gone[i].key);
            proof {
                assert(self@.value.to_set() =~= v0.to_set() - nodes_view(gone@.take(i + 1)).to_set());
                assert(self@.hash =~= h0.remove_keys(nodes_view(gone@.take(i + 1)).map_values(|n: NodeView| n.key).to_set()));
            }
            i += 1;
        }
        proof {
            assert(gone@.take(gone@.len() as int) =~= gone@);
        }
        proof {
            if zset_consistent(old(self)@) {
                let g = nodes_view(gone@).to_set();
                let ks = nodes_view(gone@).map_values(|n: NodeView| n.key).to_set();
                assert forall|k: Seq<char>| #[trigger] ks.contains(k) <==> exists|n: NodeView| #[trigger] g.contains(n)
                    && n.key == k by {
                    let kv = nodes_view(gone@).map_values(|n: NodeView| n.key);
                    if ks.contains(k) {
                        let a = choose|a: int| 0 <= a < kv.len() && kv[a] == k;
                        assert(g.contains(nodes_view(gone@)[a]));
                    }
                    if exists|n: NodeView| #[trigger] g.contains(n) && n.key == k {
                        let n = choose|n: NodeView| #[trigger] g.contains(n) && n.key == k;
                        let a = choose|a: int| 0 <= a < nodes_view(gone@).len() && nodes_view(gone@)[a] == n;
                        assert(kv[a] == k);
                    }
                }
                assert forall|n: NodeView| g.contains(n) implies v0.to_set().contains(n) by {
                    let a = choose|a: int| 0 <= a < nodes_view(gone@).len() && nodes_view(gone@)[a] == n;
                    assert(nodes_view(gone@)[a] == gone@[a]@);
                }
                lemma_remove_agree(h0, v0.to_set(), g, ks);
            }
        }
        old_size - self.value.size()
    }

    /// `ZREMRANGEBYRANK` on this set: removes the nodes at ranks
    /// `range.0..=range.1`, and their members, answering how many went.
    pub fn zremrange_by_rank(&mut self, range: (i64, i64)) -> (r: usize)
        requires
            old(self)@.value.len() <= i64::MAX,
            range.1 != i64::MAX,
        ensures
            zset_consistent(old(self)@) ==> zset_consistent(final(self)@),
            final(self).version() == old(self).version(),
            ({
                let gone = spec_zrange_by_rank(old(self)@.value, range, false, None);
                &&& final(self)@.value.to_set() == old(self)@.value.to_set() - gone.to_set()
                &&& nodes_sorted(final(self)@.value)
                &&& final(self)@.hash == old(self)@.hash.remove_keys(gone.map_values(|n: NodeView| n.key).to_set())
                &&& r == gone.len()
            }),
    {
        let gone = self.value.zrange_by_rank(range, false, None);
        let size = self.value.size();
        proof {
            use_type_invariant(&self.value);
            let v = self@.value;
            let a = spec_rank_index(v.len() as int, range.0 as int, false);
            let b = spec_rank_index(v.len() as int, range.1 as int, true);
            let g = nodes_view(gone@);
            if a < b {
                lemma_sorted_subrange(v, a, b);
                let w = v.subrange(a, b);
                let c = if v.len() < w.len() { v.len() as int } else { w.len() as int };
                let o = if 0 < c { 0int } else { c };
                lemma_sorted_subrange(w, o, c);
                assert(spec_sharp_limit(None, v.len() as usize) == (0usize, size));
                assert(ordered(v, false) == v);
                assert(g =~= w.subrange(o, c));
                assert forall|i: int| 0 <= i < gone@.len() implies v.contains(#[trigger] gone@[i]@) by {
                    assert(g[i] == gone@[i]@);
                    assert(g[i] == w.subrange(o, c)[i]);
                    assert(g.len() == c - o);
                    assert(w.contains(w.subrange(o, c)[i]));
                    assert(w.contains(g[i]));
                    let k = choose|k: int| 0 <= k < w.len() && w[k] == g[i];
                    assert(v.contains(w[k]));
                }
            } else {
                assert(g.len() == 0);
            }
        }
        self.remove_nodes(&gone)
    }

    /// `ZREMRANGEBYSCORE` on this set: removes the nodes whose score lies in
    /// `range`, and their members, answering how many went. A range whose
    /// lower end lies above its upper end is not accepted.
    pub fn zremrange_by_score(&mut self, range: (Bound<i64>, Bound<i64>)) -> (r: usize)
        requires
            !score_range_inverted(range),
        ensures
            zset_consistent(old(self)@) ==> zset_consistent(final(self)@),
            final(self).version() == old(self).version(),
            ({
                let gone = spec_zrange_by_score(old(self)@.value, range, false, None);
                &&& final(self)@.value.to_set() == old(self)@.value.to_set() - gone.to_set()
                &&& nodes_sorted(final(self)@.value)
                &&& final(self)@.hash == old(self)@.hash.remove_keys(gone.map_values(|n: NodeView| n.key).to_set())
                &&& r == gone.len()
            }),
    {
        let gone = self.value.zrange_by_score(range, false, None);
        let size = self.value.size();
        proof {
            use_type_invariant(&self.value);
            let v = self@.value;
            let g = nodes_view(gone@);
            let p = |n: NodeView| in_range(range, n.score);
            lemma_sorted_filter(v, p);
            let f = v.filter(p);
            let c = if v.len() < f.len() { v.len() as int } else { f.len() as int };
            let o = if 0 < c { 0int } else { c };
            lemma_sorted_subrange(f, o, c);
            assert(spec_sharp_limit(None, v.len() as usize) == (0usize, size));
            assert(ordered(v, false) == v);
            assert(score_range(range, false) == range);
            assert(g =~= f.subrange(o, c));
            assert forall|i: int| 0 <= i < gone@.len() implies v.contains(#[trigger] gone@[i]@) by {
                assert(g[i] == gone@[i]@);
                assert(f.contains(g[i]));
                let k = choose|k: int| 0 <= k < f.len() && f[k] == g[i];
                assert(v.contains(f[k]));
            }
        }
        self.remove_nodes(&gone)
    }
}

} // verus!
