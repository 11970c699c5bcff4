//! Reading a sorted set by score.

use vstd::prelude::*;

use crate::db::data_type::sorted_set::{limit_fits, sharp_limit, spec_sharp_limit, take_skip};
use crate::slot::data_type::sorted_set::{nodes_view, ordered, Node, NodeView};
use crate::slot::data_type::{lemma_value_order, value_order, CollectionType, DataType, DataView, SimpleType};
use crate::slot::dict::{live_value, Dict};
use crate::utils::bound::{contains, in_range, Bound};

verus! {

/// Read the nodes of the sorted set under `key` whose score lies in `range`
/// (lower end first), ordered by score and then member or, with `rev`, the
/// other way round, within a `LIMIT offset count`.
pub struct Req<'a> {
    pub key: &'a SimpleType,
    pub range: (Bound<i64>, Bound<i64>),
    pub limit: Option<(i64, i64)>,
    pub rev: bool,
}

/// Whether `a` comes before `b` by score: a lower score, or an equal score
/// and a member that comes first.
pub open spec fn score_lt(a: NodeView, b: NodeView) -> bool {
    a.score < b.score || (a.score == b.score && value_order(a.key, b.key) < 0)
}

/// `n` put into `s` before the first node that does not come before it by
/// score.
pub open spec fn insert_by_score(s: Seq<NodeView>, n: NodeView) -> Seq<NodeView>
    decreases s.len(),
{
    if s.len() == 0 {
        seq![n]
    } else if !score_lt(s[0], n) {
        seq![n] + s
    } else {
        seq![s[0]] + insert_by_score(s.drop_first(), n)
    }
}

/// The nodes of `s` ordered by score, then by member.
pub open spec fn by_score(s: Seq<NodeView>) -> Seq<NodeView>
    decreases s.len(),
{
    if s.len() == 0 {
        Seq::empty()
    } else {
        insert_by_score(by_score(s.drop_last()), s.last())
    }
}

/// The nodes of `s` the query answers: those whose score lies in `range`,
/// ordered by score and then member (or the reverse), then the `LIMIT`
/// window of those.
pub open spec fn spec_range_by_score(
    s: Seq<NodeView>,
    range: (Bound<i64>, Bound<i64>),
    limit: Option<(i64, i64)>,
    rev: bool,
) -> Seq<NodeView> {
    let (offset, count) = spec_sharp_limit(limit, s.len() as usize);
    take_skip(
        ordered(by_score(s.filter(|n: NodeView| in_range(range, n.score))), rev),
        count as int,
        offset as int,
    )
}

/// Whether `s` is ordered by score: no node comes before an earlier one.
pub open spec fn score_sorted(s: Seq<NodeView>) -> bool {
    forall|i: int, j: int| 0 <= i < j < s.len() ==> !score_lt(#[trigger] s[j], #[trigger] s[i])
}

/// The order by score is a strict total order.
proof fn lemma_score_order(a: NodeView, b: NodeView, c: NodeView)
    ensures
        !score_lt(a, a),
        score_lt(a, b) ==> !score_lt(b, a),
        a == b || score_lt(a, b) || score_lt(b, a),
        score_lt(a, b) && score_lt(b, c) ==> score_lt(a, c),
{
    lemma_value_order(a.key, b.key, c.key);
    lemma_value_order(a.key, a.key, a.key);
    lemma_value_order(b.key, c.key, a.key);
    lemma_value_order(b.key, a.key, c.key);
    lemma_value_order(a.key, c.key, b.key);
    lemma_value_order(c.key, a.key, b.key);
}

/// Putting a node into a sequence ordered by score keeps it ordered, adds
/// just that node and makes it one longer.
proof fn lemma_insert_by_score_sorted(s: Seq<NodeView>, n: NodeView)
    requires
        score_sorted(s),
    ensures
        score_sorted(insert_by_score(s, n)),
        insert_by_score(s, n).to_set() == s.to_set().insert(n),
        insert_by_score(s, n).len() == s.len() + 1,
    decreases s.len(),
{
    let r = insert_by_score(s, n);
    if s.len() == 0 {
        assert(r =~= seq![n]);
        assert forall|x: NodeView| r.to_set().contains(x) <==> s.to_set().insert(n).contains(x) by {
            if r.to_set().contains(x) {
                let a = choose|a: int| 0 <= a < r.len() && r[a] == x;
                assert(a == 0);
            }
            if x == n {
                assert(r[0] == x);
            }
        }
        assert(r.to_set() =~= s.to_set().insert(n));
    } else if !score_lt(s[0], n) {
        assert(r =~= seq![n] + s);
        assert forall|i: int, j: int| 0 <= i < j < r.len() implies !score_lt(#[trigger] r[j], #[trigger] r[i]) by {
            if i == 0 {
                assert(r[j] == s[j - 1]);
                lemma_score_order(n, s[0], s[j - 1]);
                lemma_score_order(s[j - 1], s[0], n);
                lemma_score_order(s[0], s[j - 1], n);
                if j - 1 > 0 {
                    assert(!score_lt(s[j - 1], s[0]));
                }
            } else {
                assert(r[i] == s[i - 1]);
                assert(r[j] == s[j - 1]);
            }
        }
        assert(r.to_set() =~= s.to_set().insert(n)) by {
            assert forall|x: NodeView| r.to_set().contains(x) implies s.to_set().insert(n).contains(x) by {
                let a = choose|a: int| 0 <= a < r.len() && r[a] == x;
                if a > 0 {
                    assert(s[a - 1] == x);
                }
            }
            assert forall|x: NodeView| s.to_set().insert(n).contains(x) implies r.to_set().contains(x) by {
                if x == n {
                    assert(r[0] == x);
                } else {
                    let a = choose|a: int| 0 <= a < s.len() && s[a] == x;
                    assert(r[a + 1] == x);
                }
            }
        }
    } else {
        let t = s.drop_first();
        assert(score_sorted(t)) by {
            assert forall|i: int, j: int| 0 <= i < j < t.len() implies !score_lt(#[trigger] t[j], #[trigger] t[i]) by {
                assert(t[i] == s[i + 1]);
                assert(t[j] == s[j + 1]);
            }
        }
        lemma_insert_by_score_sorted(t, n);
        let u = insert_by_score(t, n);
        assert(r =~= seq![s[0]] + u);
        assert forall|i: int, j: int| 0 <= i < j < r.len() implies !score_lt(#[trigger] r[j], #[trigger] r[i]) by {
            if i == 0 {
                assert(r[j] == u[j - 1]);
                assert(u.to_set().contains(u[j - 1]));
                assert(t.to_set().insert(n).contains(u[j - 1]));
                if u[j - 1] == n {
                    lemma_score_order(s[0], n, n);
                } else {
                    let a = choose|a: int| 0 <= a < t.len() && t[a] == u[j - 1];
                    assert(t[a] == s[a + 1]);
                    lemma_score_order(s[0], s[a + 1], s[a + 1]);
                }
            } else {
                assert(r[i] == u[i - 1]);
                assert(r[j] == u[j - 1]);
            }
        }
        assert(r.to_set() =~= s.to_set().insert(n)) by {
            assert forall|x: NodeView| r.to_set().contains(x) implies s.to_set().insert(n).contains(x) by {
                let a = choose|a: int| 0 <= a < r.len() && r[a] == x;
                if a == 0 {
                    assert(s[0] == x);
                } else {
                    assert(u[a - 1] == x);
                    assert(u.to_set().contains(x));
                    if x != n {
                        let b = choose|b: int| 0 <= b < t.len() && t[b] == x;
                        assert(s[b + 1] == x);
                    }
                }
            }
            assert forall|x: NodeView| s.to_set().insert(n).contains(x) implies r.to_set().contains(x) by {
                if x == s[0] {
                    assert(r[0] == x);
                } else {
                    if x != n {
                        let a = choose|a: int| 0 <= a < s.len() && s[a] == x;
                        assert(a > 0);
                        assert(t[a - 1] == x);
                        assert(t.to_set().contains(x));
                    }
                    assert(u.to_set().contains(x));
                    let b = choose|b: int| 0 <= b < u.len() && u[b] == x;
                    assert(r[b + 1] == x);
                }
            }
        }
    }
}

/// `by_score(s)` holds the nodes of `s`, as many as `s` has, ordered by
/// score.
pub proof fn lemma_by_score(s: Seq<NodeView>)
    ensures
        score_sorted(by_score(s)),
        by_score(s).to_set() == s.to_set(),
        by_score(s).len() == s.len(),
    decreases s.len(),
{
    if s.len() == 0 {
        assert(by_score(s).to_set() =~= s.to_set());
    } else {
        lemma_by_score(s.drop_last());
        lemma_insert_by_score_sorted(by_score(s.drop_last()), s.last());
        assert(s =~= s.drop_last().push(s.last()));
        s.drop_last().lemma_push_to_set_commute(s.last());
    }
}

/// Putting `n` in at position `p`, where the nodes before come before `n`
/// by score and the node at `p` does not, is `insert_by_score`.
proof fn lemma_insert_by_score(s: Seq<NodeView>, n: NodeView, p: int)
    requires
        0 <= p <= s.len(),
        forall|i: int| 0 <= i < p ==> score_lt(#[trigger] s[i], n),
        p < s.len() ==> !score_lt(s[p], n),
    ensures
        insert_by_score(s, n) == s.insert(p, n),
    decreases p,
{
    if s.len() == 0 {
        assert(s.insert(p, n) =~= seq![n]);
    } else if p == 0 {
        assert(s.insert(p, n) =~= seq![n] + s);
    } else {
        let t = s.drop_first();
        assert forall|i: int| 0 <= i < p - 1 implies score_lt(#[trigger] t[i], n) by {
            assert(t[i] == s[i + 1]);
        }
        if p < s.len() {
            assert(t[p - 1] == s[p]);
        }
        lemma_insert_by_score(t, n, p - 1);
        assert(s.insert(p, n) =~= seq![s[0]] + t.insert(p - 1, n));
    }
}

/// Whether `a` comes before `b` by score.
fn score_less(a: &Node, b: &Node) -> (r: bool)
    ensures
        r == score_lt(a@, b@),
{
    if a.score < b.score {
        true
    } else if a.score > b.score {
        false
    } else {
        a.key.order(&b.key) < 0
    }
}

/// Puts `n` into `v`, which holds nodes ordered by score, in its place.
fn insert_node_by_score(v: &mut Vec<Node>, n: Node)
    ensures
        nodes_view(final(v)@) == insert_by_score(nodes_view(old(v)@), n@),
{
    let ghost s = nodes_view(v@);
    let mut p: usize = 0;
    while p < v.len() && score_less(&v[p], &n)
        invariant
            0 <= p <= v@.len(),
            s == nodes_view(v@),
            forall|i: int| 0 <= i < p ==> score_lt(#[trigger] s[i], n@),
        decreases v@.len() - p,
    {
        p += 1;
    }
    proof {
        lemma_insert_by_score(s, n@, p as int);
    }
    let ghost nv = n@;
    v.insert(p, n);
    proof {
        assert(nodes_view(v@) =~= s.insert(p as int, nv));
    }
}

/// Copies of the nodes of `v` at positions `[b, e)`.
fn window(v: &Vec<Node>, b: usize, e: usize) -> (r: Vec<Node>)
    requires
        b <= e <= v@.len(),
    ensures
        nodes_view(r@) == nodes_view(v@).subrange(b as int, e as int),
{
    let mut r: Vec<Node> = Vec::new();
    let mut i: usize = b;
    while i < e
        invariant
            b <= i <= e <= v@.len(),
            nodes_view(r@) == nodes_view(v@).subrange(b as int, i as int),
        decreases e - i,
    {
        let ghost r0 = r@;
        r.push(v[i].duplicate());
        proof {
            assert(nodes_view(r@) =~= nodes_view(r0).push(v@[i as int]@));
            assert(nodes_view(v@).subrange(b as int, i + 1) =~= nodes_view(v@).subrange(
                b as int,
                i as int,
            ).push(v@[i as int]@));
        }
        i += 1;
    }
    r
}

impl<'a> Req<'a> {
    /// The nodes the query answers on the sorted set live under the key at
    /// `now`; none when nothing is live, the error "error type" when
    /// something else is.
    pub fn apply(self, dict: &Dict, now: i64) -> (r: Result<Vec<Node>, String>)
        requires
            live_value(dict@, self.key@, now) matches Some(v) ==> (v.data is SortedSet ==> limit_fits(self.limit)),
        ensures
            match live_value(dict@, self.key@, now) {
                None => r matches Ok(v) && v@.len() == 0,
                Some(v) => match v.data {
                    DataView::SortedSet(z) => r matches Ok(x) && nodes_view(x@) == spec_range_by_score(
                        z.value,
                        self.range,
                        self.limit,
                        self.rev,
                    ),
                    _ => r matches Err(x) && x@ == "error type"@,
                },
            },
    {
        let z = match dict.d_get(self.key, now) {
            Some(v) => match &v.data {
                DataType::CollectionType(CollectionType::SortedSet(z)) => z,
                _ => {
                    return Err("error type".to_string());
                },
            },
            None => {
                return Ok(Vec::new());
            },
        };
        let (offset, count) = sharp_limit(self.limit, z.value.size());
        let ghost s = z.value@;
        let ghost pred = |n: NodeView| in_range(self.range, n.score);
        let mut hits: Vec<Node> = Vec::new();
        let mut i: usize = 0;
        proof {
            assert(s.take(0).filter(pred) =~= Seq::<NodeView>::empty());
        }
        while i < z.value.size()
            invariant
                0 <= i <= s.len(),
                s == z.value@,
                pred == (|n: NodeView| in_range(self.range, n.score)),
                nodes_view(hits@) == by_score(s.take(i as int).filter(pred)),
            decreases s.len() - i,
        {
            proof {
                assert(s.take(i + 1).drop_last() =~= s.take(i as int));
                assert(s.take(i + 1).last() == s[i as int]);
                reveal(Seq::filter);
            }
            let n = z.value.at(i);
            if contains(&self.range, n.score) {
                insert_node_by_score(&mut hits, n.duplicate());
                proof {
                    let f = s.take(i + 1).filter(pred);
                    assert(f.drop_last() =~= s.take(i as int).filter(pred));
                }
            } else {
                proof {
                    assert(s.take(i + 1).filter(pred) =~= s.take(i as int).filter(pred));
                }
            }
            i += 1;
        }
        proof {
            assert(s.take(s.len() as int) =~= s);
        }
        let ghost sorted = nodes_view(hits@);
        let picked = if self.rev {
            let mut out: Vec<Node> = Vec::new();
            let mut j: usize = hits.len();
            while j > 0
                invariant
                    j <= hits@.len(),
                    sorted == nodes_view(hits@),
                    nodes_view(out@) == sorted.reverse().take(hits@.len() - j),
                decreases j,
            {
                j -= 1;
                let ghost o0 = out@;
                out.push(hits[j].duplicate());
                proof {
                    assert(nodes_view(out@) =~= nodes_view(o0).push(hits@[j as int]@));
                    assert(sorted.reverse().take(hits@.len() - j) =~= sorted.reverse().take(
                        hits@.len() - j - 1,
                    ).push(sorted[j as int]));
                }
            }
            proof {
                assert(sorted.reverse().take(hits@.len() as int) =~= sorted.reverse());
            }
            out
        } else {
            hits
        };
        let c = if count < picked.len() {
            count
        } else {
            picked.len()
        };
        let o = if offset < c {
            offset
        } else {
            c
        };
        Ok(window(&picked, o, c))
    }
}

} // verus!
