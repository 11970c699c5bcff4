//! What holds of the slot's commands taken together: a read sees the last
//! write, expired entries are neither read nor kept, and the collections
//! hand back what was put in them.

use vstd::prelude::*;

use crate::db::data_type::sorted_set::{
    add_start, add_state_all, add_state_step, add_step, key_order, lemma_key_order_zero, lemma_node_order,
    lex_range, node_above, node_below, ordered, spec_sharp_limit, spec_zrange_by_lex, take_skip, nodes_sorted, spec_zrange_by_rank, spec_zrange_by_score, NodeView,
};
use crate::db::slot::sorted_sets::empty_zset;
use crate::utils::options::{GtLt, NxXx};
use crate::db::data_type::{DataView, SimpleValue};
use crate::db::slot::dict::EntryView;
use crate::db::slot::expirations::{pending_after, spec_purge, ExpirationKey};
use crate::db::slot::hashes::{fields_view, insert_pairs, lookups};
use crate::db::slot::lists::{spec_llen_at, spec_lrange_at, spec_pop_live, spec_push_any, End};
use crate::db::slot::{scheduled, simple_at};
use crate::db::data::DataValue;
use crate::db::state::stored_number;
use crate::parse::roundtrip::lemma_decimal;
use crate::parse::to_bytes::{decimal, signed_decimal};
use crate::utils::bound::Bound;
use crate::utils::numeric::{chars_value, digits_value, is_digit};

verus! {

/// After `SET` stores `v` under `k` with no expiry, or with one after
/// `now`, `GET` at `now` answers `v`.
pub proof fn lemma_get_after_set(m: Map<SimpleValue, EntryView>, k: SimpleValue, v: SimpleValue, id: u64, ea: Option<i64>, now: i64)
    requires
        ea matches Some(t) ==> t > now,
    ensures
        simple_at(m.insert(k, EntryView { id, data: DataView::Simple(v), expires_at: ea }), k, now)
            == Ok::<Option<SimpleValue>, ()>(Some(v)),
{
}

/// After a key is removed, `GET` answers nothing for it.
pub proof fn lemma_get_after_remove(m: Map<SimpleValue, EntryView>, k: SimpleValue, now: i64)
    ensures
        simple_at(m.remove(k), k, now) == Ok::<Option<SimpleValue>, ()>(None),
{
}

/// A value stored with an expiry is no longer read once that instant has
/// come, even before the expiration removes it.
pub proof fn lemma_expired_not_read(m: Map<SimpleValue, EntryView>, k: SimpleValue, v: SimpleValue, id: u64, t: i64, now: i64)
    requires
        t <= now,
    ensures
        simple_at(m.insert(k, EntryView { id, data: DataView::Simple(v), expires_at: Some(t) }), k, now)
            == Ok::<Option<SimpleValue>, ()>(None),
{
}

/// A value that `SET` stored with an expiry, and scheduled to expire, is
/// removed by the purge at any instant from then on; the purge keeps only
/// the expirations still to come.
pub proof fn lemma_purge_removes_expired(
    m: Map<SimpleValue, EntryView>,
    q: Map<ExpirationKey, SimpleValue>,
    k: SimpleValue,
    v: SimpleValue,
    id: u64,
    t: i64,
    now: i64,
)
    requires
        t <= now,
    ensures
        !spec_purge(
            m.insert(k, EntryView { id, data: DataView::Simple(v), expires_at: Some(t) }),
            scheduled(q, Some(t), id, k),
            now,
        ).contains_key(k),
        forall|ek: ExpirationKey| #[trigger] pending_after(scheduled(q, Some(t), id, k), now).contains_key(ek)
            ==> ek.expires_at > now,
{
    let m2 = m.insert(k, EntryView { id, data: DataView::Simple(v), expires_at: Some(t) });
    let q2 = scheduled(q, Some(t), id, k);
    assert(q2.contains_key(ExpirationKey { expires_at: t, id }));
}

/// The purge removes only entries, and leaves every entry that no due
/// expiration names untouched.
pub proof fn lemma_purge_keeps_others(
    m: Map<SimpleValue, EntryView>,
    q: Map<ExpirationKey, SimpleValue>,
    k: SimpleValue,
    now: i64,
)
    requires
        m.contains_key(k),
        forall|ek: ExpirationKey| #[trigger] q.contains_key(ek) && q[ek] == k ==> ek.expires_at > now,
    ensures
        spec_purge(m, q, now).contains_key(k),
        spec_purge(m, q, now)[k] == m[k],
        spec_purge(m, q, now).dom().subset_of(m.dom()),
{
}

/// On a key that holds nothing, `RPUSH` of some values followed by `LPOP`
/// of as many gives the values back in the order they were pushed, and
/// leaves an empty list.
pub proof fn lemma_rpush_then_lpop(m: Map<SimpleValue, EntryView>, k: SimpleValue, vs: Seq<SimpleValue>, id: u64, now: i64)
    requires
        !m.contains_key(k),
    ensures
        ({
            let m2 = spec_push_any(m, k, vs, End::Right, id).1;
            let (r, m3) = spec_pop_live(m2, k, vs.len(), End::Left, now);
            &&& spec_push_any(m, k, vs, End::Right, id).0 == Ok::<int, Seq<char>>(vs.len() as int)
            &&& r == Ok::<Option<Seq<SimpleValue>>, Seq<char>>(Some(vs))
            &&& spec_llen_at(m3, k, now) == Ok::<int, Seq<char>>(0)
        }),
{
    let m2 = spec_push_any(m, k, vs, End::Right, id).1;
    assert(Seq::<SimpleValue>::empty() + vs =~= vs);
    assert(vs.take(vs.len() as int) =~= vs);
    assert(vs.skip(vs.len() as int) =~= Seq::<SimpleValue>::empty());
}

/// On a key that holds nothing, `LPUSH` of some values stores them in the
/// reverse order, which `LRANGE 0 -1` reads back.
pub proof fn lemma_lpush_then_lrange(m: Map<SimpleValue, EntryView>, k: SimpleValue, vs: Seq<SimpleValue>, id: u64, now: i64)
    requires
        !m.contains_key(k),
    ensures
        spec_lrange_at(spec_push_any(m, k, vs, End::Left, id).1, k, 0i64, -1i64, now) == Ok::<
            Seq<SimpleValue>,
            Seq<char>,
        >(vs.reverse()),
{
    let l = vs.reverse() + Seq::<SimpleValue>::empty();
    assert(l =~= vs.reverse());
    assert(l.subrange(0, l.len() as int) =~= l);
}

/// After `HSET` of pairs with distinct fields, `HMGET` of those fields
/// answers their values.
pub proof fn lemma_hmget_after_hset(h: Map<SimpleValue, SimpleValue>, ps: Seq<(SimpleValue, SimpleValue)>)
    requires
        forall|i: int, j: int| 0 <= i < j < ps.len() ==> (#[trigger] ps[i]).0 != (#[trigger] ps[j]).0,
    ensures
        lookups(insert_pairs(h, ps), ps.map_values(|p: (SimpleValue, SimpleValue)| p.0)) == ps.map_values(
            |p: (SimpleValue, SimpleValue)| Some(p.1),
        ),
    decreases ps.len(),
{
    if ps.len() > 0 {
        let d = ps.drop_last();
        lemma_hmget_after_hset(h, d);
        let h2 = insert_pairs(h, ps);
        let l = lookups(h2, ps.map_values(|p: (SimpleValue, SimpleValue)| p.0));
        let want = ps.map_values(|p: (SimpleValue, SimpleValue)| Some(p.1));
        assert forall|i: int| 0 <= i < ps.len() implies l[i] == want[i] by {
            if i < ps.len() - 1 {
                assert(d[i] == ps[i]);
                assert(ps[i].0 != ps[ps.len() - 1].0);
                assert(lookups(insert_pairs(h, d), d.map_values(|p: (SimpleValue, SimpleValue)| p.0))[i]
                    == Some(d[i].1));
            }
        }
        assert(l =~= want);
    }
}

/// `ZRANGE 0 -1` answers every node, in order.
pub proof fn lemma_zrange_by_rank_all(s: Seq<NodeView>)
    requires
        s.len() <= i64::MAX,
        s.len() <= usize::MAX,
    ensures
        spec_zrange_by_rank(s, (0i64, -1i64), false, None) == s,
{
    let n = s.len() as int;
    assert(crate::db::data_type::sorted_set::spec_rank_index(n, 0, false) == 0);
    assert(crate::db::data_type::sorted_set::spec_rank_index(n, -1, true) == n);
    assert(crate::db::data_type::sorted_set::spec_sharp_limit(None, s.len() as usize) == (0usize, s.len() as usize));
    assert(s.subrange(0, s.len() as int) =~= s);
    if s.len() == 0 {
        assert(s =~= Seq::<NodeView>::empty());
    } else {
        assert(crate::db::data_type::sorted_set::ordered(s, false).subrange(0, n) =~= s);
    }
}

/// `ZADD` of a node into a new sorted set, then `ZRANGE 0 -1`, answers
/// that node.
pub proof fn lemma_zadd_then_zrange(n: NodeView, z2: Seq<NodeView>)
    requires
        z2.to_set() == add_state_all(add_start(empty_zset()), seq![n], NxXx::NoCondition, GtLt::NoCondition, false).value,
        nodes_sorted(z2),
    ensures
        spec_zrange_by_rank(z2, (0i64, -1i64), false, None) == seq![n],
{
    let st0 = add_start(empty_zset());
    assert(seq![n].drop_last() =~= Seq::<NodeView>::empty());
    assert(st0.value =~= vstd::set::Set::<NodeView>::empty()) by {
        assert(Seq::<NodeView>::empty().to_set() =~= vstd::set::Set::<NodeView>::empty());
    }
    let fin = add_state_all(st0, seq![n], NxXx::NoCondition, GtLt::NoCondition, false);
    assert(add_state_all(st0, Seq::<NodeView>::empty(), NxXx::NoCondition, GtLt::NoCondition, false) == st0);
    assert(fin == add_state_step(st0, n, NxXx::NoCondition, GtLt::NoCondition, false));
    assert(!st0.hash.contains_key(n.key));
    let h2 = add_step(st0.hash, n, NxXx::NoCondition, GtLt::NoCondition, false);
    assert(h2[n.key] == n);
    assert(fin.value =~= vstd::set::Set::<NodeView>::empty().insert(n));
    assert(z2.to_set().contains(n));
    let j = choose|j: int| 0 <= j < z2.len() && z2[j] == n;
    if z2.len() >= 2 {
        assert(z2.to_set().contains(z2[0]));
        assert(z2.to_set().contains(z2[1]));
        lemma_node_order(z2[0], z2[1], z2[1]);
        assert(false);
    }
    assert(z2 =~= seq![n]);
    lemma_zrange_by_rank_all(z2);
}

/// Whether the name `k` lies on the inner side of the lower end `b` of a
/// range of names.
pub open spec fn name_above(b: Bound<String>, k: Seq<char>) -> bool {
    match b {
        Bound::Included(x) => key_order(k, x@) >= 0,
        Bound::Excluded(x) => key_order(k, x@) > 0,
        Bound::Unbounded => true,
    }
}

/// Whether the name `k` lies on the inner side of the upper end `b` of a
/// range of names.
pub open spec fn name_below(b: Bound<String>, k: Seq<char>) -> bool {
    match b {
        Bound::Included(x) => key_order(k, x@) <= 0,
        Bound::Excluded(x) => key_order(k, x@) < 0,
        Bound::Unbounded => true,
    }
}

/// Filters by two tests that agree on every item of `s` give the same.
proof fn lemma_filter_agree(s: Seq<NodeView>, p: spec_fn(NodeView) -> bool, q: spec_fn(NodeView) -> bool)
    requires
        forall|i: int| 0 <= i < s.len() ==> p(#[trigger] s[i]) == q(s[i]),
    ensures
        s.filter(p) == s.filter(q),
    decreases s.len(),
{
    reveal(Seq::filter);
    if s.len() > 0 {
        assert forall|i: int| 0 <= i < s.drop_last().len() implies p(#[trigger] s.drop_last()[i]) == q(
            s.drop_last()[i],
        ) by {
            assert(s.drop_last()[i] == s[i]);
        }
        lemma_filter_agree(s.drop_last(), p, q);
        assert(p(s.last()) == q(s.last()));
    }
}

/// When every node of a sorted set has the same score, `ZRANGEBYLEX` answers
/// the nodes whose name lies in the range of names, in order of name (or the
/// reverse), then the `LIMIT` window of those.
pub proof fn lemma_zrange_by_lex_one_score(
    s: Seq<NodeView>,
    range: (Bound<String>, Bound<String>),
    rev: bool,
    limit: Option<(i64, i64)>,
)
    requires
        s.len() > 0,
        forall|i: int| 0 <= i < s.len() ==> (#[trigger] s[i]).score == s[0].score,
    ensures
        ({
            let r = lex_range(range, rev);
            let (offset, count) = spec_sharp_limit(limit, s.len() as usize);
            spec_zrange_by_lex(s, range, rev, limit) == take_skip(
                ordered(s, rev).filter(|n: NodeView| name_above(r.0, n.key) && name_below(r.1, n.key)),
                count as int,
                offset as int,
            )
        }),
{
    let r = lex_range(range, rev);
    let score = s[0].score;
    let o = ordered(s, rev);
    let p = |n: NodeView| node_above(r.0, score, n) && node_below(r.1, score, n);
    let q = |n: NodeView| name_above(r.0, n.key) && name_below(r.1, n.key);
    assert forall|i: int| 0 <= i < o.len() implies p(#[trigger] o[i]) == q(o[i]) by {
        if rev {
            assert(o[i] == s[s.len() - 1 - i]);
        }
        assert(o[i].score == score);
        match r.0 {
            Bound::Included(x) => lemma_key_order_zero(o[i].key, x@),
            Bound::Excluded(x) => lemma_key_order_zero(o[i].key, x@),
            Bound::Unbounded => {},
        }
        match r.1 {
            Bound::Included(x) => lemma_key_order_zero(o[i].key, x@),
            Bound::Excluded(x) => lemma_key_order_zero(o[i].key, x@),
            Bound::Unbounded => {},
        }
    }
    lemma_filter_agree(o, p, q);
}

/// ASCII bytes are UTF-8, each byte standing for the character of its code.
proof fn lemma_decode_ascii(b: Seq<u8>)
    requires
        forall|i: int| 0 <= i < b.len() ==> #[trigger] b[i] <= 0x7f,
    ensures
        vstd::utf8::valid_utf8(b),
        vstd::utf8::decode_utf8(b) == b.map_values(|x: u8| x as char),
    decreases b.len(),
{
    if b.len() > 0 {
        let x = b[0];
        assert(x & 0x7f == x) by (bit_vector)
            requires
                x <= 0x7f,
        ;
        let rest = b.subrange(1, b.len() as int);
        assert(vstd::utf8::pop_first_scalar(b) == rest);
        assert forall|i: int| 0 <= i < rest.len() implies #[trigger] rest[i] <= 0x7f by {
            assert(rest[i] == b[i + 1]);
        }
        lemma_decode_ascii(rest);
        assert(b.map_values(|x: u8| x as char) =~= seq![x as char] + rest.map_values(|x: u8| x as char));
    }
}

/// Digit characters have the value of their digit bytes.
proof fn lemma_chars_value(b: Seq<u8>)
    ensures
        chars_value(b.map_values(|x: u8| x as char)) == digits_value(b),
    decreases b.len(),
{
    if b.len() > 0 {
        lemma_chars_value(b.drop_last());
        assert(b.map_values(|x: u8| x as char).drop_last() =~= b.drop_last().map_values(|x: u8| x as char));
    }
}

/// Text that writes an integer in decimal reads back as that integer: the
/// number `INCRBY` reads from such stored bytes is the integer written.
pub proof fn lemma_stored_decimal(i: i64)
    ensures
        stored_number(DataValue::Bytes(signed_decimal(i as int))) == Some(i),
{
    let n: nat = if i < 0 { (-i) as nat } else { i as nat };
    lemma_decimal(n);
    let d = decimal(n);
    let b = signed_decimal(i as int);
    assert forall|j: int| 0 <= j < b.len() implies #[trigger] b[j] <= 0x7f by {
        if i < 0 && j > 0 {
            assert(b[j] == d[j - 1]);
        }
    }
    lemma_decode_ascii(b);
    let c = b.map_values(|x: u8| x as char);
    let dc = d.map_values(|x: u8| x as char);
    lemma_chars_value(d);
    if i < 0 {
        assert(c[0] == '-');
        assert(c.skip(1) =~= dc);
    } else {
        assert(c =~= dc);
        assert(c.skip(0) =~= dc);
        assert(is_digit(d[0]));
        assert(c[0] != '-' && c[0] != '+');
    }
    assert forall|j: int| 0 <= j < dc.len() implies '0' <= #[trigger] dc[j] <= '9' by {
        assert(is_digit(d[j]));
    }
}

/// A `ZRANGEBYSCORE` answers nodes in order: its answer is sorted, and it
/// holds only nodes of the set whose score lies in the range.
pub proof fn lemma_zrange_by_score_sorted(s: Seq<NodeView>, range: (Bound<i64>, Bound<i64>), limit: Option<(i64, i64)>)
    requires
        nodes_sorted(s),
    ensures
        nodes_sorted(spec_zrange_by_score(s, range, false, limit)),
        forall|i: int|
            0 <= i < spec_zrange_by_score(s, range, false, limit).len() ==> s.contains(
                #[trigger] spec_zrange_by_score(s, range, false, limit)[i],
            ) && crate::utils::bound::in_range(range, spec_zrange_by_score(s, range, false, limit)[i].score),
{
    crate::db::data_type::sorted_set::lemma_zrange_by_score_parts(s, range, limit);
}

} // verus!
