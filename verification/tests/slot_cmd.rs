use rcc::slot::cmd::kvp;
use rcc::slot::cmd::simple::get::Req as GetReq;
use rcc::slot::cmd::simple::incr::Incr;
use rcc::slot::cmd::simple::set::{Resp, SetReq};
use rcc::slot::cmd::simple::{del, exists_key};
use rcc::slot::cmd::sorted_set::{add, range_by_score, remove_by_lex_range};
use rcc::slot::data_type::sorted_set::Node;
use rcc::slot::data_type::SimpleType;
use rcc::slot::dict::Dict;
use rcc::slot::Slot;
use rcc::utils::bound::Bound;
use rcc::utils::options::{ExpiresAt, GtLt, NxXx};

fn s(text: &str) -> SimpleType {
    SimpleType::String(text.to_owned())
}

fn get(dict: &Dict, key: &str, now: i64) -> SimpleType {
    GetReq { key: &s(key) }.apply_in_lock(dict, now).unwrap()
}

#[test]
fn set_test1() {}

#[test]
fn simple_set_test1() {
    let mut dict = Dict::new();
    let now = 1_000;
    let date_time = now + 1_000;
    let cmd = SetReq { key: s("hello"), value: s("world"), expires_at: ExpiresAt::Specific(date_time), nx_xx: NxXx::NoCondition };
    let res = cmd.apply(1, &mut dict).unwrap();
    assert_eq!(res, Resp { old_value: SimpleType::Null, new_expires_at: Some(date_time) });
    assert_eq!((get(&dict, "hello", now), get(&dict, "n", now)), (s("world"), SimpleType::Null));
    // xx
    let cmd = SetReq { key: s("hello"), value: s("world2"), expires_at: ExpiresAt::Specific(date_time), nx_xx: NxXx::Xx };
    let res = cmd.apply(1, &mut dict).unwrap();
    assert_eq!(res, Resp { old_value: s("world"), new_expires_at: Some(date_time) });
    let cmd = SetReq { key: s("n"), value: s("world2"), expires_at: ExpiresAt::Specific(date_time), nx_xx: NxXx::Xx };
    let res = cmd.apply(1, &mut dict).unwrap();
    assert_eq!(res, Resp { old_value: SimpleType::Null, new_expires_at: None });
    assert_eq!((get(&dict, "hello", now), get(&dict, "n", now)), (s("world2"), SimpleType::Null));
    // nx
    let cmd = SetReq { key: s("hello"), value: s("world3"), expires_at: ExpiresAt::Specific(date_time), nx_xx: NxXx::Nx };
    let res = cmd.apply(1, &mut dict).unwrap();
    assert_eq!(res, Resp { old_value: s("world2"), new_expires_at: None });
    let cmd = SetReq { key: s("n"), value: s("world3"), expires_at: ExpiresAt::Never, nx_xx: NxXx::Nx };
    let res = cmd.apply(1, &mut dict).unwrap();
    assert_eq!(res, Resp { old_value: SimpleType::Null, new_expires_at: None });
    assert_eq!((get(&dict, "hello", now), get(&dict, "n", now)), (s("world2"), s("world3")));
    // time
    let cmd = SetReq { key: s("hello"), value: s("world"), expires_at: ExpiresAt::Last, nx_xx: NxXx::NoCondition };
    let res = cmd.apply(1, &mut dict).unwrap();
    assert_eq!(res, Resp { old_value: s("world2"), new_expires_at: Some(date_time) });
    assert_eq!((get(&dict, "hello", now), get(&dict, "n", now)), (s("world"), s("world3")));
    // one second on
    let later = date_time;
    assert_eq!((get(&dict, "hello", later), get(&dict, "n", later)), (SimpleType::Null, s("world3")));
}

#[test]
fn slot_set_hands_out_ids() {
    let mut slot = Slot::new(3);
    assert_eq!(slot.slot_id(), 3);
    let res = slot.set(SetReq { key: s("k"), value: s("v"), expires_at: ExpiresAt::Never, nx_xx: NxXx::NoCondition });
    assert_eq!(res, Ok(Resp { old_value: SimpleType::Null, new_expires_at: None }));
    assert_eq!(slot.dict.get(&s("k")).unwrap().id, 0);
    assert_eq!(slot.next_id(), 1);
}

#[test]
fn incr_on_a_key() {
    let mut dict = Dict::new();
    let w = Incr { key: s("n"), value: 5 }.apply(7, &mut dict, 0).unwrap();
    assert_eq!((w.payload, w.new_expires_at), (5, None));
    // A live value is added to.
    let w = Incr { key: s("n"), value: 3 }.apply(8, &mut dict, 0).unwrap();
    assert_eq!(w.payload, 8);
    assert_eq!(get(&dict, "n", 0), SimpleType::Integer(8));
    SetReq { key: s("e"), value: s("40"), expires_at: ExpiresAt::Specific(99), nx_xx: NxXx::NoCondition }
        .apply(1, &mut dict)
        .unwrap();
    let w = Incr { key: s("e"), value: 2 }.apply(9, &mut dict, 50).unwrap();
    assert_eq!((w.payload, w.new_expires_at), (42, Some(99)));
    // Once expired, the value starts again from the increment.
    let w = Incr { key: s("e"), value: 2 }.apply(10, &mut dict, 100).unwrap();
    assert_eq!((w.payload, w.new_expires_at), (2, None));
    SetReq { key: s("f"), value: SimpleType::Float(3), expires_at: ExpiresAt::Specific(99), nx_xx: NxXx::NoCondition }
        .apply(1, &mut dict)
        .unwrap();
    assert_eq!(Incr { key: s("f"), value: 2 }.apply(9, &mut dict, 0).err(), Some("type error".to_owned()));
}

#[test]
fn del_and_exists() {
    let mut dict = Dict::new();
    SetReq { key: s("a"), value: s("1"), expires_at: ExpiresAt::Specific(10), nx_xx: NxXx::NoCondition }
        .apply(1, &mut dict)
        .unwrap();
    assert_eq!(exists_key::Req { key: &s("a") }.apply(&dict, 5), Ok(true));
    assert_eq!(exists_key::Req { key: &s("a") }.apply(&dict, 10), Ok(false));
    let w = del::Req { key: s("a") }.apply(0, &mut dict, 10).unwrap();
    assert!(w.payload.is_none());
    let w = del::Req { key: s("a") }.apply(0, &mut dict, 5).unwrap();
    assert_eq!(w.payload.map(|v| v.id), Some(1));
    assert_eq!(exists_key::Req { key: &s("a") }.apply(&dict, 5), Ok(false));
}

#[test]
fn pairs_incr_and_read() {
    let mut dict = Dict::new();
    let w = kvp::incr::Req { key: s("h"), field: s("f"), value: 3 }.apply(1, &mut dict, 0).unwrap();
    assert_eq!(w.payload, 3);
    let w = kvp::incr::Req { key: s("h"), field: s("f"), value: 4 }.apply(2, &mut dict, 0).unwrap();
    assert_eq!(w.payload, 7);
    let all = kvp::get_all::Req { key: &s("h") }.apply_in_lock(&dict, 0).unwrap().unwrap();
    assert_eq!(all.len(), 1);
    assert_eq!((all[0].key.duplicate(), all[0].value.duplicate()), (s("f"), SimpleType::Integer(7)));
    assert!(kvp::get_all::Req { key: &s("none") }.apply_in_lock(&dict, 0).unwrap().is_none());
    let w = kvp::set::SetReq { key: s("p"), entries: vec![(s("a"), s("b"))], nx_xx: NxXx::NoCondition }
        .apply(3, &mut dict)
        .unwrap();
    assert_eq!((w.payload.old_len(), w.payload.new_len()), (0, 1));
    assert_eq!(kvp::get_all::Req { key: &s("p") }.apply_in_lock(&dict, 0).unwrap().unwrap().len(), 1);
    // NX writes only new keys, XX only existing ones.
    let w = kvp::set::SetReq { key: s("p"), entries: vec![(s("a"), s("x")), (s("c"), s("d"))], nx_xx: NxXx::Nx }
        .apply(4, &mut dict)
        .unwrap();
    assert_eq!((w.payload.old_len(), w.payload.new_len()), (1, 2));
    let w = kvp::set::SetReq { key: s("p"), entries: vec![(s("a"), s("y")), (s("e"), s("f"))], nx_xx: NxXx::Xx }
        .apply(5, &mut dict)
        .unwrap();
    assert_eq!((w.payload.old_len(), w.payload.new_len()), (2, 2));
    let all = kvp::get_all::Req { key: &s("p") }.apply_in_lock(&dict, 0).unwrap().unwrap();
    let mut pairs: Vec<(String, String)> = all
        .iter()
        .map(|p| match (&p.key, &p.value) {
            (SimpleType::String(k), SimpleType::String(v)) => (k.clone(), v.clone()),
            _ => panic!("text pairs expected"),
        })
        .collect();
    pairs.sort();
    assert_eq!(pairs, vec![("a".to_owned(), "y".to_owned()), ("c".to_owned(), "d".to_owned())]);
    let res = kvp::set::SetReq { key: s("h2"), entries: vec![], nx_xx: NxXx::NoCondition }.apply(6, &mut dict);
    assert!(res.is_ok());
    SetReq { key: s("v"), value: s("1"), expires_at: ExpiresAt::Never, nx_xx: NxXx::NoCondition }.apply(7, &mut dict).unwrap();
    assert_eq!(kvp::set::SetReq { key: s("v"), entries: vec![], nx_xx: NxXx::NoCondition }.apply(8, &mut dict).err(), Some("error type".to_owned()));
}

fn n(key: &str, score: i64) -> Node {
    Node { key: s(key), score }
}

#[test]
fn sorted_set_add_and_remove() {
    let mut dict = Dict::new();
    let req = add::Req {
        key: s("z"),
        nodes: vec![n("a", 1), n("b", 2), n("c", 3)],
        nx_xx: NxXx::NoCondition,
        gt_lt: GtLt::NoCondition,
        incr: false,
    };
    let w = req.apply(1, &mut dict, 0).unwrap();
    assert_eq!((w.payload.old_len, w.payload.new_len, w.payload.update_len), (0, 3, 3));
    let req = add::Req { key: s("z"), nodes: vec![n("a", 5), n("d", 1)], nx_xx: NxXx::Nx, gt_lt: GtLt::NoCondition, incr: false };
    let w = req.apply(2, &mut dict, 0).unwrap();
    assert_eq!((w.payload.old_len, w.payload.new_len, w.payload.update_len), (3, 4, 1));
    let req = add::Req { key: s("z"), nodes: vec![n("a", 0), n("b", 9)], nx_xx: NxXx::NoCondition, gt_lt: GtLt::Gt, incr: false };
    let w = req.apply(3, &mut dict, 0).unwrap();
    assert_eq!(w.payload.update_len, 1);
    let res = range_by_score::Req { key: &s("z"), range: (Bound::Unbounded, Bound::Included(5)), limit: None, rev: false }
        .apply(&dict, 0)
        .unwrap();
    assert_eq!(res, vec![n("a", 1), n("d", 1), n("c", 3)]);
    let res = range_by_score::Req { key: &s("z"), range: (Bound::Excluded(1), Bound::Included(9)), limit: None, rev: true }
        .apply(&dict, 0)
        .unwrap();
    assert_eq!(res, vec![n("b", 9), n("c", 3)]);
    let res = range_by_score::Req { key: &s("z"), range: (Bound::Included(1), Bound::Unbounded), limit: Some((1, 2)), rev: false }
        .apply(&dict, 0)
        .unwrap();
    assert_eq!(res, vec![n("d", 1), n("c", 3)]);
    let res = range_by_score::Req { key: &s("none"), range: (Bound::Unbounded, Bound::Unbounded), limit: None, rev: false }
        .apply(&dict, 0)
        .unwrap();
    assert!(res.is_empty());
    let all = range_by_score::Req { key: &s("z"), range: (Bound::Unbounded, Bound::Unbounded), limit: None, rev: false }
        .apply(&dict, 0)
        .unwrap();
    assert_eq!(all, vec![n("a", 1), n("d", 1), n("c", 3), n("b", 9)]);
    let w = remove_by_lex_range::Req { key: s("z"), range: (Bound::Included(s("b")), Bound::Unbounded), rev: false }
        .apply(0, &mut dict, 0)
        .unwrap();
    assert_eq!(w.payload, vec![n("b", 9), n("c", 3), n("d", 1)]);
    let rest = range_by_score::Req { key: &s("z"), range: (Bound::Unbounded, Bound::Unbounded), limit: None, rev: true }
        .apply(&dict, 0)
        .unwrap();
    assert_eq!(rest, vec![n("a", 1)]);
}

#[test]
fn sorted_set_add_gt_lt_still_adds_new_members() {
    let mut dict = Dict::new();
    let req = add::Req { key: s("z"), nodes: vec![n("a", 1)], nx_xx: NxXx::NoCondition, gt_lt: GtLt::NoCondition, incr: false };
    req.apply(1, &mut dict, 0).unwrap();
    let req = add::Req { key: s("z"), nodes: vec![n("a", 0), n("e", 4)], nx_xx: NxXx::NoCondition, gt_lt: GtLt::Gt, incr: false };
    let w = req.apply(2, &mut dict, 0).unwrap();
    assert_eq!((w.payload.old_len, w.payload.new_len, w.payload.update_len), (1, 2, 1));
    let req = add::Req { key: s("z"), nodes: vec![n("f", 4), n("a", 0)], nx_xx: NxXx::Xx, gt_lt: GtLt::Lt, incr: false };
    let w = req.apply(3, &mut dict, 0).unwrap();
    assert_eq!((w.payload.old_len, w.payload.new_len, w.payload.update_len), (2, 2, 1));
    let req = add::Req { key: s("z"), nodes: vec![n("g", 4)], nx_xx: NxXx::Nx, gt_lt: GtLt::Gt, incr: false };
    let w = req.apply(4, &mut dict, 0).unwrap();
    assert_eq!(w.payload.update_len, 0);
}
