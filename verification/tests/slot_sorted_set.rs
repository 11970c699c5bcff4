use rcc::db::data_type::sorted_set::{Node, RangeItem};
use rcc::db::slot::Slot;
use rcc::utils::bound::Bound;
use rcc::utils::options::{GtLt, NxXx};

fn node(key: &str, score: i64) -> Node {
    Node::new(key.to_owned(), score)
}

#[test]
fn zadd_then_zrange_and_zrank() {
    let mut slot = Slot::new();
    assert_eq!(slot.zadd("z".to_owned(), vec![node("a", 1), node("b", 2)], NxXx::NoCondition, GtLt::NoCondition, false, false), Ok(2));
    assert_eq!(slot.zrank("z", "a", false), Ok(Some(0)));
    assert_eq!(slot.zrank("z", "a", true), Ok(Some(1)));
    assert_eq!(slot.zrange("z", RangeItem::Rank((0, -1)), false, None), Ok(vec![node("a", 1), node("b", 2)]));
    // With CH a changed score counts too; with INCR the old score is added.
    assert_eq!(slot.zadd("z".to_owned(), vec![node("a", 5), node("c", 0)], NxXx::NoCondition, GtLt::NoCondition, true, false), Ok(2));
    assert_eq!(slot.zadd("z".to_owned(), vec![node("c", 4)], NxXx::NoCondition, GtLt::NoCondition, false, true), Ok(0));
    assert_eq!(slot.zrange("z", RangeItem::Rank((0, -1)), false, None), Ok(vec![node("b", 2), node("c", 4), node("a", 5)]));
    // GT leaves a lower score alone but still adds a new member.
    assert_eq!(slot.zadd("z".to_owned(), vec![node("a", 1), node("d", 9)], NxXx::NoCondition, GtLt::Gt, false, false), Ok(1));
    assert_eq!(slot.zrank("z", "d", false), Ok(Some(3)));
    assert_eq!(slot.zrem("z", vec!["a".to_owned(), "x".to_owned(), "a".to_owned()]), Ok(1));
    assert_eq!(slot.zrange("z", RangeItem::Rank((0, -1)), false, None), Ok(vec![node("b", 2), node("c", 4), node("d", 9)]));
    assert_eq!(slot.zremrange_by_score("z", (Bound::Included(3), Bound::Included(4))), Ok(1));
    assert_eq!(slot.zremrange_by_rank("z", (0, -1)), Ok(2));
    assert_eq!(slot.zrange("z", RangeItem::Rank((0, -1)), false, None), Ok(vec![]));
}

#[test]
fn sorted_set_commands_on_missing_and_wrong_keys() {
    let mut slot = Slot::new();
    assert_eq!(slot.zrange("none", RangeItem::Socre((Bound::Unbounded, Bound::Unbounded)), false, None), Ok(vec![]));
    assert_eq!(slot.zrank("none", "a", false), Ok(None));
    assert_eq!(slot.zrem("none", vec!["a".to_owned()]), Ok(0));
    slot.rpush(rcc::db::data_type::SimpleType::SimpleString("l".to_owned()), vec![]).unwrap();
    let msg = "the value stored at key is not a sorted set.".to_owned();
    assert_eq!(slot.zrange("l", RangeItem::Rank((0, -1)), false, None), Err(msg.clone()));
    assert_eq!(slot.zadd("l".to_owned(), vec![], NxXx::NoCondition, GtLt::NoCondition, false, false), Err(msg));
}
