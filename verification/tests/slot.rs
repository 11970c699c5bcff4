use std::collections::VecDeque;

use rcc::db::data_type::hash::HashEntry;
use rcc::db::data_type::list::List;
use rcc::db::data_type::{DataType, SimpleType};
use rcc::db::slot::Slot;
use rcc::utils::clock::now_millis;
use rcc::utils::options::NxXx;

fn s(text: &str) -> SimpleType {
    SimpleType::SimpleString(text.to_owned())
}

fn i(n: i64) -> SimpleType {
    SimpleType::Integer(n)
}

#[test]
fn test_shape() {
    let list = List((1..=10).map(SimpleType::Integer).collect::<VecDeque<_>>());
    assert_eq!(list.shape(1, 5), (1, 6));
    assert_eq!(list.shape(1, 100), (1, 10));
    assert_eq!(list.shape(0, 100), (0, 10));
    assert_eq!(list.shape(-2, 100), (8, 10));
    assert_eq!(list.shape(-2, -2), (8, 9));
    assert_eq!(list.shape(-2, -100), (0, 0));
    assert_eq!(list.shape(-2, -10), (0, 0));
    assert_eq!(list.shape(2, -10), (0, 0));
    assert_eq!(list.shape(2, -1), (2, 10));
    assert_eq!(list.shape(-100, -1), (0, 10));
}

#[test]
fn test_set() {
    let mut slot = Slot::new();
    let key = s("123");
    let res = slot.set(key.duplicate(), s("456"), NxXx::NoCondition, None, false).unwrap();
    assert_eq!(res, None);
    assert_eq!(slot.get_simple(&key).unwrap(), Some(s("456")));
    let res = slot.set(key.duplicate(), s("4567"), NxXx::Nx, None, false).unwrap();
    assert_eq!(res, Some(s("456")));
    assert_eq!(slot.get_simple(&key).unwrap(), Some(s("456")));
    slot.set(key.duplicate(), s("4567"), NxXx::NoCondition, None, false).unwrap();
    assert_eq!(slot.get_simple(&key).unwrap(), Some(s("4567")));
    let key2 = s("1234");
    slot.set(key2.duplicate(), s("4567"), NxXx::Xx, None, false).unwrap();
    assert_eq!(slot.get_simple(&key2).unwrap(), None);
    let ea = Some(now_millis() + 1000);
    slot.set(key.duplicate(), s("4567"), NxXx::NoCondition, ea, false).unwrap();
    assert_eq!(slot.get_expires_at(&key), ea);
    slot.set(key.duplicate(), s("45678"), NxXx::NoCondition, None, true).unwrap();
    assert_eq!(slot.get_expires_at(&key), ea);
    // Two seconds on, the expiry has passed.
    assert_eq!(slot.dict.get_expires_at_at(&key, ea.unwrap() + 1000), None);
}

#[test]
fn test_remove() {
    let mut slot = Slot::new();
    let key = s("123");
    let res = slot.set(key.duplicate(), s("456"), NxXx::NoCondition, None, false).unwrap();
    assert_eq!(res, None);
    assert_eq!(slot.get_simple(&key).unwrap(), Some(s("456")));
    assert!(matches!(slot.remove(&key), Some(DataType::SimpleType(v)) if v == s("456")));
    assert_eq!(slot.get_simple(&key).unwrap(), None)
}

#[test]
fn test_set_expires_at() {
    let mut slot = Slot::new();
    let key = s("123");
    let res = slot.set(key.duplicate(), s("456"), NxXx::NoCondition, None, false).unwrap();
    assert_eq!(res, None);
    assert_eq!(slot.get_simple(&key).unwrap(), Some(s("456")));
    let ea = now_millis() + 1000;
    assert!(slot.set_expires_at(&key, ea));
    assert_eq!(slot.get_expires_at(&key), Some(ea));
    // Two seconds on, the expiration runs and the key is gone.
    let later = ea + 1000;
    assert_eq!(slot.purge_expired_keys(later), None);
    assert_eq!(slot.get_simple_at(&key, later).unwrap(), None)
}

#[test]
fn integer_test() {
    let mut slot = Slot::new();
    assert_eq!(slot.incr_by(s("abc"), 123), Ok(123));
    assert_eq!(slot.incr_by(s("abc"), 123), Ok(123 + 123));
    slot.set(s("aaa"), s("2345"), NxXx::NoCondition, None, false).unwrap();
    assert_eq!(slot.incr_by(s("aaa"), -123), Ok(2345 - 123));
}

#[test]
fn incr_by_refuses_what_is_no_number() {
    let mut slot = Slot::new();
    slot.set(s("t"), s("x1"), NxXx::NoCondition, None, false).unwrap();
    assert!(slot.incr_by(s("t"), 1).is_err());
    assert_eq!(slot.get_simple(&s("t")).unwrap(), Some(s("x1")));
    slot.rpush(s("l"), vec![i(1)]).unwrap();
    assert_eq!(slot.incr_by(s("l"), 1), Err("type not support".to_owned()));
}

#[test]
fn list_test() {
    let mut slot = Slot::new();
    assert_eq!(slot.lpush(s("key"), vec![s("123"), s("4"), i(5), i(6), i(7), i(8), i(9)]), Ok(7));
    assert_eq!(slot.lpop(&s("key"), 2), Ok(Some(vec![i(9), i(8)])));
    assert_eq!(slot.rpop(&s("key"), 2), Ok(Some(vec![s("123"), s("4")])));
    assert_eq!(slot.rpush(s("key"), vec![i(7), i(8), i(9)]), Ok(6));
    assert_eq!(slot.rpop(&s("key"), 2), Ok(Some(vec![i(9), i(8)])));
    assert_eq!(slot.lrange(&s("key"), 0, 10), Ok(vec![i(7), i(6), i(5), i(7)]));
    assert_eq!(slot.llen(&s("key")), Ok(4));
    assert_eq!(slot.lpushx(&s("key2"), vec![i(9)]), Ok(0));
    assert_eq!(slot.rpushx(&s("key2"), vec![i(9)]), Ok(0));
    assert_eq!(slot.llen(&s("key2")), Ok(0));
    assert_eq!(slot.rpushx(&s("key"), vec![i(9)]), Ok(5));
    assert_eq!(slot.llen(&s("key")), Ok(5));
}

#[test]
fn list_commands_refuse_other_values() {
    let mut slot = Slot::new();
    slot.set(s("v"), s("1"), NxXx::NoCondition, None, false).unwrap();
    let msg = "the value stored at key is not a list.".to_owned();
    assert_eq!(slot.lpush(s("v"), vec![i(1)]), Err(msg.clone()));
    assert_eq!(slot.llen(&s("v")), Err(msg.clone()));
    assert_eq!(slot.lpop(&s("v"), 1), Err(msg));
    assert_eq!(slot.lpop(&s("none"), 1), Ok(None));
    assert_eq!(slot.lrange(&s("none"), 0, -1), Ok(vec![]));
}

#[test]
fn expired_lists_are_not_read() {
    let mut slot = Slot::new();
    slot.rpush(s("l"), vec![i(1), i(2)]).unwrap();
    assert!(slot.set_expires_at_at(&s("l"), 100, 0));
    assert_eq!(slot.llen_at(&s("l"), 50), Ok(2));
    assert_eq!(slot.purge_expired_keys(99), Some(100));
    assert_eq!(slot.purge_expired_keys(100), None);
    assert_eq!(slot.llen_at(&s("l"), 50), Ok(0));
}

fn entry(field: SimpleType, value: SimpleType) -> HashEntry {
    HashEntry { field, value }
}

fn sorted_entries(mut v: Vec<HashEntry>) -> Vec<HashEntry> {
    v.sort_by_key(|e| format!("{:?}", e.field));
    v
}

#[test]
fn hash_test() {
    let mut slot = Slot::new();
    let key = s("abc");
    assert_eq!(Ok(2), slot.hset(key.duplicate(), vec![entry(s("abc"), s("456")), entry(s("def"), i(123))]));
    assert_eq!(slot.hmget(&key, vec![s("abc"), s("aaa"), s("def")]), Ok(vec![Some(s("456")), None, Some(i(123))]));
    assert_eq!(slot.hsetnx(key.duplicate(), s("abc"), s("111")), Ok(0));
    assert_eq!(slot.hsetnx(key.duplicate(), s("aaa"), s("111")), Ok(1));
    assert_eq!(slot.hmget(&key, vec![s("abc"), s("aaa")]), Ok(vec![Some(s("456")), Some(s("111"))]));
    assert_eq!(
        sorted_entries(slot.hgetall(&key).unwrap()),
        sorted_entries(vec![entry(s("abc"), s("456")), entry(s("aaa"), s("111")), entry(s("def"), i(123))])
    );
    assert_eq!(slot.hdel(&key, vec![s("abc"), s("aaa"), s("xxx")]), Ok(2));
    assert_eq!(slot.hgetall(&key).unwrap(), vec![entry(s("def"), i(123))]);
    assert_eq!(slot.hexists(&key, s("abc")), Ok(0));
    assert_eq!(slot.hexists(&key, s("def")), Ok(1));
    assert_eq!(slot.hincrby(key.duplicate(), s("def"), 123), Ok(123 + 123));
    assert_eq!(slot.hincrby(key.duplicate(), s("xxx"), 123), Ok(123));
    slot.hset(key.duplicate(), vec![entry(s("abc"), s("456"))]).unwrap();
    assert_eq!(slot.hincrby(key, s("abc"), 123), Ok(456 + 123));
}

#[test]
fn hash_commands_refuse_other_values() {
    let mut slot = Slot::new();
    slot.set(s("v"), s("1"), NxXx::NoCondition, None, false).unwrap();
    let msg = "the value stored at key is not a hash.".to_owned();
    assert_eq!(slot.hset(s("v"), vec![entry(s("a"), i(1))]), Err(msg.clone()));
    assert_eq!(slot.hexists(&s("v"), s("a")), Err(msg));
    slot.hset(s("h"), vec![entry(s("f"), SimpleType::Null)]).unwrap();
    assert_eq!(slot.hincrby(s("h"), s("f"), 1), Err("type not support".to_owned()));
}

fn rank(v: &SimpleType) -> (u8, String) {
    match v {
        SimpleType::Null => (0, String::new()),
        SimpleType::Integer(n) => (1, format!("{:020}", n)),
        SimpleType::SimpleString(t) => (2, t.clone()),
        SimpleType::Blob(b) => (3, format!("{:?}", b)),
    }
}

#[test]
fn set_test() {
    let mut slot = Slot::new();
    assert_eq!(slot.sadd(s("key"), vec![s("123"), i(2), i(3), i(4), i(2)]), Ok(4));
    assert_eq!(slot.smismember(&s("key"), vec![s("123"), i(5), i(4)]), Ok(vec![true, false, true]));
    assert_eq!(slot.srem(&s("key"), vec![s("123"), i(5), i(4)]), Ok(2));
    assert_eq!(slot.sadd(s("key"), vec![s("bb")]), Ok(1));
    let mut r2 = slot.smembers(&s("key")).unwrap();
    r2.sort_by_key(rank);
    assert_eq!(r2, vec![i(2), i(3), s("bb")])
}

#[test]
fn decr_on_a_missing_key() {
    let mut slot = Slot::new();
    let key = s("decr_test");
    assert_eq!(slot.get_simple(&key), Ok(None));
    assert_eq!(slot.incr_by(key.duplicate(), -1), Ok(-1));
    assert_eq!(slot.get_simple(&key), Ok(Some(i(-1))));
}

#[test]
fn key_value_get_set() {
    let mut slot = Slot::new();
    let key = s("hello");
    assert_eq!(slot.get_simple(&key), Ok(None));
    assert_eq!(slot.set(key.duplicate(), s("world"), NxXx::NoCondition, None, false), Ok(None));
    assert_eq!(slot.get_simple(&key), Ok(Some(s("world"))));
}

#[test]
fn expire_moves_an_expiry() {
    let mut slot = Slot::new();
    let key = s("k");
    slot.set_at(key.duplicate(), s("v"), NxXx::NoCondition, Some(100), false, 0).unwrap();
    assert!(slot.set_expires_at_at(&key, 200, 50));
    assert_eq!(slot.dict.get_expires_at_at(&key, 50), Some(200));
    assert_eq!(slot.purge_expired_keys(150), Some(200));
    assert_eq!(slot.get_simple_at(&key, 150), Ok(Some(s("v"))));
    assert_eq!(slot.purge_expired_keys(250), None);
    assert_eq!(slot.get_simple_at(&key, 150), Ok(None));
    assert!(!slot.set_expires_at_at(&key, 300, 250));
}

#[test]
fn slot_ids_move_on() {
    let mut slot = Slot::new();
    let a = slot.next_id();
    let b = slot.next_id();
    assert_eq!(b, a + 1);
    slot.set(s("x"), s("1"), NxXx::NoCondition, None, false).unwrap();
    slot.set(s("y"), s("1"), NxXx::NoCondition, None, false).unwrap();
    assert_ne!(slot.dict.get_any(&s("x")).unwrap().id, slot.dict.get_any(&s("y")).unwrap().id);
}

#[test]
fn srem_counts_each_member_once() {
    let mut slot = Slot::new();
    assert_eq!(slot.sadd(s("key"), vec![i(1), i(2), i(3)]), Ok(3));
    assert_eq!(slot.srem(&s("key"), vec![i(2), i(2), i(9), i(3), i(2)]), Ok(2));
    assert_eq!(slot.smembers(&s("key")), Ok(vec![i(1)]));
    assert_eq!(slot.srem(&s("none"), vec![i(1)]), Ok(0));
}

#[test]
fn hgetall_gives_every_field_once() {
    let mut slot = Slot::new();
    let key = s("h");
    assert_eq!(slot.hgetall(&key), Ok(vec![]));
    let pairs = || -> Vec<HashEntry> { (0..20).map(|n| entry(i(n), i(n * 10))).collect() };
    assert_eq!(slot.hset(key.duplicate(), pairs()), Ok(20));
    assert_eq!(slot.hset(key.duplicate(), vec![entry(i(3), s("x"))]), Ok(1));
    let mut expected = pairs();
    expected[3] = entry(i(3), s("x"));
    assert_eq!(sorted_entries(slot.hgetall(&key).unwrap()), sorted_entries(expected));
}
