use rcc::db::data_type::{DataType, SimpleType};
use rcc::db::hds::HdsStatus;
use rcc::db::slot::dict::{Dict, Entry};
use rcc::db::slot::Slot;
use rcc::expire;
use rcc::slot::data_type::SimpleType as SlotValue;
use rcc::utils::options::NxXx;
use rcc::utils::u8_to_string;

fn s(text: &str) -> SimpleType {
    SimpleType::SimpleString(text.to_owned())
}

fn i(n: i64) -> SimpleType {
    SimpleType::Integer(n)
}

#[test]
fn snapshot_is_due_by_its_rules() {
    let mut st = HdsStatus::new(42);
    assert_eq!(st.change_times(), 0);
    st.add_change_times();
    st.add_change_times();
    assert_eq!(st.change_times(), 2);
    let now = st.update_time() + 2000;
    assert!(st.save_due(now, &vec![(1000, 1)]));
    assert!(!st.save_due(now, &vec![(1000, 2)]));
    assert!(!st.save_due(now, &vec![(5000, 1)]));
    assert!(st.save_due(now, &vec![(5000, 1), (1500, 0)]));
    assert!(!st.save_due(now, &vec![]));
}

#[test]
fn conversions_out_of_values() {
    assert_eq!(s("abc").try_into_string(), Ok("abc".to_owned()));
    assert_eq!(i(3).try_into_string(), Err("类型不对".to_owned()));
    assert_eq!(DataType::SimpleType(i(3)).try_into_simple(), Ok(i(3)));
    let mut slot = Slot::new();
    slot.sadd(s("set"), vec![s("a")]).unwrap();
    let taken = slot.remove(&s("set")).unwrap();
    assert_eq!(taken.try_into_simple(), Err("类型不对".to_owned()));
}

#[test]
fn dict_takes_only_live_entries() {
    let mut d = Dict::new();
    d.insert(s("k"), Entry { id: 1, data: DataType::SimpleType(i(5)), expires_at: Some(100) });
    assert!(d.take_live(&s("k"), 100).is_none());
    assert!(d.contains(&s("k")));
    let e = d.take_live(&s("k"), 99).unwrap();
    assert_eq!(e.id, 1);
    assert!(!d.contains(&s("k")));
}

#[test]
fn dict_moves_an_expiry() {
    let mut d = Dict::new();
    assert_eq!(d.update_expires_at(&s("k"), Some(7), || 9), None);
    d.insert(s("k"), Entry { id: 1, data: DataType::SimpleType(i(5)), expires_at: None });
    assert_eq!(d.update_expires_at(&s("k"), Some(7), || 9), Some(9));
    assert_eq!(d.get_expires_at_at(&s("k"), 0), Some(7));
    assert_eq!(d.get_expires_at_at(&s("k"), 7), None);
    assert_eq!(d.get_any(&s("k")).unwrap().id, 9);
}

#[test]
fn lists_at_an_instant() {
    let mut slot = Slot::new();
    assert_eq!(slot.lpushx_at(&s("l"), vec![i(1)], 0), Ok(0));
    assert_eq!(slot.rpush(s("l"), vec![i(1), i(2)]), Ok(2));
    assert_eq!(slot.dict.update_expires_at(&s("l"), Some(100), || 0), Some(0));
    assert_eq!(slot.lpushx_at(&s("l"), vec![i(0)], 50), Ok(3));
    assert_eq!(slot.rpushx_at(&s("l"), vec![i(3)], 50), Ok(4));
    assert_eq!(slot.rpushx_at(&s("l"), vec![i(4)], 100), Ok(0));
    assert_eq!(slot.lrange_at(&s("l"), 0, -1, 50), Ok(vec![i(0), i(1), i(2), i(3)]));
    assert_eq!(slot.lpop_at(&s("l"), 1, 50), Ok(Some(vec![i(0)])));
    assert_eq!(slot.rpop_at(&s("l"), 2, 50), Ok(Some(vec![i(3), i(2)])));
    assert_eq!(slot.llen_at(&s("l"), 50), Ok(1));
    assert_eq!(slot.lpop_at(&s("l"), 1, 150), Ok(None));
    assert_eq!(slot.llen_at(&s("l"), 150), Ok(0));
}

#[test]
fn slot_layer_expirations_tell_the_next_one() {
    let mut e = expire::Expiration::new();
    assert_eq!(e.next_expiration(), None);
    let key = SlotValue::String("k".to_owned());
    assert!(e.receive(expire::Entry { expires_at: 50, slot: 1, id: 1, key: key.duplicate() }));
    assert!(!e.receive(expire::Entry { expires_at: 80, slot: 1, id: 2, key: key.duplicate() }));
    assert!(e.receive(expire::Entry { expires_at: 20, slot: 2, id: 3, key: key.duplicate() }));
    assert_eq!(e.next_expiration(), Some(20));
    assert_eq!(e.purge_expired_keys(10), Some(20));
    assert_eq!(e.purge_expired_keys(50), Some(80));
    assert_eq!(e.next_expiration(), Some(80));
    assert_eq!(e.purge_expired_keys(80), None);
}

#[test]
fn conditions_as_arguments() {
    assert_eq!(NxXx::Nx.to_arg(), Some(b"NX".to_vec()));
    assert_eq!(NxXx::Xx.to_arg(), Some(b"XX".to_vec()));
    assert_eq!(NxXx::NoCondition.to_arg(), None);
}

#[test]
fn text_out_of_bytes() {
    assert_eq!(u8_to_string("héllo".as_bytes()), "héllo".to_owned());
}
