use rcc::db::data::{Bytes, Data};
use rcc::db::state::State;

fn b(text: &str) -> Bytes {
    Bytes(text.as_bytes().to_vec())
}

#[test]
fn state_update_and_read() {
    let mut st = State::new();
    let (old, notify) = st.update("k".to_owned(), Data::parse_from_bytes(b"v".to_vec()), Some(100));
    assert!(old.is_none());
    assert!(notify);
    assert!(st.exists_key("k"));
    assert_eq!(st.get_expires_at("k"), Some(100));
    assert_eq!(st.next_expiration(), Some(100));
    let (old, notify) = st.update("k".to_owned(), Data::parse_from_bytes(b"w".to_vec()), None);
    assert!(matches!(old, Some(Data::Bytes(x)) if x == b("v")));
    assert!(!notify);
    assert_eq!(st.next_expiration(), None);
    assert!(matches!(st.remove("k"), Some(Data::Bytes(x)) if x == b("w")));
    assert!(!st.exists_key("k"));
}

#[test]
fn state_incr_answers_the_old_number() {
    let mut st = State::new();
    assert_eq!(st.incr_by("n".to_owned(), 5), Ok(0));
    assert_eq!(st.incr_by("n".to_owned(), 5), Ok(5));
    assert!(matches!(st.get_data("n"), Some(Data::Number(x)) if x.0 == 10));
    st.update("t".to_owned(), Data::parse_from_bytes(b"12".to_vec()), None);
    assert_eq!(st.incr_by("t".to_owned(), 1), Ok(12));
    st.update("x".to_owned(), Data::parse_from_bytes(b"1x".to_vec()), None);
    assert!(st.incr_by("x".to_owned(), 1).is_err());
    st.update("h".to_owned(), Data::Hash, None);
    assert_eq!(st.incr_by("h".to_owned(), 1), Err("type not support".to_owned()));
}

#[test]
fn state_purge_and_expiry() {
    let mut st = State::new();
    st.update("a".to_owned(), Data::parse_from_bytes(b"1".to_vec()), Some(10));
    st.update("b".to_owned(), Data::parse_from_bytes(b"2".to_vec()), Some(20));
    assert_eq!(st.set_expires_at("a".to_owned(), 30), (true, false));
    assert_eq!(st.set_expires_at("zz".to_owned(), 5), (false, true));
    assert_eq!(st.purge_expired_keys(25), Some(30));
    assert!(!st.exists_key("b"));
    assert!(st.exists_key("a"));
    st.shutdown(true);
    assert!(st.is_shutdown());
    assert_eq!(st.purge_expired_keys(40), None);
    assert!(st.exists_key("a"));
}

#[test]
fn state_lists() {
    let mut st = State::new();
    assert_eq!(st.rpush("l".to_owned(), vec![b("a"), b("b")]), Ok(2));
    assert_eq!(st.lpush("l".to_owned(), vec![b("c")]), Ok(3));
    assert_eq!(st.lrange("l", 0, -1), Ok(vec![b("c"), b("a"), b("b")]));
    assert_eq!(st.rpop("l", 5), Ok(Some(vec![b("b"), b("a"), b("c")])));
    assert_eq!(st.llen("l"), Ok(0));
    assert_eq!(st.lpushx("none", vec![b("x")]), Ok(0));
    assert_eq!(st.lpop("none", 1), Ok(None));
    st.update("v".to_owned(), Data::parse_from_bytes(b"1".to_vec()), None);
    assert_eq!(st.rpushx("v", vec![b("x")]), Err("the value stored at key is not a list.".to_owned()));
}

#[test]
fn state_expiry_given_to_a_lasting_entry() {
    let mut st = State::new();
    st.update("p".to_owned(), Data::parse_from_bytes(b"1".to_vec()), None);
    assert_eq!(st.next_expiration(), None);
    assert_eq!(st.set_expires_at("p".to_owned(), 15), (true, true));
    assert_eq!(st.get_expires_at("p"), Some(15));
    assert_eq!(st.next_expiration(), Some(15));
    assert_eq!(st.purge_expired_keys(20), None);
    assert!(!st.exists_key("p"));
}
