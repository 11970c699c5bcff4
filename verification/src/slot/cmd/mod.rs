//! The commands of a slot. A write carries the id that the entries it
//! creates get.

pub mod deque;
pub mod kvp;
pub mod simple;
pub mod sorted_set;

use vstd::prelude::*;

verus! {

/// A write command of a slot.
pub enum WriteCmd {
    Del(self::simple::del::Req),
    Incr(self::simple::incr::Incr),
    SetValue(self::simple::set::SetReq),
    KvpIncr(self::kvp::incr::Req),
    KvpSet(self::kvp::set::SetReq),
    SortedSetAdd(self::sorted_set::add::Req),
    SortedSetRemoveByLexRange(self::sorted_set::remove_by_lex_range::Req),
    Empty,
}

/// What a write answers, with the expiry it gave where that changed.
pub struct WriteResp<T> {
    pub payload: T,
    pub new_expires_at: Option<i64>,
}

} // verus!
