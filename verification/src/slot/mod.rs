//! The slot layer: a share of the key space whose commands each carry an
//! id and are applied to the slot's dict.

pub mod cmd;
pub mod data_type;
pub mod dict;
pub mod laws;

use vstd::prelude::*;

use self::cmd::simple::set::{Resp, SetReq};
use self::dict::Dict;

verus! {

/// A slot: its number, the id for the next write and its entries.
pub struct Slot {
    slot_id: u16,
    next_id: u64,
    pub dict: Dict,
}

impl Slot {
    /// The entries.
    pub closed spec fn entries(self) -> Map<data_type::SimpleValue, dict::ValueView> {
        self.dict@
    }

    /// The number of this slot.
    pub closed spec fn number(self) -> u16 {
        self.slot_id
    }

    /// The id the next write gets.
    pub closed spec fn upcoming_id(self) -> u64 {
        self.next_id
    }

    /// An empty slot with number `slot_id`.
    pub fn new(slot_id: u16) -> (r: Slot)
        ensures
            r.entries() == Map::<data_type::SimpleValue, dict::ValueView>::empty(),
            r.upcoming_id() == 0,
            r.number() == slot_id,
    {
        Slot { slot_id, next_id: 0, dict: Dict::new() }
    }

    /// The number of this slot.
    pub fn slot_id(&self) -> (r: u16)
        ensures
            r == self.number(),
    {
        self.slot_id
    }

    /// Hands out the next id; ids wrap around past `u64::MAX`.
    pub fn next_id(&mut self) -> (r: u64)
        ensures
            r == old(self).upcoming_id(),
            final(self).upcoming_id() == old(self).upcoming_id().wrapping_add(1),
            final(self).entries() == old(self).entries(),
    {
        let id = self.next_id;
        self.next_id = self.next_id.wrapping_add(1);
        id
    }

    /// `SET` under the next id; see `SetReq::apply`.
    pub fn set(&mut self, cmd: SetReq) -> (r: Result<Resp, String>)
        ensures
            final(self).upcoming_id() == old(self).upcoming_id().wrapping_add(1),
            ({
                let m = old(self).entries();
                let k = cmd.key@;
                let id = old(self).upcoming_id();
                if m.contains_key(k) {
                    if cmd.nx_xx == crate::utils::options::NxXx::Nx {
                        r matches Ok(resp) && resp.old_value@ == cmd::simple::set::simple_of(m[k].data)
                            && resp.new_expires_at is None && final(self).entries() == m
                    } else {
                        let ea = cmd::simple::set::new_expiry(cmd.expires_at, m[k].expire_at);
                        r matches Ok(resp) && resp.old_value@ == cmd::simple::set::simple_of(m[k].data)
                            && resp.new_expires_at == ea && final(self).entries() == m.insert(
                            k,
                            dict::ValueView { id, data: data_type::DataView::Simple(cmd.value@), expire_at: ea },
                        )
                    }
                } else {
                    if cmd.nx_xx == crate::utils::options::NxXx::Xx {
                        r matches Ok(resp) && resp.old_value@ == data_type::SimpleValue::Null
                            && resp.new_expires_at is None && final(self).entries() == m
                    } else {
                        let ea = cmd::simple::set::new_expiry(cmd.expires_at, None);
                        r matches Ok(resp) && resp.old_value@ == data_type::SimpleValue::Null
                            && resp.new_expires_at == ea && final(self).entries() == m.insert(
                            k,
                            dict::ValueView { id, data: data_type::DataView::Simple(cmd.value@), expire_at: ea },
                        )
                    }
                }
            }),
    {
        let id = self.next_id();
        cmd.apply(id, &mut self.dict)
    }
}

} // verus!
