//! The bookkeeping of disk snapshots: when the current one was started and
//! how many changes it has seen.

use vstd::prelude::*;

use crate::utils::clock::now_millis;

verus! {

/// The status of the current snapshot.
pub struct HdsStatus {
    create_timestamp: u64,
    update_time: i64,
    change_times: u64,
}

impl HdsStatus {
    /// When the snapshot was created, in seconds.
    pub closed spec fn created(self) -> u64 {
        self.create_timestamp
    }

    /// When the snapshot was last updated, in milliseconds.
    pub closed spec fn updated_at(self) -> i64 {
        self.update_time
    }

    /// The number of changes counted, modulo 2^64.
    pub closed spec fn changes(self) -> u64 {
        self.change_times
    }

    /// A snapshot created at `create_timestamp`, updated now, with no
    /// changes counted.
    pub fn new(create_timestamp: u64) -> (r: HdsStatus)
        ensures
            r.created() == create_timestamp,
            r.changes() == 0,
    {
        HdsStatus { create_timestamp, update_time: now_millis(), change_times: 0 }
    }

    /// Counts one more change; the count wraps around past `u64::MAX`.
    pub fn add_change_times(&mut self)
        ensures
            final(self).changes() == old(self).changes().wrapping_add(1),
            final(self).created() == old(self).created(),
    {
        self.change_times = self.change_times.wrapping_add(1);
    }

    /// The number of changes counted.
    pub fn change_times(&self) -> (r: u64)
        ensures
            r == self.changes(),
    {
        self.change_times
    }

    /// When the snapshot was last updated, in milliseconds.
    pub fn update_time(&self) -> (r: i64)
        ensures
            r == self.updated_at(),
    {
        self.update_time
    }

    /// Whether a new snapshot is due at `now`: some rule `(after, changes)`
    /// has more than `after` milliseconds passed since the last update and
    /// more than `changes` changes counted.
    pub fn save_due(&self, now: i64, rules: &Vec<(i64, u64)>) -> (r: bool)
        ensures
            r == exists|i: int|
                0 <= i < rules@.len() && now - self.updated_at() > (#[trigger] rules@[i]).0 && self.changes()
                    > rules@[i].1,
    {
        let elapsed: i128 = now as i128 - self.update_time as i128;
        let mut i: usize = 0;
        while i < rules.len()
            invariant
                0 <= i <= rules@.len(),
                elapsed == now - self.updated_at(),
                forall|j: int|
                    0 <= j < i ==> !(elapsed > (#[trigger] rules@[j]).0 && self.changes() > rules@[j].1),
            decreases rules@.len() - i,
        {
            let (after, changes) = rules[i];
            if elapsed > after as i128 && self.change_times > changes {
                return true;
            }
            i += 1;
        }
        false
    }
}

} // verus!
