//! Lists of values.
//!
//! The left end of a list is the front of its deque, the right end the back.

use std::collections::VecDeque;

use vstd::prelude::*;

use super::{SimpleType, SimpleValue};

verus! {

/// A list of values.
pub struct List(pub VecDeque<SimpleType>);

/// The values of a sequence of values.
pub open spec fn values_view(s: Seq<SimpleType>) -> Seq<SimpleValue> {
    s.map_values(|v: SimpleType| v@)
}

impl View for List {
    type V = Seq<SimpleValue>;

    open spec fn view(&self) -> Seq<SimpleValue> {
        values_view(self.0@)
    }
}

/// The positions `[begin, end)` that the inclusive range `start..=stop`
/// covers in a list of `len` values. Negative indexes count from the right,
/// `-1` being the last value; an index past either end is clamped; a range
/// that starts past the end, stops before the start or is empty covers
/// nothing.
pub open spec fn spec_shape(len: int, start: int, stop: int) -> (int, int) {
    let start1 = if start < 0 { start + len } else { start };
    let stop1 = if stop < 0 { stop + len } else { stop };
    if start1 >= len || stop1 < 0 || stop1 < start1 {
        (0, 0)
    } else {
        let b = if start1 < 0 { 0 } else { start1 };
        let e = if stop1 >= len { len - 1 } else { stop1 };
        (b, e + 1)
    }
}

impl List {
    /// A new empty list.
    pub fn new() -> (r: List)
        ensures
            r@ == Seq::<SimpleValue>::empty(),
    {
        let r = List(VecDeque::new());
        assert(r@ =~= Seq::<SimpleValue>::empty());
        r
    }

    /// The number of values.
    pub fn len(&self) -> (r: usize)
        ensures
            r == self@.len(),
    {
        self.0.len()
    }

    /// Copies of the values at positions `[b, e)`.
    pub fn range_values(&self, b: usize, e: usize) -> (r: Vec<SimpleType>)
        requires
            b <= e <= self@.len(),
        ensures
            values_view(r@) == self@.subrange(b as int, e as int),
    {
        let mut r: Vec<SimpleType> = Vec::new();
        let mut i: usize = b;
        while i < e
            invariant
                b <= i <= e <= self@.len(),
                values_view(r@) == self@.subrange(b as int, i as int),
            decreases e - i,
        {
            let ghost r0 = r@;
            let v = self.0[i].duplicate();
            r.push(v);
            proof {
                assert(values_view(r@) =~= values_view(r0).push(self@[i as int]));
                assert(self@.subrange(b as int, i + 1) =~= self@.subrange(b as int, i as int).push(
                    self@[i as int],
                ));
            }
            i += 1;
        }
        r
    }

    /// The positions that the inclusive range `start..=stop` covers.
    pub fn shape(&self, start: i64, stop: i64) -> (r: (usize, usize))
        ensures
            (r.0 as int, r.1 as int) == spec_shape(self@.len() as int, start as int, stop as int),
            r.0 <= r.1 <= self@.len(),
    {
        let len = self.0.len() as i128;
        let mut start = start as i128;
        let mut stop = stop as i128;
        if start < 0 {
            start += len;
        }
        if stop < 0 {
            stop += len;
        }
        if start >= len || stop < 0 || stop < start {
            return (0, 0);
        }
        if start < 0 {
            start = 0;
        }
        if stop >= len {
            stop = len - 1;
        }
        (start as usize, (stop + 1) as usize)
    }
}

} // verus!
