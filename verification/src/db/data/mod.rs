//! The values the key-value state stores: bytes, numbers and lists of bytes.
//!
//! Hashes, sets and sorted sets have a place here but hold nothing yet.

use std::collections::VecDeque;

use vstd::prelude::*;

use crate::utils::bytes::copy_bytes;

verus! {

/// A byte string stored as it was set.
#[derive(Debug, PartialEq, Eq)]
pub struct Bytes(pub Vec<u8>);

impl View for Bytes {
    type V = Seq<u8>;

    open spec fn view(&self) -> Seq<u8> {
        self.0@
    }
}

impl Bytes {
    /// A copy of the bytes.
    pub fn get_inner_clone(&self) -> (r: Vec<u8>)
        ensures
            r@ == self@,
    {
        copy_bytes(self.0.as_slice())
    }

    /// The bytes.
    pub fn get_inner(self) -> (r: Vec<u8>)
        ensures
            r@ == self@,
    {
        self.0
    }

    /// A copy of this byte string.
    pub fn duplicate(&self) -> (r: Bytes)
        ensures
            r@ == self@,
    {
        Bytes(self.get_inner_clone())
    }
}

/// A stored integer.
pub struct Number(pub i64);

/// A list of byte strings; its left end is the front of the deque.
pub struct List(pub VecDeque<Bytes>);

/// Byte strings, as mathematical values.
pub open spec fn bytes_view(s: Seq<Bytes>) -> Seq<Seq<u8>> {
    s.map_values(|b: Bytes| b@)
}

impl View for List {
    type V = Seq<Seq<u8>>;

    open spec fn view(&self) -> Seq<Seq<u8>> {
        bytes_view(self.0@)
    }
}

/// A stored value.
pub enum Data {
    Bytes(Bytes),
    Number(Number),
    List(List),
    Hash,
    MemberSet,
    SortedSet,
}

/// A stored value, as a mathematical value.
pub enum DataValue {
    Bytes(Seq<u8>),
    Number(i64),
    List(Seq<Seq<u8>>),
    Hash,
    MemberSet,
    SortedSet,
}

impl View for Data {
    type V = DataValue;

    open spec fn view(&self) -> DataValue {
        match self {
            Data::Bytes(b) => DataValue::Bytes(b@),
            Data::Number(n) => DataValue::Number(n.0),
            Data::List(l) => DataValue::List(l@),
            Data::Hash => DataValue::Hash,
            Data::MemberSet => DataValue::MemberSet,
            Data::SortedSet => DataValue::SortedSet,
        }
    }
}

impl Data {
    /// Bytes as they were set.
    pub fn parse_from_bytes(bytes: Vec<u8>) -> (r: Data)
        ensures
            r@ == DataValue::Bytes(bytes@),
    {
        Data::Bytes(Bytes(bytes))
    }
}

impl List {
    /// A new empty list.
    pub fn new() -> (r: List)
        ensures
            r@ == Seq::<Seq<u8>>::empty(),
    {
        let r = List(VecDeque::new());
        assert(r@ =~= Seq::<Seq<u8>>::empty());
        r
    }

    /// The number of values.
    pub fn len(&self) -> (r: usize)
        ensures
            r == self@.len(),
    {
        self.0.len()
    }

    /// Pushes the values one by one on the left (`left`) or the right.
    pub fn push_all(&mut self, values: &Vec<Bytes>, left: bool)
        ensures
            final(self)@ == (if left {
                bytes_view(values@).reverse() + old(self)@
            } else {
                old(self)@ + bytes_view(values@)
            }),
    {
        let ghost l0 = self@;
        let mut i: usize = 0;
        while i < values.len()
            invariant
                0 <= i <= values@.len(),
                self@ == (if left {
                    bytes_view(values@.take(i as int)).reverse() + l0
                } else {
                    l0 + bytes_view(values@.take(i as int))
                }),
            decreases values@.len() - i,
        {
            let v = values[i].duplicate();
            let ghost before = self@;
            let ghost vv = v@;
            if left {
                self.0.push_front(v);
            } else {
                self.0.push_back(v);
            }
            proof {
                let vs = bytes_view(values@.take(i as int));
                let vs2 = bytes_view(values@.take(i + 1));
                assert(vs2 =~= vs.push(vv));
                if left {
                    assert(vs2.reverse() =~= seq![vv] + vs.reverse());
                    assert(self@ =~= seq![vv] + before);
                } else {
                    assert(self@ =~= before.push(vv));
                }
            }
            i += 1;
        }
        proof {
            assert(values@.take(values@.len() as int) =~= values@);
        }
    }

    /// Pops up to `count` values from the left (`left`) or the right, in
    /// the order they come off.
    pub fn pop_some(&mut self, count: usize, left: bool) -> (r: Vec<Bytes>)
        ensures
            ({
                let l = old(self)@;
                let n = if count < l.len() { count as int } else { l.len() as int };
                &&& bytes_view(r@) == (if left { l.take(n) } else { l.skip(l.len() - n).reverse() })
                &&& final(self)@ == (if left { l.skip(n) } else { l.take(l.len() - n) })
            }),
    {
        let ghost l0 = self@;
        let mut res: Vec<Bytes> = Vec::new();
        let mut i: usize = 0;
        while i < count
            invariant_except_break
                0 <= i <= count,
                i <= l0.len(),
                bytes_view(res@) == (if left { l0.take(i as int) } else { l0.skip(l0.len() - i).reverse() }),
                self@ == (if left { l0.skip(i as int) } else { l0.take(l0.len() - i) }),
            ensures
                ({
                    let n = if count < l0.len() { count as int } else { l0.len() as int };
                    &&& bytes_view(res@) == (if left { l0.take(n) } else { l0.skip(l0.len() - n).reverse() })
                    &&& self@ == (if left { l0.skip(n) } else { l0.take(l0.len() - n) })
                }),
            decreases count - i,
        {
            let ghost before = self@;
            let v = if left {
                self.0.pop_front()
            } else {
                self.0.pop_back()
            };
            match v {
                Some(v) => {
                    proof {
                        if left {
                            assert(v@ == before[0]);
                            assert(before[0] == l0[i as int]);
                            assert(l0.take(i + 1) =~= l0.take(i as int).push(v@));
                            assert(self@ =~= before.subrange(1, before.len() as int));
                            assert(self@ =~= l0.skip(i + 1));
                        } else {
                            assert(v@ == before[before.len() - 1]);
                            assert(before[before.len() - 1] == l0[l0.len() - i - 1]);
                            assert(l0.skip(l0.len() - (i + 1)).reverse() =~= l0.skip(
                                l0.len() - i,
                            ).reverse().push(v@));
                            assert(self@ =~= before.subrange(0, before.len() - 1));
                            assert(self@ =~= l0.take(l0.len() - (i + 1)));
                        }
                    }
                    let ghost res0 = res@;
                    let ghost vv = v@;
                    res.push(v);
                    proof {
                        assert(bytes_view(res@) =~= bytes_view(res0).push(vv));
                    }
                },
                None => {
                    proof {
                        assert(before.len() == 0);
                        assert(i == l0.len());
                    }
                    break;
                },
            }
            i += 1;
        }
        res
    }

    /// Copies of the values at positions `[b, e)`.
    pub fn range_values(&self, b: usize, e: usize) -> (r: Vec<Bytes>)
        requires
            b <= e <= self@.len(),
        ensures
            bytes_view(r@) == self@.subrange(b as int, e as int),
    {
        let mut r: Vec<Bytes> = Vec::new();
        let mut i: usize = b;
        while i < e
            invariant
                b <= i <= e <= self@.len(),
                bytes_view(r@) == self@.subrange(b as int, i as int),
            decreases e - i,
        {
            let ghost r0 = r@;
            let v = self.0[i].duplicate();
            r.push(v);
            proof {
                assert(bytes_view(r@) =~= bytes_view(r0).push(self@[i as int]));
                assert(self@.subrange(b as int, i + 1) =~= self@.subrange(b as int, i as int).push(
                    self@[i as int],
                ));
            }
            i += 1;
        }
        r
    }

    /// The positions that the inclusive range `start..=stop` covers; see
    /// `crate::db::data_type::list::spec_shape`.
    pub fn shape(&self, start: i64, stop: i64) -> (r: (usize, usize))
        ensures
            (r.0 as int, r.1 as int) == crate::db::data_type::list::spec_shape(
                self@.len() as int,
                start as int,
                stop as int,
            ),
            r.0 <= r.1 <= self@.len(),
    {
        let len = self.0.len() as i128;
        let mut start = start as i128;
        let mut stop = stop as i128;
        if start < 0 {
            start += len;
        }
        if stop < 0 {
            stop += len;
        }
        if start >= len || stop < 0 || stop < start {
            return (0, 0);
        }
        if start < 0 {
            start = 0;
        }
        if stop >= len {
            stop = len - 1;
        }
        (start as usize, (stop + 1) as usize)
    }
}

} // verus!
