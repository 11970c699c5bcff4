//! The values a slot stores: single values and collections.
//!
//! Single values are ordered first by kind, in the order the kinds are
//! listed, then by content.

pub mod kvp;
pub mod sorted_set;

use std::collections::VecDeque;

use vstd::prelude::*;

use crate::utils::bytes::{bytes_order, copy_bytes, lemma_lex_order_swap, lemma_lex_order_trans, lemma_lex_order_zero, lex_order};
use crate::utils::keymap::{Key, KeyMap};
use crate::utils::numeric::{atoi_i64, chars_value, digits_value, is_digit, parse_i64, spec_atoi, spec_parse_i64};
use crate::parse::roundtrip::lemma_signed_decimal_round_trip;
use crate::parse::roundtrip::lemma_decimal;
use crate::parse::to_bytes::{decimal, signed_decimal};

pub use self::kvp::Kvp;
pub use self::sorted_set::SortedSet;

verus! {

/// A single value. `Big` is a placeholder that ends ranges: it comes before
/// every other value. A float is kept as its whole-number value.
#[derive(Debug, PartialEq, Eq)]
pub enum SimpleType {
    Big,
    String(String),
    Bytes(Vec<u8>),
    Integer(i64),
    Float(i64),
    Null,
}

/// A single value, as a mathematical value.
pub enum SimpleValue {
    Big,
    String(Seq<char>),
    Bytes(Seq<u8>),
    Integer(i64),
    Float(i64),
    Null,
}

impl View for SimpleType {
    type V = SimpleValue;

    open spec fn view(&self) -> SimpleValue {
        match self {
            SimpleType::Big => SimpleValue::Big,
            SimpleType::String(s) => SimpleValue::String(s@),
            SimpleType::Bytes(b) => SimpleValue::Bytes(b@),
            SimpleType::Integer(i) => SimpleValue::Integer(*i),
            SimpleType::Float(f) => SimpleValue::Float(*f),
            SimpleType::Null => SimpleValue::Null,
        }
    }
}

/// Where a kind of value stands in the order of values.
pub open spec fn kind_rank(v: SimpleValue) -> int {
    match v {
        SimpleValue::Big => 0,
        SimpleValue::String(_) => 1,
        SimpleValue::Bytes(_) => 2,
        SimpleValue::Integer(_) => 3,
        SimpleValue::Float(_) => 4,
        SimpleValue::Null => 5,
    }
}

/// The order of two integers: -1, 0 or 1.
pub open spec fn int_order(a: int, b: int) -> int {
    if a < b {
        -1
    } else if a > b {
        1
    } else {
        0
    }
}

/// The order of values: by kind, then text and bytes by their bytes and
/// numbers by value. Negative, zero or positive as `a` comes before, equals
/// or comes after `b`.
pub open spec fn value_order(a: SimpleValue, b: SimpleValue) -> int {
    if kind_rank(a) != kind_rank(b) {
        int_order(kind_rank(a), kind_rank(b))
    } else {
        match (a, b) {
            (SimpleValue::String(x), SimpleValue::String(y)) => lex_order(
                vstd::utf8::encode_utf8(x),
                vstd::utf8::encode_utf8(y),
            ),
            (SimpleValue::Bytes(x), SimpleValue::Bytes(y)) => lex_order(x, y),
            (SimpleValue::Integer(x), SimpleValue::Integer(y)) => int_order(x as int, y as int),
            (SimpleValue::Float(x), SimpleValue::Float(y)) => int_order(x as int, y as int),
            _ => 0,
        }
    }
}

/// The order of values is a total order: antisymmetric, zero exactly on
/// equal values, and transitive.
pub proof fn lemma_value_order(a: SimpleValue, b: SimpleValue, c: SimpleValue)
    ensures
        value_order(a, b) == -value_order(b, a),
        (value_order(a, b) == 0) == (a == b),
        value_order(a, b) < 0 && value_order(b, c) < 0 ==> value_order(a, c) < 0,
{
    match (a, b) {
        (SimpleValue::String(x), SimpleValue::String(y)) => {
            lemma_lex_order_swap(vstd::utf8::encode_utf8(x), vstd::utf8::encode_utf8(y));
            lemma_lex_order_zero(vstd::utf8::encode_utf8(x), vstd::utf8::encode_utf8(y));
            if vstd::utf8::encode_utf8(x) == vstd::utf8::encode_utf8(y) {
                vstd::utf8::encode_utf8_decode_utf8(x);
                vstd::utf8::encode_utf8_decode_utf8(y);
            }
        },
        (SimpleValue::Bytes(x), SimpleValue::Bytes(y)) => {
            lemma_lex_order_swap(x, y);
            lemma_lex_order_zero(x, y);
        },
        _ => {},
    }
    if value_order(a, b) < 0 && value_order(b, c) < 0 {
        match (a, b, c) {
            (SimpleValue::String(x), SimpleValue::String(y), SimpleValue::String(z)) => {
                lemma_lex_order_trans(
                    vstd::utf8::encode_utf8(x),
                    vstd::utf8::encode_utf8(y),
                    vstd::utf8::encode_utf8(z),
                );
            },
            (SimpleValue::Bytes(x), SimpleValue::Bytes(y), SimpleValue::Bytes(z)) => {
                lemma_lex_order_trans(x, y, z);
            },
            _ => {},
        }
    }
}

/// A value read as an integer: text as `str::parse` reads it, bytes as
/// `atoi` reads them, an integer as it is, nothing and `Big` as 0; a float
/// is no integer.
pub open spec fn spec_to_i64(v: SimpleValue) -> Option<i64> {
    match v {
        SimpleValue::String(s) => spec_parse_i64(s),
        SimpleValue::Bytes(b) => spec_atoi(b),
        SimpleValue::Integer(i) => Some(i),
        SimpleValue::Float(_) => None,
        SimpleValue::Null => Some(0),
        SimpleValue::Big => Some(0),
    }
}

/// The characters of the ASCII bytes `s`.
pub open spec fn ascii_text(s: Seq<u8>) -> Seq<char> {
    s.map_values(|b: u8| b as char)
}

/// Decimal digits as characters are digit characters worth what the bytes
/// are worth.
proof fn lemma_digit_chars(s: Seq<u8>)
    requires
        forall|i: int| 0 <= i < s.len() ==> is_digit(#[trigger] s[i]),
    ensures
        chars_value(ascii_text(s)) == digits_value(s),
        forall|i: int| 0 <= i < s.len() ==> '0' <= #[trigger] ascii_text(s)[i] <= '9',
    decreases s.len(),
{
    if s.len() > 0 {
        assert(ascii_text(s).drop_last() =~= ascii_text(s.drop_last()));
        lemma_digit_chars(s.drop_last());
        assert(ascii_text(s).last() == s.last() as char);
        assert(is_digit(s.last()));
    }
}

/// Text that spells an integer in decimal, with a `-` in front when it is
/// negative, reads as that integer.
pub proof fn lemma_decimal_text_reads_as_number(d: i64)
    ensures
        spec_to_i64(SimpleValue::String(ascii_text(signed_decimal(d as int)))) == Some(d),
{
    if d < 0 {
        let n = (-d) as nat;
        lemma_decimal(n);
        lemma_digit_chars(decimal(n));
        let t = ascii_text(signed_decimal(d as int));
        assert(t =~= seq!['-'] + ascii_text(decimal(n)));
        assert(t.skip(1) =~= ascii_text(decimal(n)));
    } else {
        let n = d as nat;
        lemma_decimal(n);
        lemma_digit_chars(decimal(n));
        let t = ascii_text(signed_decimal(d as int));
        assert(t[0] != '-' && t[0] != '+');
        assert(t.skip(0) =~= t);
    }
}

/// Bytes that spell an integer in decimal, with a `-` in front when it is
/// negative, read as that integer, and an integer reads as itself.
pub proof fn lemma_decimal_reads_as_number(d: i64)
    ensures
        spec_to_i64(SimpleValue::Bytes(signed_decimal(d as int))) == Some(d),
        spec_to_i64(SimpleValue::Integer(d)) == Some(d),
{
    lemma_signed_decimal_round_trip(d);
}

impl SimpleType {
    /// Text.
    pub fn from_text(s: &str) -> (r: SimpleType)
        ensures
            r@ == SimpleValue::String(s@),
    {
        SimpleType::String(s.to_string())
    }

    /// A copy of this value.
    pub fn duplicate(&self) -> (r: SimpleType)
        ensures
            r@ == self@,
    {
        match self {
            SimpleType::Big => SimpleType::Big,
            SimpleType::String(s) => SimpleType::String(s.clone()),
            SimpleType::Bytes(b) => SimpleType::Bytes(copy_bytes(b.as_slice())),
            SimpleType::Integer(i) => SimpleType::Integer(*i),
            SimpleType::Float(f) => SimpleType::Float(*f),
            SimpleType::Null => SimpleType::Null,
        }
    }

    /// Compares two values in the order of values: -1, 0 or 1.
    pub fn order(&self, other: &SimpleType) -> (r: i8)
        ensures
            r == value_order(self@, other@),
    {
        let ra = self.rank();
        let rb = other.rank();
        if ra < rb {
            return -1;
        }
        if ra > rb {
            return 1;
        }
        match (self, other) {
            (SimpleType::String(x), SimpleType::String(y)) => bytes_order(
                x.as_str().as_bytes(),
                y.as_str().as_bytes(),
            ),
            (SimpleType::Bytes(x), SimpleType::Bytes(y)) => bytes_order(x.as_slice(), y.as_slice()),
            (SimpleType::Integer(x), SimpleType::Integer(y)) => if *x < *y {
                -1
            } else if *x > *y {
                1
            } else {
                0
            },
            (SimpleType::Float(x), SimpleType::Float(y)) => if *x < *y {
                -1
            } else if *x > *y {
                1
            } else {
                0
            },
            _ => 0,
        }
    }

    fn rank(&self) -> (r: u8)
        ensures
            r == kind_rank(self@),
    {
        match self {
            SimpleType::Big => 0,
            SimpleType::String(_) => 1,
            SimpleType::Bytes(_) => 2,
            SimpleType::Integer(_) => 3,
            SimpleType::Float(_) => 4,
            SimpleType::Null => 5,
        }
    }

    /// Whether two values are the same.
    pub fn same(&self, other: &SimpleType) -> (r: bool)
        ensures
            r == (self@ == other@),
    {
        let o = self.order(other);
        proof {
            lemma_value_order(self@, other@, other@);
        }
        o == 0
    }

    /// This value read as an integer; see `spec_to_i64`. The error is
    /// "type error" for a float or bytes that are no number, and the
    /// reader's text for text that is no number.
    pub fn to_i64(&self) -> (r: Result<i64, String>)
        ensures
            match r {
                Ok(v) => spec_to_i64(self@) == Some(v),
                Err(_) => spec_to_i64(self@) is None,
            },
            (self@ is Float || self@ is Bytes) && r is Err ==> (r matches Err(e) && e@ == "type error"@),
    {
        match self {
            SimpleType::String(s) => parse_i64(s.as_str()),
            SimpleType::Bytes(b) => match atoi_i64(b.as_slice()) {
                Some(v) => Ok(v),
                None => Err("type error".to_string()),
            },
            SimpleType::Integer(i) => Ok(*i),
            SimpleType::Float(_) => Err("type error".to_string()),
            SimpleType::Null => Ok(0),
            SimpleType::Big => Ok(0),
        }
    }
}

impl Key for SimpleType {
    fn same_key(&self, other: &Self) -> (r: bool) {
        self.same(other)
    }

    fn copy_key(&self) -> (r: Self) {
        self.duplicate()
    }
}

/// A list of values; its left end is the front of the deque.
pub struct Deque(pub VecDeque<SimpleType>);

/// Values, as mathematical values.
pub open spec fn values_view(s: Seq<SimpleType>) -> Seq<SimpleValue> {
    s.map_values(|v: SimpleType| v@)
}

impl View for Deque {
    type V = Seq<SimpleValue>;

    open spec fn view(&self) -> Seq<SimpleValue> {
        values_view(self.0@)
    }
}

impl Deque {
    /// The number of values.
    pub fn len(&self) -> (r: usize)
        ensures
            r == self@.len(),
    {
        self.0.len()
    }

    /// The positions that the inclusive range `start..=stop` covers; see
    /// `crate::db::data_type::list::spec_shape`.
    pub fn shape(&self, start: i64, stop: i64) -> (r: (usize, usize))
        ensures
            (r.0 as int, r.1 as int) == crate::db::data_type::list::spec_shape(
                self@.len() as int,
                start as int,
                stop as int,
            ),
            r.0 <= r.1 <= self@.len(),
    {
        let len = self.0.len() as i128;
        let mut start = start as i128;
        let mut stop = stop as i128;
        if start < 0 {
            start += len;
        }
        if stop < 0 {
            stop += len;
        }
        if start >= len || stop < 0 || stop < start {
            return (0, 0);
        }
        if start < 0 {
            start = 0;
        }
        if stop >= len {
            stop = len - 1;
        }
        (start as usize, (stop + 1) as usize)
    }

    /// Copies of the values at positions `[b, e)`.
    pub fn range_values(&self, b: usize, e: usize) -> (r: Vec<SimpleType>)
        requires
            b <= e <= self@.len(),
        ensures
            values_view(r@) == self@.subrange(b as int, e as int),
    {
        let mut r: Vec<SimpleType> = Vec::new();
        let mut i: usize = b;
        while i < e
            invariant
                b <= i <= e <= self@.len(),
                values_view(r@) == self@.subrange(b as int, i as int),
            decreases e - i,
        {
            let ghost r0 = r@;
            let v = self.0[i].duplicate();
            r.push(v);
            proof {
                assert(values_view(r@) =~= values_view(r0).push(self@[i as int]));
                assert(self@.subrange(b as int, i + 1) =~= self@.subrange(b as int, i as int).push(
                    self@[i as int],
                ));
            }
            i += 1;
        }
        r
    }
}

/// A set of values.
pub struct MemberSet(pub KeyMap<SimpleType, ()>);

/// The value stored under a key.
pub enum DataType {
    SimpleType(SimpleType),
    CollectionType(CollectionType),
}

/// A value made of several values.
pub enum CollectionType {
    Kvp(Kvp),
    Deque(Deque),
    MemberSet(MemberSet),
    SortedSet(SortedSet),
}

/// The value stored under a key, as a mathematical value: a single value,
/// or which kind of collection it is with what a command reads of it.
pub enum DataView {
    Simple(SimpleValue),
    Kvp(Map<SimpleValue, SimpleValue>),
    Deque(Seq<SimpleValue>),
    MemberSet(vstd::set::Set<SimpleValue>),
    SortedSet(self::sorted_set::SortedSetView),
}

impl View for DataType {
    type V = DataView;

    open spec fn view(&self) -> DataView {
        match self {
            DataType::SimpleType(s) => DataView::Simple(s@),
            DataType::CollectionType(CollectionType::Kvp(k)) => DataView::Kvp(k@),
            DataType::CollectionType(CollectionType::Deque(d)) => DataView::Deque(d@),
            DataType::CollectionType(CollectionType::MemberSet(s)) => DataView::MemberSet(s.0.spec_map().dom()),
            DataType::CollectionType(CollectionType::SortedSet(z)) => DataView::SortedSet(z@),
        }
    }
}

impl DataType {
    /// An integer.
    pub fn from_i64(i: i64) -> (r: DataType)
        ensures
            r@ == DataView::Simple(SimpleValue::Integer(i)),
    {
        DataType::SimpleType(SimpleType::Integer(i))
    }
}

} // verus!
