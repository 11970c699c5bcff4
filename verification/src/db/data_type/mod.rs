//! The types of value a key can hold.

pub mod blob;
pub mod hash;
pub mod list;
pub mod number;
pub mod set;
pub mod sorted_set;

use vstd::prelude::*;

use crate::utils::bytes::{bytes_eq, bytes_order, copy_bytes, lex_order};
use crate::parse::frame::Frame;
use crate::parse::to_bytes::{signed_decimal, signed_decimal_bytes};
use crate::utils::keymap::Key;
use vstd::std_specs::convert::FromSpecImpl;

pub use self::hash::HashEntry;
pub use self::list::List;
pub use self::set::MemberSet;
pub use self::sorted_set::{Node as SortedSetNode, NodeView, RangeItem as ZrangeItem, SortedSet, SortedSetView};

verus! {

/// A single value: bytes, text, an integer or nothing.
#[derive(Debug, PartialEq, Eq)]
pub enum SimpleType {
    Blob(Vec<u8>),
    SimpleString(String),
    Integer(i64),
    Null,
}

/// A single value, as a mathematical value.
pub enum SimpleValue {
    Blob(Seq<u8>),
    SimpleString(Seq<char>),
    Integer(i64),
    Null,
}

impl View for SimpleType {
    type V = SimpleValue;

    open spec fn view(&self) -> SimpleValue {
        match self {
            SimpleType::Blob(b) => SimpleValue::Blob(b@),
            SimpleType::SimpleString(s) => SimpleValue::SimpleString(s@),
            SimpleType::Integer(i) => SimpleValue::Integer(*i),
            SimpleType::Null => SimpleValue::Null,
        }
    }
}

/// Where a kind of value stands in the order of values: nothing, then
/// integers, then text, then bytes.
pub open spec fn kind_rank(v: SimpleValue) -> int {
    match v {
        SimpleValue::Null => 0,
        SimpleValue::Integer(_) => 1,
        SimpleValue::SimpleString(_) => 2,
        SimpleValue::Blob(_) => 3,
    }
}

/// The order of values: by kind first, then integers by value and text and
/// bytes lexicographically by their bytes. Negative, zero or positive as `a`
/// comes before, equals or comes after `b`.
pub open spec fn value_order(a: SimpleValue, b: SimpleValue) -> int {
    if kind_rank(a) < kind_rank(b) {
        -1
    } else if kind_rank(a) > kind_rank(b) {
        1
    } else {
        match (a, b) {
            (SimpleValue::Blob(x), SimpleValue::Blob(y)) => lex_order(x, y),
            (SimpleValue::SimpleString(x), SimpleValue::SimpleString(y)) => lex_order(
                vstd::utf8::encode_utf8(x),
                vstd::utf8::encode_utf8(y),
            ),
            (SimpleValue::Integer(x), SimpleValue::Integer(y)) => if x < y {
                -1
            } else if x > y {
                1
            } else {
                0
            },
            _ => 0,
        }
    }
}

impl SimpleType {
    /// A text value.
    pub fn from_text(s: &str) -> (r: SimpleType)
        ensures
            r@ == SimpleValue::SimpleString(s@),
    {
        SimpleType::SimpleString(s.to_owned())
    }

    /// A copy of this value.
    pub fn duplicate(&self) -> (r: SimpleType)
        ensures
            r@ == self@,
    {
        match self {
            SimpleType::Blob(b) => SimpleType::Blob(copy_bytes(b.as_slice())),
            SimpleType::SimpleString(s) => SimpleType::SimpleString(s.clone()),
            SimpleType::Integer(i) => SimpleType::Integer(*i),
            SimpleType::Null => SimpleType::Null,
        }
    }

    /// Whether two values are the same.
    pub fn same(&self, other: &SimpleType) -> (r: bool)
        ensures
            r == (self@ == other@),
    {
        match (self, other) {
            (SimpleType::Blob(a), SimpleType::Blob(b)) => bytes_eq(a.as_slice(), b.as_slice()),
            (SimpleType::SimpleString(a), SimpleType::SimpleString(b)) => a.eq(b),
            (SimpleType::Integer(a), SimpleType::Integer(b)) => *a == *b,
            (SimpleType::Null, SimpleType::Null) => true,
            _ => false,
        }
    }

    /// Compares two values in the order of values: -1, 0 or 1.
    pub fn order(&self, other: &SimpleType) -> (r: i8)
        ensures
            r == value_order(self@, other@),
    {
        match (self, other) {
            (SimpleType::Blob(a), SimpleType::Blob(b)) => bytes_order(a.as_slice(), b.as_slice()),
            (SimpleType::Blob(_), _) => 1,
            (SimpleType::Null, SimpleType::Null) => 0,
            (SimpleType::Null, _) => -1,
            (SimpleType::SimpleString(_), SimpleType::Blob(_)) => -1,
            (SimpleType::SimpleString(a), SimpleType::SimpleString(b)) => bytes_order(
                a.as_str().as_bytes(),
                b.as_str().as_bytes(),
            ),
            (SimpleType::SimpleString(_), _) => 1,
            (SimpleType::Integer(_), SimpleType::Null) => 1,
            (SimpleType::Integer(a), SimpleType::Integer(b)) => {
                if *a < *b {
                    -1
                } else if *a > *b {
                    1
                } else {
                    0
                }
            },
            (SimpleType::Integer(_), _) => -1,
        }
    }
}

impl SimpleType {
    /// The text of a text value, or the error "类型不对" for anything else.
    pub fn try_into_string(self) -> (r: Result<String, String>)
        ensures
            match self@ {
                SimpleValue::SimpleString(t) => r matches Ok(s) && s@ == t,
                _ => r matches Err(e) && e@ == "类型不对"@,
            },
    {
        match self {
            SimpleType::SimpleString(s) => Ok(s),
            _ => Err("类型不对".to_string()),
        }
    }
}

impl From<i64> for SimpleType {
    fn from(n: i64) -> (r: SimpleType) {
        SimpleType::Integer(n)
    }
}

impl FromSpecImpl<i64> for SimpleType {
    open spec fn obeys_from_spec() -> bool {
        true
    }

    open spec fn from_spec(n: i64) -> SimpleType {
        SimpleType::Integer(n)
    }
}

impl From<SimpleType> for DataType {
    fn from(s: SimpleType) -> (r: DataType) {
        DataType::SimpleType(s)
    }
}

impl FromSpecImpl<SimpleType> for DataType {
    open spec fn obeys_from_spec() -> bool {
        true
    }

    open spec fn from_spec(s: SimpleType) -> DataType {
        DataType::SimpleType(s)
    }
}

impl From<AggregateType> for DataType {
    fn from(s: AggregateType) -> (r: DataType) {
        DataType::AggregateType(s)
    }
}

impl FromSpecImpl<AggregateType> for DataType {
    open spec fn obeys_from_spec() -> bool {
        true
    }

    open spec fn from_spec(s: AggregateType) -> DataType {
        DataType::AggregateType(s)
    }
}

impl Key for SimpleType {
    fn same_key(&self, other: &Self) -> (r: bool) {
        self.same(other)
    }

    fn copy_key(&self) -> (r: Self) {
        self.duplicate()
    }
}


/// A field and its value, as a hash hands them out.
pub struct SimpleTypePair {
    pub key: SimpleType,
    pub value: SimpleType,
}

/// The value stored under a key.
pub enum DataType {
    SimpleType(SimpleType),
    AggregateType(AggregateType),
}

/// A value made of several values.
pub enum AggregateType {
    List(List),
    Hash(self::hash::Hash),
    MemberSet(MemberSet),
    SortedSet(SortedSet),
}

/// The value stored under a key, as a mathematical value.
pub enum DataView {
    Simple(SimpleValue),
    List(Seq<SimpleValue>),
    Hash(Map<SimpleValue, SimpleValue>),
    MemberSet(vstd::set::Set<SimpleValue>),
    SortedSet(SortedSetView),
}

impl View for DataType {
    type V = DataView;

    open spec fn view(&self) -> DataView {
        match self {
            DataType::SimpleType(s) => DataView::Simple(s@),
            DataType::AggregateType(AggregateType::List(l)) => DataView::List(l@),
            DataType::AggregateType(AggregateType::Hash(h)) => DataView::Hash(h@),
            DataType::AggregateType(AggregateType::MemberSet(s)) => DataView::MemberSet(s@),
            DataType::AggregateType(AggregateType::SortedSet(z)) => DataView::SortedSet(z@),
        }
    }
}

impl DataType {
    /// The single value stored, or the error "类型不对" for anything else.
    pub fn try_into_simple(self) -> (r: Result<SimpleType, String>)
        ensures
            match self@ {
                DataView::Simple(v) => r matches Ok(s) && s@ == v,
                _ => r matches Err(e) && e@ == "类型不对"@,
            },
    {
        match self {
            DataType::SimpleType(s) => Ok(s),
            _ => Err("类型不对".to_string()),
        }
    }

    /// The stored value if it is a single value.
    pub fn as_simple(&self) -> (r: Option<&SimpleType>)
        ensures
            r matches Some(s) ==> self@ == DataView::Simple(s@),
            r is None <==> !(self@ is Simple),
    {
        match self {
            DataType::SimpleType(s) => Some(s),
            _ => None,
        }
    }
}

/// The bytes a single value stands for: bytes as they are, text as its
/// UTF-8 encoding, an integer in decimal and nothing as no bytes.
pub open spec fn value_bytes(v: SimpleValue) -> Seq<u8> {
    match v {
        SimpleValue::Blob(b) => b,
        SimpleValue::SimpleString(s) => vstd::utf8::encode_utf8(s),
        SimpleValue::Integer(n) => signed_decimal(n as int),
        SimpleValue::Null => Seq::empty(),
    }
}

impl SimpleType {
    /// The bytes this value stands for; see `value_bytes`.
    pub fn into_bytes(self) -> (r: Vec<u8>)
        ensures
            r@ == value_bytes(self@),
    {
        match self {
            SimpleType::Blob(b) => b,
            SimpleType::SimpleString(s) => copy_bytes(s.as_str().as_bytes()),
            SimpleType::Integer(n) => signed_decimal_bytes(n),
            SimpleType::Null => Vec::new(),
        }
    }
}

impl From<SimpleType> for Frame {
    /// Bytes as a bulk frame, text as a simple string, an integer as an
    /// integer and nothing as the null frame.
    fn from(st: SimpleType) -> (r: Frame) {
        match st {
            SimpleType::Blob(bytes) => Frame::Bulk(bytes),
            SimpleType::SimpleString(s) => Frame::Simple(s),
            SimpleType::Integer(n) => Frame::Integer(n),
            SimpleType::Null => Frame::Null,
        }
    }
}

impl FromSpecImpl<SimpleType> for Frame {
    open spec fn obeys_from_spec() -> bool {
        true
    }

    open spec fn from_spec(st: SimpleType) -> Frame {
        match st {
            SimpleType::Blob(bytes) => Frame::Bulk(bytes),
            SimpleType::SimpleString(s) => Frame::Simple(s),
            SimpleType::Integer(n) => Frame::Integer(n),
            SimpleType::Null => Frame::Null,
        }
    }
}

} // verus!
