//! Options of the write commands.

use vstd::prelude::*;

verus! {

/// `NX`: only when the key is absent; `XX`: only when it is present;
/// `NoCondition`: in either case.
#[derive(Clone, Copy, PartialEq, Eq, Structural)]
pub enum NxXx {
    Nx,
    Xx,
    NoCondition,
}

impl NxXx {
    pub fn is_none(self) -> (r: bool)
        ensures
            r == (self == NxXx::NoCondition),
    {
        matches!(self, NxXx::NoCondition)
    }

    pub fn is_nx(self) -> (r: bool)
        ensures
            r == (self == NxXx::Nx),
    {
        matches!(self, NxXx::Nx)
    }

    pub fn is_xx(self) -> (r: bool)
        ensures
            r == (self == NxXx::Xx),
    {
        matches!(self, NxXx::Xx)
    }

    /// The argument that writes this condition in a command: `NX`, `XX`, or
    /// none.
    pub fn to_arg(self) -> (r: Option<Vec<u8>>)
        ensures
            match self {
                NxXx::Nx => r matches Some(b) && b@ == seq![78u8, 88u8],
                NxXx::Xx => r matches Some(b) && b@ == seq![88u8, 88u8],
                NxXx::NoCondition => r is None,
            },
    {
        match self {
            NxXx::Nx => Some(vec![78u8, 88u8]),
            NxXx::Xx => Some(vec![88u8, 88u8]),
            NxXx::NoCondition => None,
        }
    }
}

/// `GT`: only when the new score is greater; `LT`: only when it is less.
#[derive(Clone, Copy, PartialEq, Eq, Structural)]
pub enum GtLt {
    Gt,
    Lt,
    NoCondition,
}

/// When a value written by a command expires: at a given instant, when the
/// value it replaces did, or never.
#[derive(Clone, Copy, PartialEq, Eq, Structural)]
pub enum ExpiresAt {
    Specific(i64),
    Last,
    Never,
}

} // verus!
