//! One end of a range: included, excluded or open.

use vstd::prelude::*;

verus! {

/// One end of a range.
pub enum Bound<T> {
    Included(T),
    Excluded(T),
    Unbounded,
}

/// Applies a function to the value at an end of a range.
pub trait BoundExt<T>: Sized {
    /// The same end, with `f` applied to its value.
    fn map<O, F: Fn(T) -> O>(self, f: F) -> (r: Bound<O>)
        requires
            forall|t: T| #[trigger] f.requires((t,)),
    ;
}

impl<T> BoundExt<T> for Bound<T> {
    fn map<O, F: Fn(T) -> O>(self, f: F) -> (r: Bound<O>)
        ensures
            match (self, r) {
                (Bound::Included(t), Bound::Included(o)) => f.ensures((t,), o),
                (Bound::Excluded(t), Bound::Excluded(o)) => f.ensures((t,), o),
                (Bound::Unbounded, Bound::Unbounded) => true,
                _ => false,
            },
    {
        match self {
            Bound::Included(t) => Bound::Included(f(t)),
            Bound::Excluded(t) => Bound::Excluded(f(t)),
            Bound::Unbounded => Bound::Unbounded,
        }
    }
}

/// Whether `x` lies on the inner side of the lower end `b`.
pub open spec fn above_lower(b: Bound<i64>, x: i64) -> bool {
    match b {
        Bound::Included(t) => t <= x,
        Bound::Excluded(t) => t < x,
        Bound::Unbounded => true,
    }
}

/// Whether `x` lies on the inner side of the upper end `b`.
pub open spec fn below_upper(b: Bound<i64>, x: i64) -> bool {
    match b {
        Bound::Included(t) => x <= t,
        Bound::Excluded(t) => x < t,
        Bound::Unbounded => true,
    }
}

/// Whether `x` lies in the range `(lower, upper)`.
pub open spec fn in_range(range: (Bound<i64>, Bound<i64>), x: i64) -> bool {
    above_lower(range.0, x) && below_upper(range.1, x)
}

/// Whether `x` lies in the range `(lower, upper)`.
pub fn contains(range: &(Bound<i64>, Bound<i64>), x: i64) -> (r: bool)
    ensures
        r == in_range(*range, x),
{
    let lo = match &range.0 {
        Bound::Included(t) => *t <= x,
        Bound::Excluded(t) => *t < x,
        Bound::Unbounded => true,
    };
    let hi = match &range.1 {
        Bound::Included(t) => x <= *t,
        Bound::Excluded(t) => x < *t,
        Bound::Unbounded => true,
    };
    lo && hi
}

} // verus!
