//! Branch-prediction helpers: behavioural no-ops that only steer code
//! layout, plus the capacity hint taken from an iterator's size hint.

use vstd::prelude::*;

verus! {

/// Marks the unlikely side of a branch; does nothing.
#[inline]
pub fn cold() {
}

/// Hints that `b` is usually true; returns `b` unchanged.
#[inline]
pub fn likely(b: bool) -> (r: bool)
    ensures
        r == b,
{
    if !b {
        cold()
    }
    b
}

/// Hints that `b` is usually false; returns `b` unchanged.
#[inline]
pub fn unlikely(b: bool) -> (r: bool)
    ensures
        r == b,
{
    if b {
        cold()
    }
    b
}

/// The capacity to reserve given an iterator's size hint `(lower, upper)`:
/// the upper bound when the iterator states one, else the lower bound.
pub fn hint_from_iter(lower: usize, upper: Option<usize>) -> (r: usize)
    ensures
        r == (match upper {
            Option::None => lower,
            Option::Some(size) => size,
        }),
{
    match upper {
        Option::None => lower,
        Option::Some(size) => size,
    }
}

} // verus!
