use vstd::prelude::*;

verus! {

/// Marks a path that is expected to be taken rarely. It does nothing.
#[inline]
pub fn cold() {
}

/// Returns `b`; tells the optimiser that `b` is expected to be `true`.
#[inline]
pub fn likely(b: bool) -> (r: bool)
    ensures
        r == b,
{
    if !b {
        cold()
    }
    b
}

/// Returns `b`; tells the optimiser that `b` is expected to be `false`.
#[inline]
pub fn unlikely(b: bool) -> (r: bool)
    ensures
        r == b,
{
    if b {
        cold()
    }
    b
}

} // verus!
