//! How economically a search found its path.
use vstd::prelude::*;

verus! {

/// The accuracy of a search as a fraction: the cells on the path found over
/// the cells expanded. A search that expanded nothing scores `1 / 1` when it
/// found a path (its end is its start) and `0 / 1` when it did not; the
/// denominator is never zero.
pub open spec fn accuracy_of(path_len: nat, traversed: nat) -> (nat, nat) {
    if traversed > 0 {
        (path_len, traversed)
    } else if path_len > 0 {
        (1, 1)
    } else {
        (0, 1)
    }
}

/// The accuracy of a search, as `(numerator, denominator)`; see `accuracy_of`.
pub fn accuracy_fraction(path_len: usize, traversed: usize) -> (r: (usize, usize))
    ensures
        (r.0 as nat, r.1 as nat) == accuracy_of(path_len as nat, traversed as nat),
        r.1 > 0,
{
    if traversed > 0 {
        (path_len, traversed)
    } else if path_len > 0 {
        (1, 1)
    } else {
        (0, 1)
    }
}

} // verus!
