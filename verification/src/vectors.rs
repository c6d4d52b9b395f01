//! Small helpers on vectors that the solvers share.

use vstd::prelude::*;

verus! {

/// Exchanges two entries of a vector with `<[T]>::swap` of the standard
/// library: afterwards each of the two positions holds what the other held,
/// and every other position is as it was. The two indices must lie inside the
/// vector, where the standard function does not panic.
#[verifier::external_body]
pub(crate) fn swap_entries<T>(v: &mut Vec<T>, a: usize, b: usize)
    requires
        a < old(v).len(),
        b < old(v).len(),
    ensures
        final(v)@ == old(v)@.update(a as int, old(v)@[b as int]).update(
            b as int,
            old(v)@[a as int],
        ),
{
    v.swap(a, b);
}

} // verus!
