//! Specifications of standard-library slice methods that vstd leaves
//! unspecified. They are assumed, not proved.

use vstd::prelude::*;

verus! {

/// `<[E]>::swap`, the slice method behind `Vec::swap`: exchanges the elements
/// at positions `a` and `b` and leaves every other position alone. The standard
/// library panics when either index is out of bounds, so both are required to
/// be in bounds. `a == b` is allowed and changes nothing.
pub assume_specification<E>[ <[E]>::swap ](slice: &mut [E], a: usize, b: usize)
    requires
        a < old(slice)@.len(),
        b < old(slice)@.len(),
    ensures
        final(slice)@ == old(slice)@.update(a as int, old(slice)@[b as int]).update(
            b as int,
            old(slice)@[a as int],
        ),
;

} // verus!
