//! Size arithmetic shared with the code that allocates real memory.

use vstd::prelude::*;

verus! {

/// Rounds `size` up to the next multiple of `align` (for instance, of the
/// platform page size), so that one allocation's permissions can always be
/// changed as a single mapped unit.
pub fn align(size: usize, alignment: usize) -> (r: usize)
    requires
        alignment > 0,
        size + alignment <= usize::MAX,
    ensures
        r as int % alignment as int == 0,
        size <= r < size + alignment,
{
    if size % alignment == 0 {
        size
    } else {
        proof {
            let s = size as int;
            let a = alignment as int;
            vstd::arithmetic::div_mod::lemma_fundamental_div_mod(s, a);
            vstd::arithmetic::div_mod::lemma_mod_multiples_basic(s / a + 1, a);
            assert((s / a + 1) * a == a * (s / a) + a) by (nonlinear_arith);
            assert(s - s % a + a == (s / a + 1) * a);
            assert((s - s % a + a) % a == 0);
        }
        size - (size % alignment) + alignment
    }
}

} // verus!
