//! Small arithmetic helpers.

use vstd::prelude::*;

verus! {

/// `a / b` rounded towards positive infinity.
pub open spec fn div_ceil_spec(a: int, b: int) -> int {
    if a % b != 0 {
        a / b + 1
    } else {
        a / b
    }
}

/// How many chunks of size `b` are needed to cover `a` items.
pub fn div_ceil(a: usize, b: usize) -> (r: usize)
    requires
        b > 0,
    ensures
        r == div_ceil_spec(a as int, b as int),
{
    if a % b != 0 {
        proof {
            assert(a as int / b as int + 1 <= a) by (nonlinear_arith)
                requires
                    b >= 1 && a as int % b as int != 0,
            ;
        }
        a / b + 1
    } else {
        a / b
    }
}

/// The quotient never exceeds the dividend, and covering `a` items takes at
/// least `a / b` chunks.
pub proof fn lemma_div_ceil_bounds(a: int, b: int)
    requires
        0 <= a,
        1 <= b,
    ensures
        a <= b * div_ceil_spec(a, b),
        b * div_ceil_spec(a, b) < a + b,
        0 <= div_ceil_spec(a, b),
{
    assert(a <= b * div_ceil_spec(a, b) && b * div_ceil_spec(a, b) < a + b && 0 <= div_ceil_spec(
        a,
        b,
    )) by (nonlinear_arith)
        requires
            0 <= a && 1 <= b,
    ;
}

} // verus!
