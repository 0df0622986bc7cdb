//! Saturating arithmetic.

use vstd::prelude::*;

verus! {

/// `a * b`, held at the highest `u64`.
pub open spec fn sat_mul_spec(a: int, b: int) -> int {
    if a * b > u64::MAX {
        u64::MAX as int
    } else {
        a * b
    }
}

/// `a - b`, held at zero.
pub open spec fn sat_sub_spec(a: int, b: int) -> int {
    if a < b {
        0
    } else {
        a - b
    }
}

/// `a * b`, held at the highest `u64`.
pub fn sat_mul(a: u64, b: u64) -> (r: u64)
    ensures
        r == sat_mul_spec(a as int, b as int),
{
    assert(a as int * b as int <= u64::MAX as int * u64::MAX as int) by (nonlinear_arith)
        requires
            0 <= a <= u64::MAX,
            0 <= b <= u64::MAX,
    ;
    assert(a as int * b as int >= 0) by (nonlinear_arith)
        requires
            0 <= a,
            0 <= b,
    ;
    let wide: u128 = a as u128 * b as u128;
    if wide > u64::MAX as u128 {
        u64::MAX
    } else {
        wide as u64
    }
}

/// Products and differences are exact wherever they fit, and stop at the bound where
/// they do not.
pub proof fn law_saturates_at_the_bounds(a: u64, b: u64)
    ensures
        a * b <= 0xffff_ffff_ffff_ffff ==> sat_mul_spec(a as int, b as int) == a * b,
        a * b > 0xffff_ffff_ffff_ffff ==> sat_mul_spec(a as int, b as int) == 0xffff_ffff_ffff_ffff,
        a >= b ==> sat_sub_spec(a as int, b as int) == a - b,
        a <= b ==> sat_sub_spec(a as int, b as int) == 0,
{
}

} // verus!
