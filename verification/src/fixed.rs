//! Fixed-point scale used for brightness and intensity values.
//!
//! A value of `UNIT` stands for one; all brightness, intensity and blend
//! factors in the crate are integers in `0 ..= UNIT`.

use vstd::prelude::*;

verus! {

/// One, in millionths.
pub const UNIT: u32 = 1000000;

/// Largest argument accepted by `isqrt`: `UNIT * UNIT`.
pub const ISQRT_MAX: u64 = 1000000000000;

/// The integer square root: the unique nonnegative root whose square does
/// not exceed the argument.
pub open spec fn sqrt_floor(x: int) -> int {
    choose|r: int| 0 <= r && #[trigger] (r * r) <= x < (r + 1) * (r + 1)
}

/// Two integer square roots of the same value coincide.
pub proof fn lemma_sqrt_unique(x: int, r1: int, r2: int)
    requires
        0 <= r1,
        r1 * r1 <= x < (r1 + 1) * (r1 + 1),
        0 <= r2,
        r2 * r2 <= x < (r2 + 1) * (r2 + 1),
    ensures
        r1 == r2,
{
    assert(r1 == r2) by (nonlinear_arith)
        requires
            0 <= r1,
            r1 * r1 <= x < (r1 + 1) * (r1 + 1),
            0 <= r2,
            r2 * r2 <= x < (r2 + 1) * (r2 + 1),
    ;
}

/// Integer square root by binary search.
pub fn isqrt(x: u64) -> (r: u32)
    requires
        x <= ISQRT_MAX,
    ensures
        r * r <= x,
        x < (r + 1) * (r + 1),
        r <= 1000000,
        r == sqrt_floor(x as int),
{
    let mut lo: u64 = 0;
    let mut hi: u64 = 1000001;
    while lo + 1 < hi
        invariant
            lo < hi <= 1000001,
            lo * lo <= x,
            x < hi * hi,
        decreases hi - lo,
    {
        let mid: u64 = lo + (hi - lo) / 2;
        proof {
            assert(mid * mid <= 1000001u64 * 1000001u64) by (nonlinear_arith)
                requires
                    mid <= 1000001u64,
            ;
        }
        if mid * mid <= x {
            lo = mid;
        } else {
            hi = mid;
        }
    }
    proof {
        assert(exists|r: int| 0 <= r && #[trigger] (r * r) <= x < (r + 1) * (r + 1)) by {
            assert(0 <= lo as int && #[trigger] ((lo as int) * (lo as int)) <= x < ((lo as int)
                + 1) * ((lo as int) + 1));
        };
        lemma_sqrt_unique(x as int, lo as int, sqrt_floor(x as int));
    }
    lo as u32
}

/// Scale an intensity by a blend factor, both in `0 ..= UNIT`.
pub fn scale_unit(value: u32, factor: u32) -> (r: u32)
    requires
        value <= UNIT,
        factor <= UNIT,
    ensures
        r == (value * factor) / (UNIT as int),
        r <= value,
        r <= UNIT,
{
    proof {
        assert((value as int) * (factor as int) <= 1000000int * 1000000int && (value as int) * (
        factor as int) / 1000000 <= value) by (nonlinear_arith)
            requires
                value <= 1000000,
                factor <= 1000000,
        ;
    }
    let wide: u64 = (value as u64) * (factor as u64);
    (wide / (UNIT as u64)) as u32
}

} // verus!
