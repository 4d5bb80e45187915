//! Portable 64-bit modular multiplication through 128-bit arithmetic.

use vstd::prelude::*;

verus! {

/// Multiplies `a` and `b` and reduces the 128-bit product modulo `m`.
pub fn mul_mod(a: u64, b: u64, m: u64) -> (r: u64)
    requires
        m >= 1,
    ensures
        r == (a * b) % (m as int),
{
    proof {
        assert(a * b <= 0xffff_ffff_ffff_ffffu64 * 0xffff_ffff_ffff_ffffu64) by (nonlinear_arith)
            requires
                a <= 0xffff_ffff_ffff_ffffu64,
                b <= 0xffff_ffff_ffff_ffffu64,
        ;
    }
    let v: u128 = (a as u128) * (b as u128);
    let r: u128 = v % (m as u128);
    r as u64
}

} // verus!
