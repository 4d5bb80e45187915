//! Modular arithmetic over `u64`: a portable implementation for any modulus
//! and a Barrett-style reducer tuned for the fixed modulus `M`.

use vstd::prelude::*;
use vstd::arithmetic::div_mod::*;
use vstd::arithmetic::mul::*;
use crate::magic_numbers::M;

verus! {

/// Greatest common divisor, by Euclid's algorithm.
pub open spec fn gcd(a: nat, b: nat) -> nat
    decreases b,
{
    if b == 0 {
        a
    } else {
        gcd(b, a % b)
    }
}

/// Relies on modinverse::modinverse over i128: when gcd(a mod m, m) == 1 it
/// returns the inverse of a modulo m in the canonical range [0, m), and None
/// when no inverse exists.
#[verifier::external_body]
fn mod_inverse_i128(a: i128, m: i128) -> (r: Option<i128>)
    requires
        2 <= m,
        0 <= a,
    ensures
        r is Some <==> gcd(a as nat, m as nat) == 1,
        match r {
            Some(w) => 0 <= w < m && (a * w) % (m as int) == 1,
            None => true,
        },
{
    modinverse::modinverse(a, m)
}

/// Operations modulo a fixed 64-bit modulus.
pub trait Modulus: Copy + Clone + Sized {
    /// The modulus itself, as a mathematical integer.
    spec fn m_spec(&self) -> int;

    /// Whether this value is a usable modulus description.
    spec fn wf(&self) -> bool;

    proof fn wf_facts(&self)
        requires
            self.wf(),
        ensures
            self.m_spec() >= 2,
    ;

    fn addmod(&self, a: u64, b: u64) -> (r: u64)
        requires
            self.wf(),
            a < self.m_spec(),
            b < self.m_spec(),
        ensures
            r == (a + b) % self.m_spec(),
    ;

    fn mulmod(&self, a: u64, b: u64) -> (r: u64)
        requires
            self.wf(),
            a < self.m_spec(),
            b < self.m_spec(),
        ensures
            r == (a * b) % self.m_spec(),
    ;

    fn inverse(&self, v: u64) -> (r: Option<u64>)
        requires
            self.wf(),
        ensures
            r is Some <==> gcd(v as nat, self.m_spec() as nat) == 1,
            match r {
                Some(w) => w < self.m_spec() && (v * w) % self.m_spec() == 1,
                None => true,
            },
    ;
}

/// Inverts an entire array under the given modulus.
pub fn inverse<Md: Modulus>(xs: &[u64], modulus: Md) -> (ys: Vec<u64>)
    requires
        modulus.wf(),
        forall|i: int|
            0 <= i < xs@.len() ==> gcd(#[trigger] xs@[i] as nat, modulus.m_spec() as nat) == 1,
    ensures
        ys@.len() == xs@.len(),
        forall|i: int|
            0 <= i < xs@.len() ==> #[trigger] ys@[i] < modulus.m_spec() && (xs@[i] * ys@[i])
                % modulus.m_spec() == 1,
{
    let mut ys: Vec<u64> = Vec::with_capacity(xs.len());
    let mut k: usize = 0;
    while k < xs.len()
        invariant
            modulus.wf(),
            forall|i: int|
                0 <= i < xs@.len() ==> gcd(
                    #[trigger] xs@[i] as nat,
                    modulus.m_spec() as nat,
                ) == 1,
            k <= xs@.len(),
            ys@.len() == k,
            forall|i: int|
                0 <= i < k ==> #[trigger] ys@[i] < modulus.m_spec() && (xs@[i] * ys@[i])
                    % modulus.m_spec() == 1,
        decreases xs@.len() - k,
    {
        let x = xs[k];
        let inv = match modulus.inverse(x) {
            Some(w) => w,
            None => {
                proof {
                    assert(false);
                }
                0
            },
        };
        ys.push(inv);
        k = k + 1;
    }
    ys
}

/// Portable modulus description for an arbitrary 64-bit modulus.
#[derive(Copy, Clone, Debug, PartialEq, Eq, Structural)]
pub struct BasicDivisor {
    modulus: u64,
}

impl BasicDivisor {
    pub fn new(modulus: u64) -> (r: Self)
        ensures
            r.m_spec() == modulus,
            modulus >= 2 ==> r.wf(),
    {
        BasicDivisor { modulus }
    }
}

impl Modulus for BasicDivisor {
    closed spec fn m_spec(&self) -> int {
        self.modulus as int
    }

    closed spec fn wf(&self) -> bool {
        self.modulus >= 2
    }

    proof fn wf_facts(&self) {
    }

    fn addmod(&self, a: u64, b: u64) -> (r: u64) {
        let s: u128 = (a as u128) + (b as u128);
        let r: u128 = s % (self.modulus as u128);
        r as u64
    }

    fn mulmod(&self, a: u64, b: u64) -> (r: u64) {
        proof {
            lemma_mul_upper_bound(a as int, 0xffff_ffff_ffff_ffff, b as int, 0xffff_ffff_ffff_ffff);
        }
        let p: u128 = (a as u128) * (b as u128);
        let r: u128 = p % (self.modulus as u128);
        r as u64
    }

    fn inverse(&self, v: u64) -> (r: Option<u64>) {
        match mod_inverse_i128(v as i128, self.modulus as i128) {
            Some(w) => Some(w as u64),
            None => None,
        }
    }
}

/// Modulus description specialised to the fixed modulus `M`.
#[derive(Copy, Clone, Debug, PartialEq, Eq, Structural)]
pub struct OptiM {}

/// Scaled reciprocal of `M`: the least k with k * M >= 2^188.
const M_RECIP: u128 = 0x18c8acd8d948f58b6a0fb2d6e1aaecf8;

const LO_64: u128 = 0xffff_ffff_ffff_ffff;

/// Reduces a full 128-bit value modulo `M` without dividing, by multiplying
/// with the precomputed scaled reciprocal of `M` and correcting the estimate
/// by at most one subtraction.
pub fn reduce_m(v: u128) -> (r: u64)
    ensures
        r == v as int % (M as int),
{
    let v_lo: u128 = v & LO_64;
    let v_hi: u128 = v >> 64;
    let m_lo: u128 = M_RECIP & LO_64;
    let m_hi: u128 = M_RECIP >> 64;

    proof {
        assert(M_RECIP & LO_64 == 0x6a0fb2d6e1aaecf8u128) by (bit_vector);
        assert(M_RECIP >> 64u128 == 0x18c8acd8d948f58bu128) by (bit_vector);
        assert(v & LO_64 == v % 0x1_0000_0000_0000_0000u128) by (bit_vector);
        assert(v >> 64u128 == v / 0x1_0000_0000_0000_0000u128) by (bit_vector);
        assert(v >> 64u128 <= 0xffff_ffff_ffff_ffffu128) by (bit_vector);
        assert(v & LO_64 <= 0xffff_ffff_ffff_ffffu128) by (bit_vector);
        assert(v_hi * m_lo <= 0xffff_ffff_ffff_ffff * 0x6a0fb2d6e1aaecf8) by (nonlinear_arith)
            requires
                v_hi <= 0xffff_ffff_ffff_ffffu128,
                m_lo == 0x6a0fb2d6e1aaecf8u128,
        ;
        assert(v_lo * m_hi <= 0xffff_ffff_ffff_ffff * 0x18c8acd8d948f58b) by (nonlinear_arith)
            requires
                v_lo <= 0xffff_ffff_ffff_ffffu128,
                m_hi == 0x18c8acd8d948f58bu128,
        ;
    }
    let mid: u128 = v_hi * m_lo + v_lo * m_hi;
    proof {
        assert(v_hi * m_hi <= 0xffff_ffff_ffff_ffff * 0x18c8acd8d948f58b) by (nonlinear_arith)
            requires
                v_hi <= 0xffff_ffff_ffff_ffffu128,
                m_hi == 0x18c8acd8d948f58bu128,
        ;
        assert(mid >> 64u128 == mid / 0x1_0000_0000_0000_0000u128) by (bit_vector);
        assert(mid / 0x1_0000_0000_0000_0000u128 <= 0xffff_ffff_ffff_ffff_ffff_ffff_ffff_ffffu128
            / 0x1_0000_0000_0000_0000u128) by {
            lemma_div_is_ordered(
                mid as int,
                0xffff_ffff_ffff_ffff_ffff_ffff_ffff_ffff,
                0x1_0000_0000_0000_0000,
            );
        }
    }
    let hi: u128 = v_hi * m_hi + (mid >> 64);
    let quot: u128 = hi >> 60;

    let ghost pow64: int = 0x1_0000_0000_0000_0000;
    let ghost pow128: int = 0x1_0000_0000_0000_0000_0000_0000_0000_0000int;
    let ghost pow188: int = 0x1000_0000_0000_0000_0000_0000_0000_0000_0000_0000_0000_0000int;
    let ghost pow60: int = 0x1000_0000_0000_0000;
    let ghost sigma: int = 0x229a93ea1bf4090;
    let ghost qmax: int = 0x18c8acd8d948f58b6;
    let ghost vi: int = v as int;
    let ghost mm: int = M as int;
    let ghost mr: int = M_RECIP as int;
    let ghost p: int = vi * mr;
    let ghost d: int = (v_lo as int) * (m_lo as int);
    let ghost q: int = vi / mm;
    let ghost rr: int = vi % mm;

    proof {
        // Split v and M_RECIP into their 64-bit halves.
        lemma_fundamental_div_mod(vi, pow64);
        assert(vi == v_hi * pow64 + v_lo);
        assert(mr == m_hi * pow64 + m_lo);

        // The product v * M_RECIP in terms of the partial products.
        assert(p == (v_hi * m_hi) * pow128 + (v_hi * m_lo + v_lo * m_hi) * pow64 + d)
            by (nonlinear_arith)
            requires
                p == vi * mr,
                d == (v_lo as int) * (m_lo as int),
                vi == v_hi * pow64 + v_lo,
                mr == m_hi * pow64 + m_lo,
                pow64 == 0x1_0000_0000_0000_0000,
                pow128 == 0x1_0000_0000_0000_0000_0000_0000_0000_0000,
        ;

        // hi == (p - d) / 2^128.
        let mid_i: int = v_hi * m_lo + v_lo * m_hi;
        assert(mid == mid_i);
        assert(p - d == ((v_hi * m_hi) * pow64 + mid_i) * pow64) by (nonlinear_arith)
            requires
                p - d == (v_hi * m_hi) * pow128 + mid_i * pow64,
                pow64 == 0x1_0000_0000_0000_0000,
                pow128 == 0x1_0000_0000_0000_0000_0000_0000_0000_0000,
        ;
        lemma_div_by_multiple((v_hi * m_hi) * pow64 + mid_i, pow64);
        assert((p - d) / pow64 == (v_hi * m_hi) * pow64 + mid_i);
        lemma_hoist_over_denominator(mid_i, v_hi * m_hi, pow64 as nat);
        assert((mid_i + (v_hi * m_hi) * pow64) / pow64 == mid_i / pow64 + v_hi * m_hi);
        assert(hi == (p - d) / pow64 / pow64);
        lemma_mul_nonnegative(v_lo as int, m_lo as int);
        lemma_mul_nonnegative(vi, mr);
        assert(p - d >= 0) by (nonlinear_arith)
            requires
                p == vi * mr,
                d == (v_lo as int) * (m_lo as int),
                vi == v_hi * pow64 + v_lo,
                mr == m_hi * pow64 + m_lo,
                0 <= v_lo,
                0 <= v_hi,
                0 <= m_lo,
                0 <= m_hi,
                pow64 == 0x1_0000_0000_0000_0000,
        ;
        lemma_div_denominator(p - d, pow64, pow64);
        assert(pow64 * pow64 == pow128);
        assert(hi == (p - d) / pow128);

        // quot == (p - d) / 2^188.
        assert(hi >> 60u128 == hi / 0x1000_0000_0000_0000u128) by (bit_vector);
        lemma_div_denominator(p - d, pow128, pow60);
        assert(pow128 * pow60 == pow188);
        assert(quot == (p - d) / pow188);

        // p == q * 2^188 + (q * sigma + rr * mr).
        lemma_fundamental_div_mod(vi, mm);
        assert(mm * mr == pow188 + sigma);
        assert(p == q * pow188 + (q * sigma + rr * mr)) by (nonlinear_arith)
            requires
                p == vi * mr,
                vi == mm * q + rr,
                mm * mr == pow188 + sigma,
        ;

        // The error term is small: 0 <= q * sigma + rr * mr < 2^188.
        lemma_div_is_ordered(vi, 0xffff_ffff_ffff_ffff_ffff_ffff_ffff_ffff, mm);
        assert(0xffff_ffff_ffff_ffff_ffff_ffff_ffff_ffffint / (M as int) == qmax);
        assert(q <= qmax);
        lemma_div_pos_is_pos(vi, mm);
        lemma_mod_bound(vi, mm);
        lemma_mul_inequality(q, qmax, sigma);
        lemma_mul_inequality(rr, mm - 1, mr);
        lemma_mul_nonnegative(q, sigma);
        lemma_mul_nonnegative(rr, mr);
        assert(qmax * sigma + (mm - 1) * mr < pow188);

        // Sandwich the quotient estimate: q - 1 <= quot <= q.
        assert((q - 1) * pow188 <= p - d) by (nonlinear_arith)
            requires
                p == q * pow188 + (q * sigma + rr * mr),
                q * sigma + rr * mr >= 0,
                0 <= d < pow188,
                pow188 > 0,
        ;
        if q >= 1 {
            lemma_div_is_ordered((q - 1) * pow188, p - d, pow188);
            lemma_div_by_multiple(q - 1, pow188);
        }
        assert(q - 1 <= quot);
        assert(p - d <= q * pow188 + (pow188 - 1)) by (nonlinear_arith)
            requires
                p == q * pow188 + (q * sigma + rr * mr),
                q * sigma + rr * mr < pow188,
                d >= 0,
        ;
        lemma_div_is_ordered(p - d, q * pow188 + (pow188 - 1), pow188);
        lemma_hoist_over_denominator(pow188 - 1, q, pow188 as nat);
        lemma_basic_div(pow188 - 1, pow188);
        assert(quot <= q);

        // The product of the estimate with M fits and stays below v.
        lemma_mul_inequality(quot as int, qmax, mm);
        assert(qmax * mm <= 0xffff_ffff_ffff_ffff_ffff_ffff_ffff_ffff);
        lemma_mul_inequality(quot as int, q, mm);
        assert(q * mm <= vi);
    }
    let mulv: u128 = quot * (M as u128);
    let diff: u128 = v - mulv;
    proof {
        lemma_mul_is_distributive_sub_other_way(mm, q, 1);
        assert(quot == q || quot == q - 1);
        assert(diff == rr || diff == rr + mm);
        lemma_mod_bound(vi, mm);
    }
    if diff >= (M as u128) {
        (diff - (M as u128)) as u64
    } else {
        diff as u64
    }
}

impl Modulus for OptiM {
    open spec fn m_spec(&self) -> int {
        M as int
    }

    open spec fn wf(&self) -> bool {
        true
    }

    proof fn wf_facts(&self) {
    }

    fn addmod(&self, a: u64, b: u64) -> (r: u64) {
        let s: u128 = (a as u128) + (b as u128);
        if s >= (M as u128) {
            proof {
                lemma_fundamental_div_mod_converse_mod(s as int, M as int, 1, s - M);
            }
            (s - (M as u128)) as u64
        } else {
            proof {
                lemma_small_mod(s as nat, M as nat);
            }
            s as u64
        }
    }

    fn mulmod(&self, a: u64, b: u64) -> (r: u64) {
        proof {
            lemma_mul_upper_bound(a as int, 0xffff_ffff_ffff_ffff, b as int, 0xffff_ffff_ffff_ffff);
        }
        reduce_m((a as u128) * (b as u128))
    }

    fn inverse(&self, v: u64) -> (r: Option<u64>) {
        match mod_inverse_i128(v as i128, M as i128) {
            Some(w) => Some(w as u64),
            None => None,
        }
    }
}

/// The fixed-modulus reducer agrees with the portable divisor on every product.
pub fn check_bd(a: u64, b: u64) -> (r: u64)
    requires
        a < M,
        b < M,
    ensures
        r == (a * b) % (M as int),
{
    BasicDivisor::new(M).mulmod(a, b)
}

} // verus!
