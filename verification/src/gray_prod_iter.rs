//! Gray-code enumeration of modular subset products.
//!
//! Walking the masks in Gray-code order changes a single bit per step, so the
//! running subset product is updated with one modular multiplication: by the
//! element itself when its bit turns on, by the element's modular inverse when
//! its bit turns off.

use vstd::prelude::*;
use vstd::arithmetic::div_mod::*;
use vstd::arithmetic::mul::*;
use vstd::std_specs::bits::{axiom_u64_leading_zeros, u64_leading_zeros};
use crate::modulus::{gcd, Modulus};

verus! {

/// The i'th Gray codeword.
pub open spec fn gray(i: u64) -> u64 {
    i ^ (i >> 1)
}

/// Plain integer product of the elements selected by the low `n` bits of `mask`.
pub open spec fn subset_product_below(mask: u64, els: Seq<u64>, n: int) -> int
    decreases n,
{
    if n <= 0 {
        1
    } else {
        subset_product_below(mask, els, n - 1) * (if mask & (1u64 << ((n - 1) as u64)) != 0 {
            els[n - 1] as int
        } else {
            1
        })
    }
}

/// The subset product selected by `mask`, reduced modulo `m`.
pub open spec fn subset_product(els: Seq<u64>, mask: u64, m: int) -> int {
    subset_product_below(mask, els, els.len() as int) % m
}

/// A subset product is never negative.
proof fn lemma_subset_product_below_nonneg(mask: u64, els: Seq<u64>, n: int)
    ensures
        subset_product_below(mask, els, n) >= 0,
    decreases n,
{
    if n > 0 {
        lemma_subset_product_below_nonneg(mask, els, n - 1);
        lemma_mul_nonnegative(
            subset_product_below(mask, els, n - 1),
            if mask & (1u64 << ((n - 1) as u64)) != 0 {
                els[n - 1] as int
            } else {
                1
            },
        );
    }
}

/// Masks that agree on every bit below `n` select the same product.
proof fn lemma_subset_product_below_agree(m1: u64, m2: u64, els: Seq<u64>, n: int)
    requires
        forall|j: u64| j < n ==> (m1 & (1u64 << j)) == (m2 & (1u64 << j)),
    ensures
        subset_product_below(m1, els, n) == subset_product_below(m2, els, n),
    decreases n,
{
    if n > 0 {
        lemma_subset_product_below_agree(m1, m2, els, n - 1);
        assert((m1 & (1u64 << ((n - 1) as u64))) == (m2 & (1u64 << ((n - 1) as u64))));
    }
}

/// Setting one clear bit of a mask multiplies its subset product by the
/// element at that position.
proof fn lemma_subset_product_below_flip(lo: u64, b: u64, els: Seq<u64>, n: int)
    requires
        b < n <= 64,
        lo & (1u64 << b) == 0,
    ensures
        subset_product_below(lo | (1u64 << b), els, n) == subset_product_below(lo, els, n) * (
        els[b as int] as int),
    decreases n,
{
    let hi = lo | (1u64 << b);
    if n == b + 1 {
        assert(hi & (1u64 << b) != 0) by (bit_vector)
            requires
                hi == lo | (1u64 << b),
                b < 64,
        ;
        assert(forall|j: u64|
            j < b ==> (hi & (1u64 << j)) == (lo & (1u64 << j))) by (bit_vector)
            requires
                hi == lo | (1u64 << b),
                b < 64,
        ;
        lemma_subset_product_below_agree(hi, lo, els, b as int);
        assert(subset_product_below(lo, els, n) == subset_product_below(lo, els, b as int) * 1);
    } else {
        lemma_subset_product_below_flip(lo, b, els, n - 1);
        let j = (n - 1) as u64;
        assert((hi & (1u64 << j)) == (lo & (1u64 << j))) by (bit_vector)
            requires
                hi == lo | (1u64 << b),
                b < 64,
                j < 64,
                j != b,
        ;
        let f: int = if lo & (1u64 << j) != 0 {
            els[n - 1] as int
        } else {
            1
        };
        assert(subset_product_below(hi, els, n) == (subset_product_below(lo, els, n - 1) * (
        els[b as int] as int)) * f);
        lemma_mul_is_associative(subset_product_below(lo, els, n - 1), els[b as int] as int, f);
        lemma_mul_is_commutative(els[b as int] as int, f);
        lemma_mul_is_associative(subset_product_below(lo, els, n - 1), f, els[b as int] as int);
    }
}

/// Successive Gray codewords differ in exactly one bit.
pub proof fn lemma_gray_adjacent(i: u64)
    requires
        i < 0xffff_ffff_ffff_ffff,
    ensures
        gray(i) ^ gray((i + 1) as u64) != 0,
        (gray(i) ^ gray((i + 1) as u64)) & (((gray(i) ^ gray((i + 1) as u64)) - 1) as u64) == 0,
{
    let j = (i + 1) as u64;
    assert((i ^ (i >> 1)) ^ (j ^ (j >> 1)) != 0 && ((i ^ (i >> 1)) ^ (j ^ (j >> 1))) & (((((i ^ (i
        >> 1)) ^ (j ^ (j >> 1))) as int) - 1) as u64) == 0) by (bit_vector)
        requires
            i < 0xffff_ffff_ffff_ffffu64,
            j == i + 1,
    ;
}

/// Gray codewords of indices below a power of two stay below it.
pub proof fn lemma_gray_bound(i: u64, n: u64)
    requires
        n < 64,
        i < (1u64 << n),
    ensures
        gray(i) < (1u64 << n),
{
    assert((i ^ (i >> 1)) < (1u64 << n)) by (bit_vector)
        requires
            n < 64,
            i < (1u64 << n),
    ;
}

/// A set of elements together with their modular inverses, ready for
/// Gray-code subset-product enumeration.
pub struct ProductSet<Md: Modulus> {
    elems: Vec<u64>,
    inverse: Vec<u64>,
    modulus: Md,
}

impl<Md: Modulus> ProductSet<Md> {
    /// The elements, in selection order.
    pub closed spec fn elems_seq(&self) -> Seq<u64> {
        self.elems@
    }

    /// The modulus of all products.
    pub closed spec fn m(&self) -> int {
        self.modulus.m_spec()
    }

    /// Number of elements; masks index into `[0, 2^n)`.
    pub open spec fn n(&self) -> int {
        self.elems_seq().len() as int
    }

    pub closed spec fn wf(&self) -> bool {
        &&& self.modulus.wf()
        &&& self.inverse@.len() == self.elems@.len()
        &&& self.elems@.len() < 64
        &&& forall|i: int|
            0 <= i < self.elems@.len() ==> #[trigger] self.elems@[i] < self.modulus.m_spec()
        &&& forall|i: int|
            0 <= i < self.elems@.len() ==> #[trigger] self.inverse@[i] < self.modulus.m_spec() && (
            self.elems@[i] * self.inverse@[i]) % self.modulus.m_spec() == 1
    }

    pub proof fn wf_facts(&self)
        requires
            self.wf(),
        ensures
            self.m() >= 2,
            self.n() < 64,
    {
        self.modulus.wf_facts();
    }

    pub fn new(elems: &[u64], modulus: Md) -> (r: Self)
        requires
            modulus.wf(),
            elems@.len() < 64,
            forall|i: int| 0 <= i < elems@.len() ==> #[trigger] elems@[i] < modulus.m_spec(),
            forall|i: int|
                0 <= i < elems@.len() ==> gcd(#[trigger] elems@[i] as nat, modulus.m_spec() as nat)
                    == 1,
        ensures
            r.wf(),
            r.elems_seq() == elems@,
            r.m() == modulus.m_spec(),
    {
        let inverse = crate::modulus::inverse(elems, modulus);
        let mut owned: Vec<u64> = Vec::with_capacity(elems.len());
        let mut i: usize = 0;
        while i < elems.len()
            invariant
                i <= elems@.len(),
                owned@.len() == i,
                forall|j: int| 0 <= j < i ==> owned@[j] == elems@[j],
            decreases elems@.len() - i,
        {
            owned.push(elems[i]);
            i = i + 1;
        }
        proof {
            assert(owned@ =~= elems@);
        }
        ProductSet { elems: owned, inverse, modulus }
    }
}

/// Computes the subset product selected by the mask `v`: element `i` of the
/// set takes part exactly when bit `i` of `v` is set.
pub fn subsetprod<Md: Modulus>(v: u64, ps: &ProductSet<Md>) -> (r: u64)
    requires
        ps.wf(),
    ensures
        r == subset_product(ps.elems_seq(), v, ps.m()),
        r < ps.m(),
{
    proof {
        ps.wf_facts();
    }
    let mut accum: u64 = 1;
    let mut i: usize = 0;
    proof {
        lemma_small_mod(1nat, ps.m() as nat);
    }
    while i < ps.elems.len()
        invariant
            ps.wf(),
            i <= ps.elems@.len(),
            ps.m() >= 2,
            accum < ps.m(),
            accum == subset_product_below(v, ps.elems_seq(), i as int) % ps.m(),
        decreases ps.elems@.len() - i,
    {
        let ghost pre = subset_product_below(v, ps.elems_seq(), i as int);
        proof {
            lemma_subset_product_below_nonneg(v, ps.elems_seq(), i as int);
        }
        if v & (1u64 << (i as u64)) != 0 {
            accum = ps.modulus.mulmod(accum, ps.elems[i]);
            proof {
                lemma_mul_mod_noop_left(pre, ps.elems@[i as int] as int, ps.m());
            }
        } else {
            assert(subset_product_below(v, ps.elems_seq(), i as int + 1) == pre * 1);
        }
        i = i + 1;
    }
    accum
}

/// Converts an index to the Gray codeword it enumerates.
pub fn to_gray(v: u64) -> (r: u64)
    ensures
        r == gray(v),
{
    v ^ (v >> 1)
}

/// A lazy, finite enumerator of `(mask, product)` pairs: for each index `i`
/// in `[start, end)` it yields the Gray codeword `gray(i)` and the subset
/// product that codeword selects.
pub struct ProductIter<'a, Md: Modulus> {
    product_set: &'a ProductSet<Md>,
    next: Option<(u64, u64)>,
    end: u64,
}

impl<'a, Md: Modulus> ProductIter<'a, Md> {
    /// The product set being enumerated.
    pub closed spec fn pset(&self) -> ProductSet<Md> {
        *self.product_set
    }

    /// One past the last codeword index.
    pub closed spec fn end_spec(&self) -> int {
        self.end as int
    }

    /// The next codeword index to be yielded; `end_spec()` when exhausted.
    pub closed spec fn idx(&self) -> int {
        match self.next {
            Some((i, _)) => i as int,
            None => self.end as int,
        }
    }

    pub closed spec fn wf(&self) -> bool {
        &&& self.product_set.wf()
        &&& self.end <= (1u64 << (self.product_set.elems@.len() as u64))
        &&& match self.next {
            Some((i, val)) => i < self.end && val == subset_product(
                self.product_set.elems@,
                gray(i),
                self.product_set.m(),
            ) && val < self.product_set.m(),
            None => true,
        }
    }

    /// Takes the start and end codeword indices (not the codewords themselves).
    pub fn new(product_set: &'a ProductSet<Md>, start: u64, end: u64) -> (r: Self)
        requires
            product_set.wf(),
            start <= end,
            end <= (1u64 << (product_set.n() as u64)),
        ensures
            r.wf(),
            r.pset() == *product_set,
            r.end_spec() == end,
            r.idx() == if start < end {
                start as int
            } else {
                end as int
            },
    {
        if start == end {
            return ProductIter { product_set, next: None, end };
        }
        let start_gray = to_gray(start);
        let accum = subsetprod(start_gray, product_set);
        ProductIter { product_set, next: Some((start, accum)), end }
    }

    /// How many pairs are still to come.
    pub open spec fn remaining(&self) -> int {
        self.end_spec() - self.idx()
    }

    /// Yields the next `(mask, product)` pair, or `None` when the range is
    /// exhausted.
    pub fn next(&mut self) -> (r: Option<(u64, u64)>)
        requires
            old(self).wf(),
        ensures
            final(self).wf(),
            final(self).pset() == old(self).pset(),
            final(self).end_spec() == old(self).end_spec(),
            old(self).idx() < old(self).end_spec() ==> {
                &&& final(self).idx() == old(self).idx() + 1
                &&& match r {
                    Some((mask, val)) => {
                        &&& mask == gray(old(self).idx() as u64)
                        &&& val == subset_product(
                            old(self).pset().elems_seq(),
                            mask,
                            old(self).pset().m(),
                        )
                    },
                    None => false,
                }
            },
            old(self).idx() >= old(self).end_spec() ==> r is None && final(self).idx() == old(
                self,
            ).idx(),
    {
        let (cur_index, cur_val) = match self.next {
            Some(pair) => pair,
            None => {
                return None;
            },
        };
        proof {
            self.product_set.wf_facts();
        }
        let ghost els = self.product_set.elems@;
        let ghost m = self.product_set.m();
        let ghost n: u64 = self.product_set.elems@.len() as u64;

        let cur_gray = to_gray(cur_index);

        let next_index = cur_index + 1;
        if next_index >= self.end {
            self.next = None;
            return Some((cur_gray, cur_val));
        }
        let next_gray = to_gray(next_index);
        let diff = cur_gray ^ next_gray;
        proof {
            assert(next_gray == cur_gray ^ diff) by (bit_vector)
                requires
                    diff == cur_gray ^ next_gray,
            ;
        }

        proof {
            lemma_gray_adjacent(cur_index);
        }
        let lz = diff.leading_zeros();
        proof {
            axiom_u64_leading_zeros(diff);
        }
        let bit = 63 - lz;
        let ghost b: u64 = bit as u64;
        proof {
            let lzg = u64_leading_zeros(diff);
            assert(lzg < 64);
            assert((diff >> ((63 - lzg) as u64)) & 1u64 != 0u64);
            assert((diff >> b) & 1u64 != 0u64);
            assert(diff == 1u64 << b) by (bit_vector)
                requires
                    diff != 0,
                    diff & (((diff as int) - 1) as u64) == 0,
                    b < 64,
                    (diff >> b) & 1u64 != 0u64,
            ;
            // The flipped position addresses a real element: both codewords lie
            // below 2^n, so their difference does too.
            lemma_gray_bound(cur_index, n);
            lemma_gray_bound(next_index, n);
            assert(b < n) by (bit_vector)
                requires
                    diff == 1u64 << b,
                    b < 64,
                    n < 64,
                    cur_gray < (1u64 << n),
                    next_gray < (1u64 << n),
                    diff == cur_gray ^ next_gray,
            ;
        }
        let twiddle = if next_gray & diff != 0 {
            proof {
                assert(next_gray == cur_gray | (1u64 << b) && cur_gray & (1u64 << b) == 0)
                    by (bit_vector)
                    requires
                        diff == 1u64 << b,
                        b < 64,
                        next_gray == cur_gray ^ diff,
                        next_gray & diff != 0,
                ;
                lemma_subset_product_below_flip(cur_gray, b, els, n as int);
                lemma_subset_product_below_nonneg(cur_gray, els, n as int);
                lemma_mul_mod_noop_left(
                    subset_product_below(cur_gray, els, n as int),
                    els[b as int] as int,
                    m,
                );
            }
            self.product_set.elems[bit as usize]
        } else {
            proof {
                assert(cur_gray == next_gray | (1u64 << b) && next_gray & (1u64 << b) == 0)
                    by (bit_vector)
                    requires
                        diff == 1u64 << b,
                        b < 64,
                        next_gray == cur_gray ^ diff,
                        next_gray & diff == 0,
                ;
                lemma_subset_product_below_flip(next_gray, b, els, n as int);
                let x = subset_product_below(next_gray, els, n as int);
                let e = els[b as int] as int;
                let w = self.product_set.inverse@[b as int] as int;
                lemma_subset_product_below_nonneg(next_gray, els, n as int);
                // ((x * e) % m * w) % m == x % m, because (e * w) % m == 1.
                lemma_mul_mod_noop_left(x * e, w, m);
                lemma_mul_is_associative(x, e, w);
                lemma_mul_mod_noop_right(x, e * w, m);
                lemma_mul_nonnegative(x, e * w);
                assert((x * ((e * w) % m)) % m == (x * (e * w)) % m);
                assert((x * 1) % m == subset_product(els, next_gray, m));
            }
            self.product_set.inverse[bit as usize]
        };
        let next_val = self.product_set.modulus.mulmod(cur_val, twiddle);
        self.next = Some((next_index, next_val));
        Some((cur_gray, cur_val))
    }
}

/// Materialises the whole range `[start, end)`: the result has exactly
/// `end - start` pairs, and the k'th pair is the Gray codeword of index
/// `start + k` with its subset product.
pub fn product_range<Md: Modulus>(ps: &ProductSet<Md>, start: u64, end: u64) -> (pairs: Vec<
    (u64, u64),
>)
    requires
        ps.wf(),
        start <= end,
        end <= (1u64 << (ps.n() as u64)),
    ensures
        pairs@.len() == end - start,
        forall|k: int|
            0 <= k < pairs@.len() ==> #[trigger] pairs@[k].0 == gray((start + k) as u64)
                && pairs@[k].1 == subset_product(ps.elems_seq(), gray((start + k) as u64), ps.m()),
{
    let mut it = ProductIter::new(ps, start, end);
    let mut pairs: Vec<(u64, u64)> = Vec::new();
    loop
        invariant
            start <= end,
            it.wf(),
            it.pset() == *ps,
            it.end_spec() == end,
            it.idx() == if start < end {
                start + pairs@.len()
            } else {
                end as int
            },
            it.idx() <= end,
            start < end ==> pairs@.len() <= end - start,
            start >= end ==> pairs@.len() == 0,
            forall|k: int|
                0 <= k < pairs@.len() ==> #[trigger] pairs@[k].0 == gray((start + k) as u64)
                    && pairs@[k].1 == subset_product(
                    ps.elems_seq(),
                    gray((start + k) as u64),
                    ps.m(),
                ),
        decreases it.end_spec() - it.idx() + 1,
    {
        match it.next() {
            Some(pair) => {
                pairs.push(pair);
            },
            None => {
                return pairs;
            },
        }
    }
}

} // verus!
