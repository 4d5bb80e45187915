//! The fixed modulus of the search, the quadratic-residue table and the
//! derivation of the set R, and the bignum primality adapter that turns an
//! agreeing pair of subset masks into a verified candidate.

use vstd::prelude::*;
use vstd::arithmetic::mul::*;
use vstd::arithmetic::power2::pow2;
use crate::gray_prod_iter::subset_product_below;

verus! {

/// The fixed 64-bit composite modulus of the whole search.
pub const M: u64 = 11908862398227544750;

/// Upper bound for members of the set R.
pub const MAX_R: u64 = 1152921504606846976;

/// Lower bound for members of the set R.
pub const MIN_R: u64 = 256;

#[verifier::external_type_specification]
#[verifier::external_body]
pub struct ExInteger(rug::Integer);

/// The number a bignum holds.
pub uninterp spec fn int_of(n: rug::Integer) -> int;

/// What the bignum probable-prime test answers for a value and a repetition
/// count. The test draws its Miller-Rabin witnesses from a default-seeded
/// generator, so the answer depends on the value and the count alone.
pub uninterp spec fn probable_prime_of(n: int, reps: u32) -> bool;

/// The Jacobi symbol (b | n), for odd positive n.
pub uninterp spec fn jacobi_of(b: int, n: int) -> int;

/// Relies on rug::Integer::from over u64: the bignum holding that value.
#[verifier::external_body]
fn big_from_u64(v: u64) -> (r: rug::Integer)
    ensures
        int_of(r) == v,
{
    rug::Integer::from(v)
}

/// Relies on bignum multiplication of rug::Integer.
#[verifier::external_body]
fn big_mul(a: &rug::Integer, b: &rug::Integer) -> (r: rug::Integer)
    ensures
        int_of(r) == int_of(*a) * int_of(*b),
{
    rug::Integer::from(a * b)
}

/// Relies on bignum addition of rug::Integer: the successor of `a`.
#[verifier::external_body]
fn big_succ(a: &rug::Integer) -> (r: rug::Integer)
    ensures
        int_of(r) == int_of(*a) + 1,
{
    rug::Integer::from(a + 1u32)
}

/// Relies on the ordering of rug::Integer.
#[verifier::external_body]
fn big_gt(a: &rug::Integer, b: &rug::Integer) -> (r: bool)
    ensures
        r == (int_of(*a) > int_of(*b)),
{
    a > b
}

/// Relies on rug::Integer::i_pow_u: two raised to the given power.
#[verifier::external_body]
fn big_pow2(exp: u32) -> (r: rug::Integer)
    ensures
        int_of(r) == pow2(exp as nat),
{
    rug::Integer::from(rug::Integer::i_pow_u(2, exp))
}

/// Relies on rug::Integer::is_probably_prime: whether the value passed the
/// probable-prime test with `reps` repetitions. The test begins with trial
/// division, so a passing value other than 2 is odd.
#[verifier::external_body]
fn probable_prime(n: &rug::Integer, reps: u32) -> (r: bool)
    requires
        0 <= int_of(*n),
        1 <= reps <= 0x7fff_ffff,
    ensures
        r == probable_prime_of(int_of(*n), reps),
        r ==> int_of(*n) == 2 || int_of(*n) % 2 == 1,
{
    match n.is_probably_prime(reps) {
        rug::integer::IsPrime::No => false,
        rug::integer::IsPrime::Probably => true,
        rug::integer::IsPrime::Yes => true,
    }
}

/// Relies on rug::Integer::jacobi, which is defined for odd positive moduli.
#[verifier::external_body]
fn jacobi_symbol(b: &rug::Integer, n: &rug::Integer) -> (r: i32)
    requires
        int_of(*n) > 0,
        int_of(*n) % 2 == 1,
    ensures
        r == jacobi_of(int_of(*b), int_of(*n)),
{
    b.jacobi(n)
}

/// One entry of the quadratic-residue table: candidates must have Jacobi
/// symbol (b | r) equal to c.
#[derive(Clone, Copy)]
pub struct MagicPairs {
    pub b: u64,
    pub c: i32,
}

/// The quadratic-residue table from the candidate filter.
pub open spec fn magic_pairs() -> Seq<MagicPairs> {
    seq![
        MagicPairs { b: 2, c: -1i32 },
        MagicPairs { b: 3, c: 1 },
        MagicPairs { b: 5, c: 1 },
        MagicPairs { b: 7, c: -1i32 },
        MagicPairs { b: 11, c: -1i32 },
        MagicPairs { b: 13, c: 1 },
        MagicPairs { b: 17, c: 1 },
        MagicPairs { b: 19, c: -1i32 },
        MagicPairs { b: 23, c: -1i32 },
        MagicPairs { b: 29, c: 1 },
        MagicPairs { b: 31, c: -1i32 },
        MagicPairs { b: 37, c: 1 },
        MagicPairs { b: 41, c: 1 },
    ]
}

fn magic_pairs_vec() -> (v: Vec<MagicPairs>)
    ensures
        v@ == magic_pairs(),
{
    let mut v: Vec<MagicPairs> = Vec::new();
    v.push(MagicPairs { b: 2, c: -1 });
    v.push(MagicPairs { b: 3, c: 1 });
    v.push(MagicPairs { b: 5, c: 1 });
    v.push(MagicPairs { b: 7, c: -1 });
    v.push(MagicPairs { b: 11, c: -1 });
    v.push(MagicPairs { b: 13, c: 1 });
    v.push(MagicPairs { b: 17, c: 1 });
    v.push(MagicPairs { b: 19, c: -1 });
    v.push(MagicPairs { b: 23, c: -1 });
    v.push(MagicPairs { b: 29, c: 1 });
    v.push(MagicPairs { b: 31, c: -1 });
    v.push(MagicPairs { b: 37, c: 1 });
    v.push(MagicPairs { b: 41, c: 1 });
    proof {
        assert(v@ =~= magic_pairs());
    }
    v
}

/// Membership condition for the set R: in range, probably prime, and with
/// the prescribed Jacobi symbol against every table entry.
pub open spec fn divisor_ok(r: u64) -> bool {
    &&& MIN_R < r < MAX_R
    &&& probable_prime_of(r as int, 15)
    &&& forall|i: int|
        0 <= i < magic_pairs().len() ==> jacobi_of(
            #[trigger] magic_pairs()[i].b as int,
            r as int,
        ) == magic_pairs()[i].c
}

/// Decides membership in the set R: r must lie strictly between 256 and
/// 2^60, be probably prime, and satisfy the Jacobi-symbol table.
pub fn check_divisor(r: u64) -> (ok: bool)
    ensures
        ok == divisor_ok(r),
{
    if r <= MIN_R || r >= MAX_R {
        return false;
    }
    let r_int = big_from_u64(r);
    if !probable_prime(&r_int, 15) {
        return false;
    }
    let pairs = magic_pairs_vec();
    let mut i: usize = 0;
    while i < pairs.len()
        invariant
            pairs@ == magic_pairs(),
            int_of(r_int) == r,
            MIN_R < r < MAX_R,
            int_of(r_int) % 2 == 1,
            i <= pairs@.len(),
            forall|j: int|
                0 <= j < i ==> jacobi_of(#[trigger] magic_pairs()[j].b as int, r as int)
                    == magic_pairs()[j].c,
        decreases pairs@.len() - i,
    {
        let b = big_from_u64(pairs[i].b);
        if jacobi_symbol(&b, &r_int) != pairs[i].c {
            return false;
        }
        i = i + 1;
    }
    true
}


/// The elements of `arr` selected by the low 32 bits of `mask`, in index
/// order.
pub open spec fn mask_selected(mask: u32, arr: Seq<u64>, n: int) -> Seq<u64>
    decreases n,
{
    if n <= 0 {
        Seq::empty()
    } else {
        mask_selected(mask, arr, n - 1) + (if mask & (1u32 << ((n - 1) as u32)) != 0 {
            seq![arr[n - 1]]
        } else {
            Seq::empty()
        })
    }
}

/// Plain integer product of a sequence of values.
pub open spec fn prod_all(s: Seq<u64>) -> int
    decreases s.len(),
{
    if s.len() == 0 {
        1
    } else {
        prod_all(s.drop_last()) * (s.last() as int)
    }
}

/// A product of unsigned values is at least zero.
proof fn lemma_prod_all_nonneg(s: Seq<u64>)
    ensures
        prod_all(s) >= 0,
    decreases s.len(),
{
    if s.len() > 0 {
        lemma_prod_all_nonneg(s.drop_last());
        lemma_mul_nonnegative(prod_all(s.drop_last()), s.last() as int);
    }
}

/// Collects the values indicated by the mask into the accumulator, as
/// bignums.
fn mask_to_big_int(accumulator: &mut Vec<rug::Integer>, mask: u32, array: &[u64])
    requires
        forall|i: int| 0 <= i < 32 && mask & (1u32 << (#[trigger] (i as u32))) != 0 ==> i < array@.len(),
    ensures
        final(accumulator)@.len() == old(accumulator)@.len() + mask_selected(
            mask,
            array@,
            32,
        ).len(),
        forall|k: int|
            0 <= k < old(accumulator)@.len() ==> final(accumulator)@[k] == old(accumulator)@[k],
        forall|k: int|
            0 <= k < mask_selected(mask, array@, 32).len() ==> int_of(
                #[trigger] final(accumulator)@[old(accumulator)@.len() + k],
            ) == mask_selected(mask, array@, 32)[k],
{
    let mut i: usize = 0;
    while i < 32
        invariant
            forall|j: int| 0 <= j < 32 && mask & (1u32 << (#[trigger] (j as u32))) != 0 ==> j < array@.len(),
            i <= 32,
            accumulator@.len() == old(accumulator)@.len() + mask_selected(
                mask,
                array@,
                i as int,
            ).len(),
            forall|k: int|
                0 <= k < old(accumulator)@.len() ==> accumulator@[k] == old(accumulator)@[k],
            forall|k: int|
                0 <= k < mask_selected(mask, array@, i as int).len() ==> int_of(
                    #[trigger] accumulator@[old(accumulator)@.len() + k],
                ) == mask_selected(mask, array@, i as int)[k],
        decreases 32 - i,
    {
        if mask & (1u32 << (i as u32)) != 0 {
            accumulator.push(big_from_u64(array[i]));
        }
        i = i + 1;
    }
}

/// The factor list a mask pair selects: the fixed factor 2, then the chosen
/// elements of the first half, then the chosen elements of the second half.
pub open spec fn selected_factors(t1: Seq<u64>, t2: Seq<u64>, t1_mask: u32, t2_mask: u32) -> Seq<
    u64,
> {
    seq![2u64] + mask_selected(t1_mask, t1, 32) + mask_selected(t2_mask, t2, 32)
}

/// Given a t1 mask and a t2 mask, outputs the values to multiply for the
/// candidate, as bignums.
pub fn get_vals_to_multiply(t1: &[u64], t2: &[u64], t1_mask: u32, t2_mask: u32) -> (vals: Vec<
    rug::Integer,
>)
    requires
        forall|i: int| 0 <= i < 32 && t1_mask & (1u32 << (#[trigger] (i as u32))) != 0 ==> i < t1@.len(),
        forall|i: int| 0 <= i < 32 && t2_mask & (1u32 << (#[trigger] (i as u32))) != 0 ==> i < t2@.len(),
    ensures
        vals@.len() == selected_factors(t1@, t2@, t1_mask, t2_mask).len(),
        forall|k: int|
            0 <= k < vals@.len() ==> int_of(#[trigger] vals@[k]) == selected_factors(
                t1@,
                t2@,
                t1_mask,
                t2_mask,
            )[k],
{
    let mut values_to_multiply: Vec<rug::Integer> = Vec::new();
    values_to_multiply.push(big_from_u64(2));
    mask_to_big_int(&mut values_to_multiply, t1_mask, t1);
    mask_to_big_int(&mut values_to_multiply, t2_mask, t2);
    proof {
        let sel1 = mask_selected(t1_mask, t1@, 32);
        let sel2 = mask_selected(t2_mask, t2@, 32);
        let all = selected_factors(t1@, t2@, t1_mask, t2_mask);
        assert(all.len() == 1 + sel1.len() + sel2.len());
        assert forall|k: int|
            0 <= k < values_to_multiply@.len() implies int_of(
            #[trigger] values_to_multiply@[k],
        ) == all[k] by {
            if k == 0 {
                assert(all[0] == seq![2u64][0]);
            } else if k < 1 + sel1.len() {
                assert(all[k] == sel1[k - 1]);
                assert(int_of(values_to_multiply@[1 + (k - 1)]) == sel1[k - 1]);
            } else {
                assert(all[k] == sel2[k - 1 - sel1.len()]);
                assert(int_of(values_to_multiply@[1 + sel1.len() + (k - 1 - sel1.len())])
                    == sel2[k - 1 - sel1.len()]);
            }
        }
    }
    values_to_multiply
}

/// A discovered candidate: the probable prime itself and the factors whose
/// product is its predecessor.
pub struct Pseudoprime {
    pub pseudoprime: rug::Integer,
    pub factors: Vec<rug::Integer>,
}

/// The least size a candidate must exceed: 2^512.
pub fn min_n() -> (r: rug::Integer)
    ensures
        int_of(r) == pow2(512),
{
    big_pow2(512)
}

/// Checks whether the composite number indicated by the two masks is a
/// pseudoprime: its factor product plus one must exceed `min_n` and pass the
/// probable-prime test with 15 repetitions.
pub fn check_prime(min_n: &rug::Integer, t1: &[u64], t2: &[u64], t1_mask: u32, t2_mask: u32) -> (r:
    Option<Pseudoprime>)
    requires
        forall|i: int| 0 <= i < 32 && t1_mask & (1u32 << (#[trigger] (i as u32))) != 0 ==> i < t1@.len(),
        forall|i: int| 0 <= i < 32 && t2_mask & (1u32 << (#[trigger] (i as u32))) != 0 ==> i < t2@.len(),
    ensures
        ({
            let vals = selected_factors(t1@, t2@, t1_mask, t2_mask);
            let n = prod_all(vals) + 1;
            &&& (r is Some <==> n > int_of(*min_n) && probable_prime_of(n, 15))
            &&& match r {
                Some(p) => {
                    &&& int_of(p.pseudoprime) == n
                    &&& p.factors@.len() == vals.len()
                    &&& forall|k: int|
                        0 <= k < vals.len() ==> int_of(#[trigger] p.factors@[k]) == vals[k]
                },
                None => true,
            }
        }),
{
    let values_to_multiply = get_vals_to_multiply(t1, t2, t1_mask, t2_mask);
    let ghost vals = selected_factors(t1@, t2@, t1_mask, t2_mask);

    let mut product = big_from_u64(1);
    let mut i: usize = 0;
    while i < values_to_multiply.len()
        invariant
            values_to_multiply@.len() == vals.len(),
            forall|k: int|
                0 <= k < vals.len() ==> int_of(#[trigger] values_to_multiply@[k]) == vals[k],
            i <= vals.len(),
            int_of(product) == prod_all(vals.take(i as int)),
        decreases vals.len() - i,
    {
        product = big_mul(&product, &values_to_multiply[i]);
        proof {
            assert(vals.take(i + 1).drop_last() =~= vals.take(i as int));
            assert(vals.take(i + 1).last() == vals[i as int]);
        }
        i = i + 1;
    }
    proof {
        assert(vals.take(vals.len() as int) =~= vals);
    }
    let n_result = big_succ(&product);
    proof {
        lemma_prod_all_nonneg(vals);
    }
    if big_gt(&n_result, min_n) {
        if probable_prime(&n_result, 15) {
            return Some(Pseudoprime { pseudoprime: n_result, factors: values_to_multiply });
        }
    }
    None
}


/// The nine odd prime factors of M above 11.
pub open spec fn m_primes() -> Seq<u64> {
    seq![13u64, 17u64, 19u64, 23u64, 29u64, 31u64, 37u64, 41u64, 61u64]
}

/// Powers of 5 up to the cube.
pub open spec fn pp_bases_5() -> Seq<u64> {
    seq![1u64, 5u64, 25u64, 125u64]
}

/// Powers of 7 up to the square.
pub open spec fn pp_bases_7() -> Seq<u64> {
    seq![1u64, 7u64, 49u64]
}

/// Powers of 11 up to the square.
pub open spec fn pp_bases_11() -> Seq<u64> {
    seq![1u64, 11u64, 121u64]
}

/// The 36 products of a power of 5, a power of 7 and a power of 11 that
/// divide M, in lexicographic order of the exponents.
pub open spec fn prime_powers() -> Seq<u64> {
    Seq::new(
        36,
        |t: int|
            ((pp_bases_5()[t / 9] * pp_bases_7()[(t % 9) / 3]) * pp_bases_11()[t % 3]) as u64,
    )
}

/// The candidate that a subset mask over `m_primes` and a prime-power index
/// generate: twice their product, plus one.
pub open spec fn r_candidate(mask: u64, t: int) -> int {
    2 * prime_powers()[t] * subset_product_below(mask, m_primes(), 9) + 1
}

/// Product of the first `n` elements of a sequence.
pub open spec fn seq_prod(els: Seq<u64>, n: int) -> int
    decreases n,
{
    if n <= 0 {
        1
    } else {
        seq_prod(els, n - 1) * (els[n - 1] as int)
    }
}

proof fn lemma_seq_prod_pos(els: Seq<u64>, n: int)
    requires
        forall|j: int| 0 <= j < n ==> #[trigger] els[j] >= 1,
    ensures
        seq_prod(els, n) >= 1,
    decreases n,
{
    if n > 0 {
        lemma_seq_prod_pos(els, n - 1);
        lemma_mul_inequality(1, seq_prod(els, n - 1), els[n - 1] as int);
    }
}

/// A subset product is at least 1 and at most the product of all elements.
proof fn lemma_subset_product_le(mask: u64, els: Seq<u64>, n: int)
    requires
        forall|j: int| 0 <= j < n ==> #[trigger] els[j] >= 1,
    ensures
        1 <= subset_product_below(mask, els, n) <= seq_prod(els, n),
    decreases n,
{
    if n > 0 {
        lemma_subset_product_le(mask, els, n - 1);
        let p = subset_product_below(mask, els, n - 1);
        let e = els[n - 1] as int;
        let f: int = if mask & (1u64 << ((n - 1) as u64)) != 0 {
            e
        } else {
            1
        };
        lemma_mul_inequality(1, f, p);
        lemma_mul_inequality(f, e, p);
        lemma_mul_inequality(p, seq_prod(els, n - 1), e);
        lemma_mul_is_commutative(p, f);
        lemma_mul_is_commutative(p, e);
    }
}

proof fn lemma_m_primes_prod()
    ensures
        seq_prod(m_primes(), 9) == 8034314318251,
        forall|n: int| 0 <= n <= 9 ==> #[trigger] seq_prod(m_primes(), n) <= 8034314318251,
{
    reveal_with_fuel(seq_prod, 11);
    assert(seq_prod(m_primes(), 0) == 1);
    assert(seq_prod(m_primes(), 1) == seq_prod(m_primes(), 0) * (m_primes()[0] as int));
    assert(seq_prod(m_primes(), 1) == 13) by (nonlinear_arith)
        requires
            seq_prod(m_primes(), 1) == seq_prod(m_primes(), 0) * (m_primes()[0] as int),
            seq_prod(m_primes(), 0) == 1,
            m_primes()[0] == 13,
    ;
    assert(seq_prod(m_primes(), 2) == seq_prod(m_primes(), 1) * (m_primes()[1] as int));
    assert(seq_prod(m_primes(), 2) == 221) by (nonlinear_arith)
        requires
            seq_prod(m_primes(), 2) == seq_prod(m_primes(), 1) * (m_primes()[1] as int),
            seq_prod(m_primes(), 1) == 13,
            m_primes()[1] == 17,
    ;
    assert(seq_prod(m_primes(), 3) == seq_prod(m_primes(), 2) * (m_primes()[2] as int));
    assert(seq_prod(m_primes(), 3) == 4199) by (nonlinear_arith)
        requires
            seq_prod(m_primes(), 3) == seq_prod(m_primes(), 2) * (m_primes()[2] as int),
            seq_prod(m_primes(), 2) == 221,
            m_primes()[2] == 19,
    ;
    assert(seq_prod(m_primes(), 4) == seq_prod(m_primes(), 3) * (m_primes()[3] as int));
    assert(seq_prod(m_primes(), 4) == 96577) by (nonlinear_arith)
        requires
            seq_prod(m_primes(), 4) == seq_prod(m_primes(), 3) * (m_primes()[3] as int),
            seq_prod(m_primes(), 3) == 4199,
            m_primes()[3] == 23,
    ;
    assert(seq_prod(m_primes(), 5) == seq_prod(m_primes(), 4) * (m_primes()[4] as int));
    assert(seq_prod(m_primes(), 5) == 2800733) by (nonlinear_arith)
        requires
            seq_prod(m_primes(), 5) == seq_prod(m_primes(), 4) * (m_primes()[4] as int),
            seq_prod(m_primes(), 4) == 96577,
            m_primes()[4] == 29,
    ;
    assert(seq_prod(m_primes(), 6) == seq_prod(m_primes(), 5) * (m_primes()[5] as int));
    assert(seq_prod(m_primes(), 6) == 86822723) by (nonlinear_arith)
        requires
            seq_prod(m_primes(), 6) == seq_prod(m_primes(), 5) * (m_primes()[5] as int),
            seq_prod(m_primes(), 5) == 2800733,
            m_primes()[5] == 31,
    ;
    assert(seq_prod(m_primes(), 7) == seq_prod(m_primes(), 6) * (m_primes()[6] as int));
    assert(seq_prod(m_primes(), 7) == 3212440751) by (nonlinear_arith)
        requires
            seq_prod(m_primes(), 7) == seq_prod(m_primes(), 6) * (m_primes()[6] as int),
            seq_prod(m_primes(), 6) == 86822723,
            m_primes()[6] == 37,
    ;
    assert(seq_prod(m_primes(), 8) == seq_prod(m_primes(), 7) * (m_primes()[7] as int));
    assert(seq_prod(m_primes(), 8) == 131710070791) by (nonlinear_arith)
        requires
            seq_prod(m_primes(), 8) == seq_prod(m_primes(), 7) * (m_primes()[7] as int),
            seq_prod(m_primes(), 7) == 3212440751,
            m_primes()[7] == 41,
    ;
    assert(seq_prod(m_primes(), 9) == seq_prod(m_primes(), 8) * (m_primes()[8] as int));
    assert(seq_prod(m_primes(), 9) == 8034314318251) by (nonlinear_arith)
        requires
            seq_prod(m_primes(), 9) == seq_prod(m_primes(), 8) * (m_primes()[8] as int),
            seq_prod(m_primes(), 8) == 131710070791,
            m_primes()[8] == 61,
    ;
    assert forall|n: int| 0 <= n <= 9 implies #[trigger] seq_prod(m_primes(), n)
        <= 8034314318251 by {
        if n == 0 {
            assert(seq_prod(m_primes(), 0) == 1);
        }
    }
}

proof fn lemma_pp_bases_bound(a: int, b: int, c: int)
    requires
        0 <= a < 4,
        0 <= b < 3,
        0 <= c < 3,
    ensures
        1 <= pp_bases_5()[a] <= 125,
        1 <= pp_bases_7()[b] <= 49,
        1 <= pp_bases_11()[c] <= 121,
        1 <= pp_bases_5()[a] * pp_bases_7()[b] <= 6125,
        1 <= (pp_bases_5()[a] * pp_bases_7()[b]) * pp_bases_11()[c] <= 741125,
{
    assert(1 <= pp_bases_5()[a] <= 125) by {
        if a == 0 {
            assert(pp_bases_5()[0] == 1);
        } else if a == 1 {
            assert(pp_bases_5()[1] == 5);
        } else if a == 2 {
            assert(pp_bases_5()[2] == 25);
        } else {
            assert(pp_bases_5()[3] == 125);
        }
    }
    assert(1 <= pp_bases_7()[b] <= 49) by {
        if b == 0 {
            assert(pp_bases_7()[0] == 1);
        } else if b == 1 {
            assert(pp_bases_7()[1] == 7);
        } else {
            assert(pp_bases_7()[2] == 49);
        }
    }
    assert(1 <= pp_bases_11()[c] <= 121) by {
        if c == 0 {
            assert(pp_bases_11()[0] == 1);
        } else if c == 1 {
            assert(pp_bases_11()[1] == 11);
        } else {
            assert(pp_bases_11()[2] == 121);
        }
    }
    assert(1 <= pp_bases_5()[a] * pp_bases_7()[b] <= 6125) by (nonlinear_arith)
        requires
            1 <= pp_bases_5()[a] <= 125,
            1 <= pp_bases_7()[b] <= 49,
    ;
    assert(1 <= (pp_bases_5()[a] * pp_bases_7()[b]) * pp_bases_11()[c] <= 741125)
        by (nonlinear_arith)
        requires
            1 <= pp_bases_5()[a] * pp_bases_7()[b] <= 6125,
            1 <= pp_bases_11()[c] <= 121,
    ;
}

proof fn lemma_prime_powers_bound(t: int)
    requires
        0 <= t < 36,
    ensures
        1 <= prime_powers()[t] <= 741125,
{
    let a = t / 9;
    let b = (t % 9) / 3;
    let c = t % 3;
    assert(0 <= a < 4 && 0 <= b < 3 && 0 <= c < 3);
    lemma_pp_bases_bound(a, b, c);
}

/// Every candidate value fits a u64: the largest is M + 1.
pub proof fn lemma_r_candidate_bound(mask: u64, t: int)
    requires
        0 <= t < 36,
    ensures
        3 <= r_candidate(mask, t) <= 11908862398227544751,
{
    lemma_prime_powers_bound(t);
    lemma_subset_product_le(mask, m_primes(), 9);
    lemma_m_primes_prod();
    let pp = prime_powers()[t] as int;
    let ssp = subset_product_below(mask, m_primes(), 9);
    assert(2 <= 2 * pp * ssp <= 11908862398227544750) by (nonlinear_arith)
        requires
            1 <= pp <= 741125,
            1 <= ssp <= 8034314318251,
    ;
}

fn vec_contains(v: &Vec<u64>, x: u64) -> (r: bool)
    ensures
        r == v@.contains(x),
{
    let mut i: usize = 0;
    while i < v.len()
        invariant
            i <= v@.len(),
            forall|j: int| 0 <= j < i ==> v@[j] != x,
        decreases v@.len() - i,
    {
        if v[i] == x {
            return true;
        }
        i = i + 1;
    }
    false
}

/// Derives the set R: every value 2 * pp * ssp + 1 over the prime powers and
/// the subset products of `m_primes` that passes `check_divisor`, each kept
/// once, in order of first discovery. A run over the true table yields
/// exactly 64 values; callers check the count.
pub fn compute_r() -> (results: Vec<u64>)
    ensures
        forall|i: int| 0 <= i < results@.len() ==> divisor_ok(#[trigger] results@[i]),
        forall|i: int, j: int| 0 <= i < j < results@.len() ==> results@[i] != results@[j],
        forall|mask: u64, t: int|
            1 <= mask < 512 && 0 <= t < 36 && divisor_ok(#[trigger] r_candidate(mask, t) as u64)
                ==> results@.contains(r_candidate(mask, t) as u64),
{
    let mut results: Vec<u64> = Vec::new();

    let mut m_prime: Vec<u64> = Vec::new();
    m_prime.push(13);
    m_prime.push(17);
    m_prime.push(19);
    m_prime.push(23);
    m_prime.push(29);
    m_prime.push(31);
    m_prime.push(37);
    m_prime.push(41);
    m_prime.push(61);
    proof {
        assert(m_prime@ =~= m_primes());
    }

    let mut b5: Vec<u64> = Vec::new();
    b5.push(1);
    b5.push(5);
    b5.push(25);
    b5.push(125);
    let mut b7: Vec<u64> = Vec::new();
    b7.push(1);
    b7.push(7);
    b7.push(49);
    let mut b11: Vec<u64> = Vec::new();
    b11.push(1);
    b11.push(11);
    b11.push(121);
    proof {
        assert(b5@ =~= pp_bases_5());
        assert(b7@ =~= pp_bases_7());
        assert(b11@ =~= pp_bases_11());
    }

    let mut m_pps: Vec<u64> = Vec::new();
    let mut a: usize = 0;
    while a < 4
        invariant
            b5@ == pp_bases_5(),
            b7@ == pp_bases_7(),
            b11@ == pp_bases_11(),
            a <= 4,
            m_pps@.len() == a * 9,
            forall|idx: int| 0 <= idx < m_pps@.len() ==> m_pps@[idx] == prime_powers()[idx],
        decreases 4 - a,
    {
        let mut b: usize = 0;
        while b < 3
            invariant
                b5@ == pp_bases_5(),
                b7@ == pp_bases_7(),
                b11@ == pp_bases_11(),
                a < 4,
                b <= 3,
                m_pps@.len() == a * 9 + b * 3,
                forall|idx: int| 0 <= idx < m_pps@.len() ==> m_pps@[idx] == prime_powers()[idx],
            decreases 3 - b,
        {
            let mut c: usize = 0;
            while c < 3
                invariant
                    b5@ == pp_bases_5(),
                    b7@ == pp_bases_7(),
                    b11@ == pp_bases_11(),
                    a < 4,
                    b < 3,
                    c <= 3,
                    m_pps@.len() == a * 9 + b * 3 + c,
                    forall|idx: int|
                        0 <= idx < m_pps@.len() ==> m_pps@[idx] == prime_powers()[idx],
                decreases 3 - c,
            {
                let ghost t: int = a * 9 + b * 3 + c;
                proof {
                    vstd::arithmetic::div_mod::lemma_div_multiples_vanish_fancy(
                        a as int,
                        (b * 3 + c) as int,
                        9,
                    );
                    vstd::arithmetic::div_mod::lemma_div_multiples_vanish_fancy(
                        b as int,
                        c as int,
                        3,
                    );
                    assert(t / 9 == a && t % 9 == b * 3 + c);
                    assert((t % 9) / 3 == b && t % 3 == (b * 3 + c) % 3);
                    vstd::arithmetic::div_mod::lemma_mod_mod(t, 3, 3);
                    assert(t % 3 == c) by {
                        vstd::arithmetic::div_mod::lemma_div_multiples_vanish_fancy(
                            (a * 3 + b) as int,
                            c as int,
                            3,
                        );
                        assert(t == (a * 3 + b) * 3 + c) by (nonlinear_arith)
                            requires
                                t == a * 9 + b * 3 + c,
                        ;
                    }
                    lemma_pp_bases_bound(a as int, b as int, c as int);
                    lemma_prime_powers_bound(t);
                }
                let pp = (b5[a] * b7[b]) * b11[c];
                m_pps.push(pp);
                c = c + 1;
            }
            b = b + 1;
        }
        a = a + 1;
    }

    let mut counter: u64 = 1;
    while counter < 512
        invariant
            m_prime@ == m_primes(),
            m_pps@.len() == 36,
            forall|idx: int| 0 <= idx < 36 ==> m_pps@[idx] == prime_powers()[idx],
            1 <= counter <= 512,
            forall|i: int| 0 <= i < results@.len() ==> divisor_ok(#[trigger] results@[i]),
            forall|i: int, j: int| 0 <= i < j < results@.len() ==> results@[i] != results@[j],
            forall|mask: u64, t: int|
                1 <= mask < counter && 0 <= t < 36 && divisor_ok(
                    #[trigger] r_candidate(mask, t) as u64,
                ) ==> results@.contains(r_candidate(mask, t) as u64),
        decreases 512 - counter,
    {
        let mut prime_ssp: u64 = 1;
        let mut i: usize = 0;
        while i < 9
            invariant
                m_prime@ == m_primes(),
                i <= 9,
                prime_ssp == subset_product_below(counter, m_primes(), i as int),
            decreases 9 - i,
        {
            proof {
                lemma_subset_product_le(counter, m_primes(), i + 1);
                lemma_m_primes_prod();
            }
            if counter & (1u64 << (i as u64)) != 0 {
                prime_ssp = prime_ssp * m_prime[i];
            }
            i = i + 1;
        }

        let mut t: usize = 0;
        while t < 36
            invariant
                m_prime@ == m_primes(),
                m_pps@.len() == 36,
                forall|idx: int| 0 <= idx < 36 ==> m_pps@[idx] == prime_powers()[idx],
                1 <= counter < 512,
                t <= 36,
                prime_ssp == subset_product_below(counter, m_primes(), 9),
                forall|i: int| 0 <= i < results@.len() ==> divisor_ok(#[trigger] results@[i]),
                forall|i: int, j: int| 0 <= i < j < results@.len() ==> results@[i] != results@[j],
                forall|mask: u64, tt: int|
                    1 <= mask < counter && 0 <= tt < 36 && divisor_ok(
                        #[trigger] r_candidate(mask, tt) as u64,
                    ) ==> results@.contains(r_candidate(mask, tt) as u64),
                forall|tt: int|
                    0 <= tt < t && divisor_ok(#[trigger] r_candidate(counter, tt) as u64)
                        ==> results@.contains(r_candidate(counter, tt) as u64),
            decreases 36 - t,
        {
            proof {
                lemma_prime_powers_bound(t as int);
                lemma_subset_product_le(counter, m_primes(), 9);
                lemma_m_primes_prod();
                assert(2 * (m_pps@[t as int] as int) * (prime_ssp as int)
                    <= 11908862398227544750) by (nonlinear_arith)
                    requires
                        1 <= m_pps@[t as int] <= 741125,
                        1 <= prime_ssp <= 8034314318251,
                ;
            }
            let candidate = 2 * m_pps[t] * prime_ssp + 1;
            proof {
                assert(candidate == r_candidate(counter, t as int));
            }
            if check_divisor(candidate) {
                if !vec_contains(&results, candidate) {
                    let ghost pre = results@;
                    results.push(candidate);
                    proof {
                        assert(results@ == pre.push(candidate));
                        assert forall|x: u64| pre.contains(x) implies results@.contains(x) by {
                            let w = choose|w: int| 0 <= w < pre.len() && pre[w] == x;
                            assert(results@[w] == x);
                        }
                        assert(results@[pre.len() as int] == candidate);
                        assert(results@.contains(candidate));
                    }
                }
            }
            t = t + 1;
        }
        counter = counter + 1;
    }
    results
}



/// Plain integer product of a sequence of bignums.
pub open spec fn prod_int_of(s: Seq<rug::Integer>) -> int
    decreases s.len(),
{
    if s.len() == 0 {
        1
    } else {
        prod_int_of(s.drop_last()) * int_of(s.last())
    }
}

/// A factor list holding exactly the given values has the same product.
pub proof fn lemma_prod_int_of_matches(f: Seq<rug::Integer>, vals: Seq<u64>)
    requires
        f.len() == vals.len(),
        forall|k: int| 0 <= k < f.len() ==> int_of(#[trigger] f[k]) == vals[k],
    ensures
        prod_int_of(f) == prod_all(vals),
    decreases f.len(),
{
    if f.len() > 0 {
        assert(forall|k: int|
            0 <= k < f.drop_last().len() ==> int_of(#[trigger] f.drop_last()[k])
                == vals.drop_last()[k]);
        lemma_prod_int_of_matches(f.drop_last(), vals.drop_last());
        assert(int_of(f.last()) == vals.last());
    }
}

/// The numbers a sequence of bignums holds, in order.
pub open spec fn ints_of(s: Seq<rug::Integer>) -> Seq<int> {
    Seq::new(s.len(), |k: int| int_of(s[k]))
}

/// A sequence of machine words, read as mathematical integers.
pub open spec fn seq_as_ints(s: Seq<u64>) -> Seq<int> {
    Seq::new(s.len(), |k: int| s[k] as int)
}

/// What every reported pseudoprime satisfies: it exceeds the floor, it
/// passed the probable-prime test, and it is one more than the product of
/// its recorded factors.
pub open spec fn pseudoprime_ok(p: Pseudoprime, min_n: int) -> bool {
    &&& int_of(p.pseudoprime) == prod_int_of(p.factors@) + 1
    &&& int_of(p.pseudoprime) > min_n
    &&& probable_prime_of(int_of(p.pseudoprime), 15)
}

} // verus!
