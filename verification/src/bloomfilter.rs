//! The three phases of the meet-in-the-middle sieve, built on the Bloom
//! filter: fill two filter shards with one half's subset products and merge
//! them, probe the merged filter with the other half's products, and sieve
//! the agreeing pairs for probable primes.

pub mod conc_bloom;

use vstd::prelude::*;
use std::io::Write;
use vstd::arithmetic::mul::*;
use vstd::arithmetic::div_mod::*;
use crate::bloomfilter::conc_bloom::{
    bloom_index,
    lemma_no_false_negative,
    lemma_words_equal_bits,
    BloomFilter,
    Builder,
};
use crate::gray_prod_iter::{gray, subset_product, ProductIter, ProductSet};
use crate::magic_numbers::M;
use crate::modulus::Modulus;
use crate::progress::ProgressReporter;

verus! {

/// The subset product that codeword index `i` selects, as stored and probed.
pub open spec fn ssp_at(els: Seq<u64>, m: int, i: u64) -> u64 {
    subset_product(els, gray(i), m) as u64
}

/// Whether bit `j` is one of the positions the filter's hashes select for
/// the subset product of some enumeration index below `end`: the only bits a
/// fill of `[0, end)` may set.
pub open spec fn bit_selected_by(
    seeds: Seq<u64>,
    mask: u64,
    els: Seq<u64>,
    m: int,
    end: int,
    j: int,
) -> bool {
    exists|i: u64, h: int|
        i < end && 0 <= h < seeds.len() && j == (#[trigger] bloom_index(
            seeds,
            mask,
            ssp_at(els, m, i),
            h,
        )) as int
}

proof fn lemma_bit_selected_by_widen(
    seeds: Seq<u64>,
    mask: u64,
    els: Seq<u64>,
    m: int,
    end1: int,
    end2: int,
    j: int,
)
    requires
        bit_selected_by(seeds, mask, els, m, end1, j),
        end1 <= end2,
    ensures
        bit_selected_by(seeds, mask, els, m, end2, j),
{
    let (i, h) = choose|i: u64, h: int|
        i < end1 && 0 <= h < seeds.len() && j == (#[trigger] bloom_index(
            seeds,
            mask,
            ssp_at(els, m, i),
            h,
        )) as int;
    assert(i < end2 && 0 <= h < seeds.len() && j == bloom_index(
        seeds,
        mask,
        ssp_at(els, m, i),
        h,
    ) as int);
}

/// The work range of one task: total work divided evenly, with the last task
/// absorbing the remainder.
pub fn task_range(task: u64, n_tasks: u64, total: u64) -> (r: (u64, u64))
    requires
        1 <= n_tasks,
        task < n_tasks,
    ensures
        r.0 == task * (total / n_tasks),
        r.1 == if task == n_tasks - 1 {
            total as int
        } else {
            (task + 1) * (total / n_tasks)
        },
        r.0 <= r.1 <= total,
{
    let per_task = total / n_tasks;
    proof {
        lemma_fundamental_div_mod(total as int, n_tasks as int);
        lemma_mod_bound(total as int, n_tasks as int);
        assert(n_tasks * per_task <= total);
        lemma_mul_inequality(task as int, n_tasks as int - 1, per_task as int);
        lemma_mul_inequality(task as int + 1, n_tasks as int, per_task as int);
        lemma_mul_is_commutative(n_tasks as int, per_task as int);
        lemma_mul_is_distributive_add_other_way(per_task as int, task as int, 1);
        lemma_mul_nonnegative(task as int, per_task as int);
    }
    let start = task * per_task;
    if task == n_tasks - 1 {
        (start, total)
    } else {
        (start, start + per_task)
    }
}

/// Computes the subset products from the start'th to the end'th Gray
/// codeword and inserts each into the Bloom filter: afterwards every product
/// of the range answers `maybe_present` positively, no bit that was set
/// before has been lost, and every newly set bit was selected by one of the
/// range's products.
pub fn bloom_t1_kernel<Md: Modulus>(
    product_set: &ProductSet<Md>,
    start: u64,
    end: u64,
    filter: &mut BloomFilter,
    progress: &mut ProgressReporter,
)
    requires
        product_set.wf(),
        start <= end,
        end <= (1u64 << (product_set.n() as u64)),
        old(filter).wf(),
        old(progress).wf(),
        old(progress).counted() + (end - start) <= old(progress).total_spec(),
    ensures
        final(filter).wf(),
        final(filter).seeds() == old(filter).seeds(),
        final(filter).mask_spec() == old(filter).mask_spec(),
        final(filter).words().len() == old(filter).words().len(),
        forall|j: int|
            0 <= j < old(filter).capacity() && old(filter).bit(j) ==> final(filter).bit(j),
        forall|i: u64|
            start <= i < end ==> final(filter).spec_maybe_present(
                #[trigger] ssp_at(product_set.elems_seq(), product_set.m(), i),
            ),
        forall|j: int|
            0 <= j < old(filter).capacity() && final(filter).bit(j) ==> old(filter).bit(j)
                || #[trigger] bit_selected_by(
                old(filter).seeds(),
                old(filter).mask_spec(),
                product_set.elems_seq(),
                product_set.m(),
                end as int,
                j,
            ),
        final(progress).wf(),
        final(progress).total_spec() == old(progress).total_spec(),
        final(progress).counted() == old(progress).counted() + (end - start),
{
    let mut handle = progress.handle();
    let ghost els = product_set.elems_seq();
    let ghost m = product_set.m();
    let mut it = ProductIter::new(product_set, start, end);
    loop
        invariant
            start <= end,
            it.wf(),
            it.pset() == *product_set,
            product_set.wf(),
            it.end_spec() == end,
            start <= it.idx() <= end,
            els == product_set.elems_seq(),
            m == product_set.m(),
            filter.wf(),
            filter.seeds() == old(filter).seeds(),
            filter.mask_spec() == old(filter).mask_spec(),
            filter.words().len() == old(filter).words().len(),
            forall|j: int|
                0 <= j < old(filter).capacity() && old(filter).bit(j) ==> filter.bit(j),
            forall|i: u64|
                start <= i < it.idx() ==> filter.spec_maybe_present(
                    #[trigger] ssp_at(els, m, i),
                ),
            forall|j: int|
                0 <= j < old(filter).capacity() && filter.bit(j) ==> old(filter).bit(j)
                    || #[trigger] bit_selected_by(
                    old(filter).seeds(),
                    old(filter).mask_spec(),
                    els,
                    m,
                    it.idx(),
                    j,
                ),
            handle.wf(),
            progress.wf(),
            progress.total_spec() == old(progress).total_spec(),
            old(progress).counted() + (end - start) <= progress.total_spec(),
            progress.counted() + handle.pending() == old(progress).counted() + (it.idx() - start),
            progress.counted() + handle.pending() <= progress.total_spec(),
        decreases it.end_spec() - it.idx() + 1,
    {
        let ghost pre_idx = it.idx();
        match it.next() {
            Some(pair) => {
                let (_k, v) = pair;
                let ghost pre = *filter;
                filter.put(&v);
                proof {
                    assert(v == ssp_at(els, m, pre_idx as u64));
                    assert(filter.spec_maybe_present(ssp_at(els, m, pre_idx as u64)));
                    assert forall|i: u64| start <= i < it.idx() implies filter.spec_maybe_present(
                        #[trigger] ssp_at(els, m, i),
                    ) by {
                        if i < pre_idx {
                            lemma_no_false_negative(pre, *filter, ssp_at(els, m, i));
                        }
                    }
                    assert forall|j: int|
                        0 <= j < old(filter).capacity() && filter.bit(j) implies old(filter).bit(j)
                        || #[trigger] bit_selected_by(
                        old(filter).seeds(),
                        old(filter).mask_spec(),
                        els,
                        m,
                        it.idx(),
                        j,
                    ) by {
                        if !old(filter).bit(j) {
                            if pre.bit(j) {
                                assert(bit_selected_by(
                                    old(filter).seeds(),
                                    old(filter).mask_spec(),
                                    els,
                                    m,
                                    pre_idx,
                                    j,
                                ));
                                lemma_bit_selected_by_widen(
                                    old(filter).seeds(),
                                    old(filter).mask_spec(),
                                    els,
                                    m,
                                    pre_idx,
                                    it.idx(),
                                    j,
                                );
                            } else {
                                let h = choose|h: int|
                                    0 <= h < pre.seeds().len() && j == bloom_index(
                                        pre.seeds(),
                                        pre.mask_spec(),
                                        v,
                                        h,
                                    ) as int;
                                assert((pre_idx as u64) < it.idx() && 0 <= h < old(
                                    filter,
                                ).seeds().len() && j == bloom_index(
                                    old(filter).seeds(),
                                    old(filter).mask_spec(),
                                    ssp_at(els, m, pre_idx as u64),
                                    h,
                                ) as int);
                                assert(bit_selected_by(
                                    old(filter).seeds(),
                                    old(filter).mask_spec(),
                                    els,
                                    m,
                                    it.idx(),
                                    j,
                                ));
                            }
                        }
                    }
                }
                handle.report(progress, 1);
            },
            None => {
                proof {
                    assert forall|j: int|
                        0 <= j < old(filter).capacity() && filter.bit(j) implies old(filter).bit(j)
                        || #[trigger] bit_selected_by(
                        old(filter).seeds(),
                        old(filter).mask_spec(),
                        els,
                        m,
                        end as int,
                        j,
                    ) by {
                        if !old(filter).bit(j) {
                            lemma_bit_selected_by_widen(
                                old(filter).seeds(),
                                old(filter).mask_spec(),
                                els,
                                m,
                                pre_idx,
                                end as int,
                                j,
                            );
                        }
                    }
                }
                handle.push(progress);
                return ;
            },
        }
    }
}

/// Builds two Bloom filter shards with `hashes` shared seeds and the sizing
/// the builder gives `filter_size`, fills them with every subset product of
/// `t1` (tasks alternating between the shards), and merges them: each shard
/// ends up answering positively for every product, and holds no bit that the
/// inserted products did not select.
pub fn bloom_t1(t1: &[u64], filter_size: usize, hashes: usize, n_tasks: u64) -> (shards: (
    BloomFilter,
    BloomFilter,
))
    requires
        t1@.len() < 64,
        forall|i: int| 0 <= i < t1@.len() ==> #[trigger] t1@[i] < M,
        forall|i: int|
            0 <= i < t1@.len() ==> crate::modulus::gcd(#[trigger] t1@[i] as nat, M as nat) == 1,
        1 <= filter_size,
        2 * filter_size + 63 <= usize::MAX,
        1 <= n_tasks,
        (1u64 << (t1@.len() as u64)) <= usize::MAX,
    ensures
        shards.0.wf(),
        shards.1.wf(),
        shards.0.seeds() == shards.1.seeds(),
        shards.0.seeds().len() == hashes,
        shards.0.mask_spec() == shards.1.mask_spec(),
        filter_size <= shards.0.mask_spec() + 1 < 2 * filter_size,
        shards.0.words() == shards.1.words(),
        forall|i: u64|
            i < (1u64 << (t1@.len() as u64)) ==> shards.0.spec_maybe_present(
                #[trigger] ssp_at(t1@, M as int, i),
            ),
        forall|i: u64|
            i < (1u64 << (t1@.len() as u64)) ==> shards.1.spec_maybe_present(
                #[trigger] ssp_at(t1@, M as int, i),
            ),
        forall|j: int|
            0 <= j < shards.0.capacity() && shards.0.bit(j) ==> #[trigger] bit_selected_by(
                shards.0.seeds(),
                shards.0.mask_spec(),
                t1@,
                M as int,
                (1u64 << (t1@.len() as u64)) as int,
                j,
            ),
        forall|j: int|
            0 <= j < shards.1.capacity() && shards.1.bit(j) ==> #[trigger] bit_selected_by(
                shards.1.seeds(),
                shards.1.mask_spec(),
                t1@,
                M as int,
                (1u64 << (t1@.len() as u64)) as int,
                j,
            ),
{
    let total: u64 = 1u64 << (t1.len() as u64);
    let mut progress = ProgressReporter::new("bloom_t1", total as usize);
    let builder = Builder::new(filter_size, hashes);
    let mut f0 = builder.on_node(0);
    let mut f1 = builder.on_node(1);
    proof {
        f0.wf_facts();
        f1.wf_facts();
    }
    let ghost seeds_g = f0.seeds();
    let ghost mask_g = f0.mask_spec();
    let product_set = ProductSet::new(t1, crate::modulus::OptiM {  });
    let ghost els = t1@;
    let ghost m: int = M as int;

    let per_task = total / n_tasks;
    let mut task: u64 = 0;
    let ghost mut covered: int = 0;
    while task < n_tasks
        invariant
            product_set.wf(),
            product_set.elems_seq() == els,
            product_set.m() == m,
            els.len() < 64,
            total == (1u64 << (els.len() as u64)),
            total <= usize::MAX,
            1 <= n_tasks,
            per_task == total / n_tasks,
            task <= n_tasks,
            covered == if task < n_tasks {
                task * per_task
            } else {
                total as int
            },
            0 <= covered <= total,
            f0.wf(),
            f1.wf(),
            f0.seeds() == seeds_g,
            f1.seeds() == seeds_g,
            f0.mask_spec() == mask_g,
            f1.mask_spec() == mask_g,
            f0.words().len() == f1.words().len(),
            forall|i: u64|
                i < covered ==> f0.spec_maybe_present(#[trigger] ssp_at(els, m, i))
                    || f1.spec_maybe_present(ssp_at(els, m, i)),
            forall|j: int|
                0 <= j < f0.capacity() && f0.bit(j) ==> #[trigger] bit_selected_by(
                    seeds_g,
                    mask_g,
                    els,
                    m,
                    covered,
                    j,
                ),
            forall|j: int|
                0 <= j < f1.capacity() && f1.bit(j) ==> #[trigger] bit_selected_by(
                    seeds_g,
                    mask_g,
                    els,
                    m,
                    covered,
                    j,
                ),
            progress.wf(),
            progress.total_spec() == total,
            progress.counted() == covered,
        decreases n_tasks - task,
    {
        let (start, end) = task_range(task, n_tasks, total);
        proof {
            assert(start == covered);
            lemma_mul_inequality(task as int + 1, n_tasks as int, per_task as int);
        }
        if task % 2 == 0 {
            let ghost pre0 = f0;
            bloom_t1_kernel(&product_set, start, end, &mut f0, &mut progress);
            proof {
                assert forall|i: u64| i < end implies f0.spec_maybe_present(
                    #[trigger] ssp_at(els, m, i),
                ) || f1.spec_maybe_present(ssp_at(els, m, i)) by {
                    if i < covered {
                        if pre0.spec_maybe_present(ssp_at(els, m, i)) {
                            lemma_no_false_negative(pre0, f0, ssp_at(els, m, i));
                        }
                    }
                }
                assert forall|j: int|
                    0 <= j < f0.capacity() && f0.bit(j) implies #[trigger] bit_selected_by(
                    seeds_g,
                    mask_g,
                    els,
                    m,
                    end as int,
                    j,
                ) by {
                    if pre0.bit(j) {
                        assert(bit_selected_by(seeds_g, mask_g, els, m, covered, j));
                        lemma_bit_selected_by_widen(seeds_g, mask_g, els, m, covered, end as int, j);
                    }
                }
                assert forall|j: int|
                    0 <= j < f1.capacity() && f1.bit(j) implies #[trigger] bit_selected_by(
                    seeds_g,
                    mask_g,
                    els,
                    m,
                    end as int,
                    j,
                ) by {
                    assert(bit_selected_by(seeds_g, mask_g, els, m, covered, j));
                    lemma_bit_selected_by_widen(seeds_g, mask_g, els, m, covered, end as int, j);
                }
            }
        } else {
            let ghost pre1 = f1;
            bloom_t1_kernel(&product_set, start, end, &mut f1, &mut progress);
            proof {
                assert forall|i: u64| i < end implies f0.spec_maybe_present(
                    #[trigger] ssp_at(els, m, i),
                ) || f1.spec_maybe_present(ssp_at(els, m, i)) by {
                    if i < covered {
                        if pre1.spec_maybe_present(ssp_at(els, m, i)) {
                            lemma_no_false_negative(pre1, f1, ssp_at(els, m, i));
                        }
                    }
                }
                assert forall|j: int|
                    0 <= j < f1.capacity() && f1.bit(j) implies #[trigger] bit_selected_by(
                    seeds_g,
                    mask_g,
                    els,
                    m,
                    end as int,
                    j,
                ) by {
                    if pre1.bit(j) {
                        assert(bit_selected_by(seeds_g, mask_g, els, m, covered, j));
                        lemma_bit_selected_by_widen(seeds_g, mask_g, els, m, covered, end as int, j);
                    }
                }
                assert forall|j: int|
                    0 <= j < f0.capacity() && f0.bit(j) implies #[trigger] bit_selected_by(
                    seeds_g,
                    mask_g,
                    els,
                    m,
                    end as int,
                    j,
                ) by {
                    assert(bit_selected_by(seeds_g, mask_g, els, m, covered, j));
                    lemma_bit_selected_by_widen(seeds_g, mask_g, els, m, covered, end as int, j);
                }
            }
        }
        proof {
            covered = if task + 1 < n_tasks {
                (task + 1) * per_task as int
            } else {
                total as int
            };
            lemma_mul_is_distributive_add_other_way(per_task as int, task as int, 1);
            lemma_mul_nonnegative(task as int, per_task as int);
        }
        task = task + 1;
    }

    // Merge the two shards so both hold the union of all insertions.
    let ghost pre0 = f0;
    let ghost pre1 = f1;
    f0.cross_or(&mut f1);
    proof {
        assert forall|i: u64| i < total implies f0.spec_maybe_present(
            #[trigger] ssp_at(els, m, i),
        ) && f1.spec_maybe_present(ssp_at(els, m, i)) by {
            let v = ssp_at(els, m, i);
            if pre0.spec_maybe_present(v) {
                lemma_no_false_negative(pre0, f0, v);
                lemma_no_false_negative(pre0, f1, v);
            } else {
                lemma_no_false_negative(pre1, f0, v);
                lemma_no_false_negative(pre1, f1, v);
            }
        }
        assert forall|j: int|
            0 <= j < f0.capacity() && f0.bit(j) implies #[trigger] bit_selected_by(
            seeds_g,
            mask_g,
            els,
            m,
            total as int,
            j,
        ) by {
            if pre0.bit(j) {
                assert(bit_selected_by(seeds_g, mask_g, els, m, total as int, j));
            } else {
                assert(pre1.bit(j));
                assert(bit_selected_by(seeds_g, mask_g, els, m, total as int, j));
            }
        }
        assert forall|j: int|
            0 <= j < f1.capacity() && f1.bit(j) implies #[trigger] bit_selected_by(
            seeds_g,
            mask_g,
            els,
            m,
            total as int,
            j,
        ) by {
            lemma_words_equal_bits(f1, f0, j);
        }
    }
    (f0, f1)
}


broadcast use vstd::std_specs::hash::group_hash_axioms;

/// One positive probe, as recorded: the Gray mask, narrowed to 32 bits, and
/// the subset product it selects.
pub open spec fn probe_pair(els: Seq<u64>, m: int, i: u64) -> (u32, u64) {
    ((gray(i) as u32), ssp_at(els, m, i))
}

/// Bits of a codeword below a power of two address only real elements.
proof fn lemma_mask_bits(g: u64, n: u64, j: u64)
    requires
        n <= 32,
        g < (1u64 << n),
        j < 32,
        ((g as u32) & (1u32 << (j as u32))) != 0,
    ensures
        j < n,
{
    assert(j < n) by (bit_vector)
        requires
            n <= 32,
            g < (1u64 << n),
            j < 32,
            ((g as u32) & (1u32 << (j as u32))) != 0,
    ;
}

/// Probes the filter with the subset products of one codeword range and
/// returns the positives, each as its (mask, product) pair: every recorded
/// product is one the filter answers positively, and every product of the
/// range that the filter answers positively is recorded.
pub fn build_t2_kernel<Md: Modulus>(
    filter: &BloomFilter,
    progress: &mut ProgressReporter,
    product_set: &ProductSet<Md>,
    start: u64,
    end: u64,
) -> (out: Vec<(u32, u64)>)
    requires
        product_set.wf(),
        product_set.n() <= 32,
        start <= end,
        end <= (1u64 << (product_set.n() as u64)),
        filter.wf(),
        old(progress).wf(),
        old(progress).counted() + (end - start) <= old(progress).total_spec(),
    ensures
        forall|k: int|
            0 <= k < out@.len() ==> filter.spec_maybe_present(#[trigger] out@[k].1)
                && (out@[k].0 as u64) < (1u64 << (product_set.n() as u64)),
        forall|k: int|
            0 <= k < out@.len() ==> subset_product(
                product_set.elems_seq(),
                (#[trigger] out@[k].0) as u64,
                product_set.m(),
            ) == out@[k].1,
        forall|i: u64|
            start <= i < end && filter.spec_maybe_present(
                #[trigger] ssp_at(product_set.elems_seq(), product_set.m(), i),
            ) ==> out@.contains(probe_pair(product_set.elems_seq(), product_set.m(), i)),
        final(progress).wf(),
        final(progress).total_spec() == old(progress).total_spec(),
        final(progress).counted() == old(progress).counted() + (end - start),
{
    let ghost els = product_set.elems_seq();
    let ghost m = product_set.m();
    let ghost n: u64 = product_set.elems_seq().len() as u64;
    let mut out: Vec<(u32, u64)> = Vec::new();
    let mut handle = progress.handle();
    let mut it = ProductIter::new(product_set, start, end);
    loop
        invariant
            start <= end,
            it.wf(),
            it.pset() == *product_set,
            product_set.wf(),
            product_set.n() <= 32,
            it.end_spec() == end,
            start <= it.idx() <= end,
            end <= (1u64 << n),
            els == product_set.elems_seq(),
            m == product_set.m(),
            n == els.len(),
            filter.wf(),
            forall|k: int|
                0 <= k < out@.len() ==> filter.spec_maybe_present(#[trigger] out@[k].1) && (
                out@[k].0 as u64) < (1u64 << n),
            forall|k: int|
                0 <= k < out@.len() ==> subset_product(els, (#[trigger] out@[k].0) as u64, m)
                    == out@[k].1,
            forall|i: u64|
                start <= i < it.idx() && filter.spec_maybe_present(#[trigger] ssp_at(els, m, i))
                    ==> out@.contains(probe_pair(els, m, i)),
            handle.wf(),
            progress.wf(),
            progress.total_spec() == old(progress).total_spec(),
            old(progress).counted() + (end - start) <= progress.total_spec(),
            progress.counted() + handle.pending() == old(progress).counted() + (it.idx() - start),
        decreases it.end_spec() - it.idx() + 1,
    {
        let ghost pre_idx = it.idx();
        match it.next() {
            Some(pair) => {
                let (mask, ssp) = pair;
                proof {
                    crate::gray_prod_iter::lemma_gray_bound(pre_idx as u64, n);
                    let g = gray(pre_idx as u64);
                    assert(g < (1u64 << n) ==> ((g as u32) as u64) < (1u64 << n) && ((g as u32)
                        as u64) == g) by (bit_vector)
                        requires
                            n <= 32,
                    ;
                }
                if filter.maybe_present(&ssp) {
                    let ghost pre_out = out@;
                    out.push((mask as u32, ssp));
                    proof {
                        assert(out@[pre_out.len() as int] == probe_pair(els, m, pre_idx as u64));
                        assert(subset_product(els, (out@[pre_out.len() as int].0) as u64, m)
                            == out@[pre_out.len() as int].1);
                        assert forall|i: u64|
                            start <= i < it.idx() && filter.spec_maybe_present(
                                #[trigger] ssp_at(els, m, i),
                            ) implies out@.contains(probe_pair(els, m, i)) by {
                            if i < pre_idx {
                                let w = choose|w: int|
                                    0 <= w < pre_out.len() && pre_out[w] == probe_pair(els, m, i);
                                assert(out@[w] == probe_pair(els, m, i));
                            } else {
                                assert(out@[pre_out.len() as int] == probe_pair(els, m, i));
                            }
                        }
                    }
                } else {
                    proof {
                        assert forall|i: u64|
                            start <= i < it.idx() && filter.spec_maybe_present(
                                #[trigger] ssp_at(els, m, i),
                            ) implies out@.contains(probe_pair(els, m, i)) by {
                            assert(i != pre_idx);
                        }
                    }
                }
                handle.report(progress, 1);
            },
            None => {
                handle.push(progress);
                return out;
            },
        }
    }
}

/// Probes the merged filter with every subset product of `t2` and collects
/// the positives into a map from product to the 32-bit Gray mask of an index
/// that produced it. Every key is a product the filter answers positively,
/// its stored mask selects a subset whose product is the key itself, and
/// every positively answered product of the whole range is a key.
pub fn build_t2(filter: &BloomFilter, t2: &[u64], n_tasks: u64) -> (map: std::collections::HashMap<
    u64,
    u32,
>)
    requires
        t2@.len() <= 32,
        forall|i: int| 0 <= i < t2@.len() ==> #[trigger] t2@[i] < M,
        forall|i: int|
            0 <= i < t2@.len() ==> crate::modulus::gcd(#[trigger] t2@[i] as nat, M as nat) == 1,
        filter.wf(),
        1 <= n_tasks,
        (1u64 << (t2@.len() as u64)) <= usize::MAX,
    ensures
        forall|q: u64| map@.contains_key(q) ==> #[trigger] filter.spec_maybe_present(q),
        forall|q: u64|
            map@.contains_key(q) ==> (#[trigger] map@[q] as u64) < (1u64 << (t2@.len() as u64)),
        forall|q: u64|
            map@.contains_key(q) ==> subset_product(t2@, (#[trigger] map@[q]) as u64, M as int)
                == q,
        forall|i: u64|
            i < (1u64 << (t2@.len() as u64)) && filter.spec_maybe_present(
                #[trigger] ssp_at(t2@, M as int, i),
            ) ==> map@.contains_key(ssp_at(t2@, M as int, i)),
{
    let total: u64 = 1u64 << (t2.len() as u64);
    let mut progress = ProgressReporter::new("t2_map", total as usize);
    let product_set = ProductSet::new(t2, crate::modulus::OptiM {  });
    let ghost els = t2@;
    let ghost m: int = M as int;
    let ghost n: u64 = t2@.len() as u64;

    let mut hashmap: std::collections::HashMap<u64, u32> = std::collections::HashMap::new();
    let per_task = total / n_tasks;
    let mut task: u64 = 0;
    let ghost mut covered: int = 0;
    while task < n_tasks
        invariant
            product_set.wf(),
            product_set.elems_seq() == els,
            product_set.m() == m,
            els.len() <= 32,
            n == els.len(),
            total == (1u64 << n),
            total <= usize::MAX,
            1 <= n_tasks,
            per_task == total / n_tasks,
            task <= n_tasks,
            covered == if task < n_tasks {
                task * per_task
            } else {
                total as int
            },
            0 <= covered <= total,
            filter.wf(),
            forall|q: u64| hashmap@.contains_key(q) ==> #[trigger] filter.spec_maybe_present(q),
            forall|q: u64|
                hashmap@.contains_key(q) ==> (#[trigger] hashmap@[q] as u64) < (1u64 << n),
            forall|q: u64|
                hashmap@.contains_key(q) ==> subset_product(els, (#[trigger] hashmap@[q]) as u64, m)
                    == q,
            forall|i: u64|
                i < covered && filter.spec_maybe_present(#[trigger] ssp_at(els, m, i))
                    ==> hashmap@.contains_key(ssp_at(els, m, i)),
            progress.wf(),
            progress.total_spec() == total,
            progress.counted() == covered,
        decreases n_tasks - task,
    {
        let (start, end) = task_range(task, n_tasks, total);
        proof {
            assert(start == covered);
            lemma_mul_inequality(task as int + 1, n_tasks as int, per_task as int);
        }
        let vals = build_t2_kernel(filter, &mut progress, &product_set, start, end);
        let ghost pre_map = hashmap@;
        let mut k: usize = 0;
        while k < vals.len()
            invariant
                forall|q: u64| pre_map.contains_key(q) ==> #[trigger] hashmap@.contains_key(q),
                forall|kk: int|
                    0 <= kk < vals@.len() ==> filter.spec_maybe_present(#[trigger] vals@[kk].1) && (
                    vals@[kk].0 as u64) < (1u64 << n),
                forall|kk: int|
                    0 <= kk < vals@.len() ==> subset_product(els, (#[trigger] vals@[kk].0) as u64, m)
                        == vals@[kk].1,
                k <= vals@.len(),
                filter.wf(),
                forall|q: u64|
                    hashmap@.contains_key(q) ==> #[trigger] filter.spec_maybe_present(q),
                forall|q: u64|
                    hashmap@.contains_key(q) ==> (#[trigger] hashmap@[q] as u64) < (1u64 << n),
                forall|q: u64|
                    hashmap@.contains_key(q) ==> subset_product(els, (#[trigger] hashmap@[q]) as u64, m)
                        == q,
                forall|kk: int|
                    0 <= kk < k ==> hashmap@.contains_key(#[trigger] vals@[kk].1),
            decreases vals@.len() - k,
        {
            let (v, q) = vals[k];
            hashmap.insert(q, v);
            proof {
                assert(hashmap@.contains_key(q) && hashmap@[q] == v);
            }
            k = k + 1;
        }
        proof {
            assert forall|i: u64|
                i < end && filter.spec_maybe_present(#[trigger] ssp_at(els, m, i)) implies hashmap@
                .contains_key(ssp_at(els, m, i)) by {
                if covered <= i < end {
                    let p = probe_pair(els, m, i);
                    assert(vals@.contains(p));
                    let w = choose|w: int| 0 <= w < vals@.len() && vals@[w] == p;
                    assert(hashmap@.contains_key(vals@[w].1));
                } else {
                    assert(pre_map.contains_key(ssp_at(els, m, i)));
                }
            }
            covered = if task + 1 < n_tasks {
                (task + 1) * per_task as int
            } else {
                total as int
            };
            lemma_mul_is_distributive_add_other_way(per_task as int, task as int, 1);
            lemma_mul_nonnegative(task as int, per_task as int);
        }
        task = task + 1;
    }
    hashmap
}


/// The candidate value a sieve hit at index `i` reconstructs: one plus twice
/// the product of the masked elements of both halves (the factor two is part
/// of the selected factor list).
pub open spec fn sieve_hit_value(
    t1els: Seq<u64>,
    t2map: Map<u64, u32>,
    t1: Seq<u64>,
    t2: Seq<u64>,
    i: u64,
) -> int {
    let q = ssp_at(t1els, M as int, i);
    crate::magic_numbers::prod_all(
        crate::magic_numbers::selected_factors(t1, t2, gray(i) as u32, t2map[q]),
    ) + 1
}

/// Whether enumeration index `i` is a sieve hit: its product is a key of the
/// probe map, and the reconstructed candidate is large enough and passes the
/// probable-prime test.
pub open spec fn sieve_hit(
    t1els: Seq<u64>,
    t2map: Map<u64, u32>,
    t1: Seq<u64>,
    t2: Seq<u64>,
    min_n: int,
    i: u64,
) -> bool {
    let q = ssp_at(t1els, M as int, i);
    &&& t2map.contains_key(q)
    &&& sieve_hit_value(t1els, t2map, t1, t2, i) > min_n
    &&& crate::magic_numbers::probable_prime_of(sieve_hit_value(t1els, t2map, t1, t2, i), 15)
}

/// Provenance of one reported pseudoprime: some enumeration index in
/// `[start, end)` whose subset product is a key of the probe map selected
/// exactly the recorded factor list, via its Gray mask and the mask the map
/// stores for that key.
pub open spec fn from_sieve_hit(
    t1els: Seq<u64>,
    t2map: Map<u64, u32>,
    t1: Seq<u64>,
    t2: Seq<u64>,
    start: int,
    end: int,
    p: crate::magic_numbers::Pseudoprime,
) -> bool {
    exists|i: u64|
        start <= i < end && {
            let q = #[trigger] ssp_at(t1els, M as int, i);
            &&& t2map.contains_key(q)
            &&& crate::magic_numbers::ints_of(p.factors@) == crate::magic_numbers::seq_as_ints(
                crate::magic_numbers::selected_factors(t1, t2, gray(i) as u32, t2map[q]),
            )
        }
}

proof fn lemma_from_sieve_hit_widen(
    t1els: Seq<u64>,
    t2map: Map<u64, u32>,
    t1: Seq<u64>,
    t2: Seq<u64>,
    start: int,
    end: int,
    start2: int,
    end2: int,
    p: crate::magic_numbers::Pseudoprime,
)
    requires
        from_sieve_hit(t1els, t2map, t1, t2, start, end, p),
        start2 <= start,
        end <= end2,
    ensures
        from_sieve_hit(t1els, t2map, t1, t2, start2, end2, p),
{
    let i = choose|i: u64|
        start <= i < end && {
            let q = #[trigger] ssp_at(t1els, M as int, i);
            &&& t2map.contains_key(q)
            &&& crate::magic_numbers::ints_of(p.factors@) == crate::magic_numbers::seq_as_ints(
                crate::magic_numbers::selected_factors(t1, t2, gray(i) as u32, t2map[q]),
            )
        };
    assert(start2 <= i < end2 && {
        let q = ssp_at(t1els, M as int, i);
        &&& t2map.contains_key(q)
        &&& crate::magic_numbers::ints_of(p.factors@) == crate::magic_numbers::seq_as_ints(
            crate::magic_numbers::selected_factors(t1, t2, gray(i) as u32, t2map[q]),
        )
    });
}

/// Whether some recorded pseudoprime holds the value `n`.
pub open spec fn has_value(rs: Seq<crate::magic_numbers::Pseudoprime>, n: int) -> bool {
    exists|k: int| 0 <= k < rs.len() && crate::magic_numbers::int_of(#[trigger] rs[k].pseudoprime)
        == n
}

proof fn lemma_has_value_push(rs: Seq<crate::magic_numbers::Pseudoprime>, p: crate::magic_numbers::Pseudoprime, n: int)
    requires
        has_value(rs, n),
    ensures
        has_value(rs.push(p), n),
{
    let k = choose|k: int|
        0 <= k < rs.len() && crate::magic_numbers::int_of(#[trigger] rs[k].pseudoprime) == n;
    assert(rs.push(p)[k] == rs[k]);
}

/// Relies on writeln to standard output; display only.
#[verifier::external_body]
fn print_sieve_summary(found: usize, misses: u64, t2_false_positives: u64) {
    let _ = writeln!(
        std::io::stdout(),
        "Found {} pseudoprimes, with {} T3 misses, {} T2 false positives",
        found,
        misses,
        t2_false_positives,
    );
}

/// Recomputes the subset products of one codeword range, looks each up in
/// the probe map, and on a hit runs the bignum primality check: every hit
/// whose candidate passes is recorded, and everything recorded passed and
/// traces back to a hit of the range.
pub fn final_sieve_kernel<Md: Modulus>(
    t1_product_set: &ProductSet<Md>,
    t2map: &std::collections::HashMap<u64, u32>,
    start_idx: u64,
    end_idx: u64,
    t1: &[u64],
    t2: &[u64],
    min_n: &rug::Integer,
    t3_misses: &mut u64,
    results: &mut Vec<crate::magic_numbers::Pseudoprime>,
)
    requires
        t1_product_set.wf(),
        t1_product_set.m() == M as int,
        t1_product_set.n() <= 32,
        t1_product_set.n() <= t1@.len(),
        t2@.len() <= 32,
        forall|q: u64|
            t2map@.contains_key(q) ==> (#[trigger] t2map@[q] as u64) < (1u64 << (
            t2@.len() as u64)),
        start_idx <= end_idx,
        end_idx <= (1u64 << (t1_product_set.n() as u64)),
        *old(t3_misses) + (end_idx - start_idx) <= u64::MAX,
    ensures
        final(results)@.len() >= old(results)@.len(),
        forall|k: int|
            0 <= k < old(results)@.len() ==> final(results)@[k] == old(results)@[k],
        forall|k: int|
            old(results)@.len() <= k < final(results)@.len()
                ==> crate::magic_numbers::pseudoprime_ok(
                #[trigger] final(results)@[k],
                crate::magic_numbers::int_of(*min_n),
            ),
        forall|k: int|
            old(results)@.len() <= k < final(results)@.len() ==> #[trigger] from_sieve_hit(
                t1_product_set.elems_seq(),
                t2map@,
                t1@,
                t2@,
                start_idx as int,
                end_idx as int,
                final(results)@[k],
            ),
        forall|i: u64|
            start_idx <= i < end_idx && sieve_hit(
                t1_product_set.elems_seq(),
                t2map@,
                t1@,
                t2@,
                crate::magic_numbers::int_of(*min_n),
                i,
            ) ==> #[trigger] has_value(
                final(results)@,
                sieve_hit_value(t1_product_set.elems_seq(), t2map@, t1@, t2@, i),
            ),
        *final(t3_misses) >= *old(t3_misses),
        *final(t3_misses) - *old(t3_misses) <= end_idx - start_idx,
{
    let ghost els = t1_product_set.elems_seq();
    let ghost n: u64 = t1_product_set.elems_seq().len() as u64;
    let ghost mn: int = crate::magic_numbers::int_of(*min_n);
    let mut it = ProductIter::new(t1_product_set, start_idx, end_idx);
    loop
        invariant
            start_idx <= end_idx,
            it.wf(),
            it.pset() == *t1_product_set,
            t1_product_set.wf(),
            t1_product_set.m() == M as int,
            t1_product_set.n() <= 32,
            t1_product_set.n() <= t1@.len(),
            t2@.len() <= 32,
            forall|q: u64|
                t2map@.contains_key(q) ==> (#[trigger] t2map@[q] as u64) < (1u64 << (
                t2@.len() as u64)),
            it.end_spec() == end_idx,
            start_idx <= it.idx() <= end_idx,
            end_idx <= (1u64 << n),
            *old(t3_misses) + (end_idx - start_idx) <= u64::MAX,
            els == t1_product_set.elems_seq(),
            n == els.len(),
            mn == crate::magic_numbers::int_of(*min_n),
            results@.len() >= old(results)@.len(),
            forall|k: int| 0 <= k < old(results)@.len() ==> results@[k] == old(results)@[k],
            forall|k: int|
                old(results)@.len() <= k < results@.len()
                    ==> crate::magic_numbers::pseudoprime_ok(#[trigger] results@[k], mn),
            forall|k: int|
                old(results)@.len() <= k < results@.len() ==> #[trigger] from_sieve_hit(
                    els,
                    t2map@,
                    t1@,
                    t2@,
                    start_idx as int,
                    end_idx as int,
                    results@[k],
                ),
            forall|i: u64|
                start_idx <= i < it.idx() && sieve_hit(els, t2map@, t1@, t2@, mn, i)
                    ==> #[trigger] has_value(
                    results@,
                    sieve_hit_value(els, t2map@, t1@, t2@, i),
                ),
            *t3_misses >= *old(t3_misses),
            *t3_misses - *old(t3_misses) <= it.idx() - start_idx,
        decreases it.end_spec() - it.idx() + 1,
    {
        let ghost pre_idx = it.idx();
        match it.next() {
            Some(pair) => {
                let (t1_mask, v) = pair;
                proof {
                    crate::gray_prod_iter::lemma_gray_bound(pre_idx as u64, n);
                    assert forall|j: int|
                        0 <= j < 32 && (t1_mask as u32) & (1u32 << (#[trigger] (j as u32))) != 0
                        implies j < t1@.len() by {
                        lemma_mask_bits(t1_mask, n, j as u64);
                    }
                }
                match t2map.get(&v) {
                    Some(t2_mask_ref) => {
                        let t2_mask = *t2_mask_ref;
                        proof {
                            assert(t2map@.contains_key(v) && t2map@[v] == t2_mask);
                            assert forall|j: int|
                                0 <= j < 32 && t2_mask & (1u32 << (#[trigger] (j as u32))) != 0
                                implies j < t2@.len() by {
                                lemma_mask_bits(
                                    t2_mask as u64,
                                    t2@.len() as u64,
                                    j as u64,
                                );
                            }
                        }
                        match crate::magic_numbers::check_prime(
                            min_n,
                            t1,
                            t2,
                            t1_mask as u32,
                            t2_mask,
                        ) {
                            Some(result) => {
                                let ghost pre_rs = results@;
                                proof {
                                    crate::magic_numbers::lemma_prod_int_of_matches(
                                        result.factors@,
                                        crate::magic_numbers::selected_factors(
                                            t1@,
                                            t2@,
                                            t1_mask as u32,
                                            t2_mask,
                                        ),
                                    );
                                }
                                results.push(result);
                                proof {
                                    assert(results@[pre_rs.len() as int] == result);
                                    assert(crate::magic_numbers::pseudoprime_ok(
                                        results@[pre_rs.len() as int],
                                        mn,
                                    ));
                                    let sel = crate::magic_numbers::selected_factors(
                                        t1@,
                                        t2@,
                                        t1_mask as u32,
                                        t2_mask,
                                    );
                                    assert(crate::magic_numbers::ints_of(result.factors@)
                                        =~= crate::magic_numbers::seq_as_ints(sel));
                                    assert(start_idx <= (pre_idx as u64) < end_idx && {
                                        let q = ssp_at(els, M as int, pre_idx as u64);
                                        &&& t2map@.contains_key(q)
                                        &&& crate::magic_numbers::ints_of(result.factors@)
                                            == crate::magic_numbers::seq_as_ints(
                                            crate::magic_numbers::selected_factors(
                                                t1@,
                                                t2@,
                                                gray(pre_idx as u64) as u32,
                                                t2map@[q],
                                            ),
                                        )
                                    });
                                    assert(from_sieve_hit(
                                        els,
                                        t2map@,
                                        t1@,
                                        t2@,
                                        start_idx as int,
                                        end_idx as int,
                                        results@[pre_rs.len() as int],
                                    ));
                                    assert forall|i: u64|
                                        start_idx <= i < it.idx() && sieve_hit(
                                            els,
                                            t2map@,
                                            t1@,
                                            t2@,
                                            mn,
                                            i,
                                        ) implies #[trigger] has_value(
                                        results@,
                                        sieve_hit_value(els, t2map@, t1@, t2@, i),
                                    ) by {
                                        if i < pre_idx {
                                            lemma_has_value_push(
                                                pre_rs,
                                                result,
                                                sieve_hit_value(els, t2map@, t1@, t2@, i),
                                            );
                                        } else {
                                            assert(crate::magic_numbers::int_of(
                                                results@[pre_rs.len() as int].pseudoprime,
                                            ) == sieve_hit_value(els, t2map@, t1@, t2@, i));
                                        }
                                    }
                                }
                            },
                            None => {
                                *t3_misses = *t3_misses + 1;
                                proof {
                                    assert(!sieve_hit(els, t2map@, t1@, t2@, mn, pre_idx as u64));
                                }
                            },
                        }
                    },
                    None => {
                        proof {
                            assert(!t2map@.contains_key(v));
                            assert(!sieve_hit(els, t2map@, t1@, t2@, mn, pre_idx as u64));
                        }
                    },
                }
            },
            None => {
                return ;
            },
        }
    }
}

/// Recomputes the subset products of the first half's inverses, matches each
/// against the probe map, and reports every reconstructed candidate that
/// exceeds the floor and passes the probable-prime test. Each reported
/// factor list traces back to an enumeration index whose product is a map
/// key, via that index's Gray mask and the mask the map stores.
pub fn final_sieve(
    t1_forward: &[u64],
    t2map: std::collections::HashMap<u64, u32>,
    t1: &[u64],
    t2: &[u64],
    min_n: &rug::Integer,
    n_tasks: u64,
) -> (results: Vec<crate::magic_numbers::Pseudoprime>)
    requires
        t1_forward@.len() <= 32,
        t1_forward@.len() <= t1@.len(),
        forall|i: int| 0 <= i < t1_forward@.len() ==> #[trigger] t1_forward@[i] < M,
        forall|i: int|
            0 <= i < t1_forward@.len() ==> crate::modulus::gcd(
                #[trigger] t1_forward@[i] as nat,
                M as nat,
            ) == 1,
        t2@.len() <= 32,
        forall|q: u64|
            t2map@.contains_key(q) ==> (#[trigger] t2map@[q] as u64) < (1u64 << (
            t2@.len() as u64)),
        1 <= n_tasks,
    ensures
        forall|k: int|
            0 <= k < results@.len() ==> crate::magic_numbers::pseudoprime_ok(
                #[trigger] results@[k],
                crate::magic_numbers::int_of(*min_n),
            ),
        forall|k: int|
            0 <= k < results@.len() ==> #[trigger] from_sieve_hit(
                t1_forward@,
                t2map@,
                t1@,
                t2@,
                0,
                (1u64 << (t1_forward@.len() as u64)) as int,
                results@[k],
            ),
        forall|i: u64|
            i < (1u64 << (t1_forward@.len() as u64)) && sieve_hit(
                t1_forward@,
                t2map@,
                t1@,
                t2@,
                crate::magic_numbers::int_of(*min_n),
                i,
            ) ==> #[trigger] has_value(
                results@,
                sieve_hit_value(t1_forward@, t2map@, t1@, t2@, i),
            ),
{
    let total: u64 = 1u64 << (t1_forward.len() as u64);
    let t1_product_set = ProductSet::new(t1_forward, crate::modulus::OptiM {  });
    let ghost els = t1_forward@;
    let ghost mn: int = crate::magic_numbers::int_of(*min_n);
    let mut results: Vec<crate::magic_numbers::Pseudoprime> = Vec::new();
    let mut t3_misses: u64 = 0;

    let per_task = total / n_tasks;
    let mut task: u64 = 0;
    let ghost mut covered: int = 0;
    while task < n_tasks
        invariant
            t1_product_set.wf(),
            t1_product_set.elems_seq() == els,
            t1_product_set.m() == M as int,
            els.len() <= 32,
            els.len() <= t1@.len(),
            t2@.len() <= 32,
            forall|q: u64|
                t2map@.contains_key(q) ==> (#[trigger] t2map@[q] as u64) < (1u64 << (
                t2@.len() as u64)),
            total == (1u64 << (els.len() as u64)),
            1 <= n_tasks,
            per_task == total / n_tasks,
            task <= n_tasks,
            covered == if task < n_tasks {
                task * per_task
            } else {
                total as int
            },
            0 <= covered <= total,
            mn == crate::magic_numbers::int_of(*min_n),
            forall|k: int|
                0 <= k < results@.len() ==> crate::magic_numbers::pseudoprime_ok(
                    #[trigger] results@[k],
                    mn,
                ),
            forall|k: int|
                0 <= k < results@.len() ==> #[trigger] from_sieve_hit(
                    els,
                    t2map@,
                    t1@,
                    t2@,
                    0,
                    total as int,
                    results@[k],
                ),
            forall|i: u64|
                i < covered && sieve_hit(els, t2map@, t1@, t2@, mn, i) ==> #[trigger] has_value(
                    results@,
                    sieve_hit_value(els, t2map@, t1@, t2@, i),
                ),
            t3_misses <= covered,
        decreases n_tasks - task,
    {
        let (start, end) = task_range(task, n_tasks, total);
        proof {
            assert(start == covered);
            lemma_mul_inequality(task as int + 1, n_tasks as int, per_task as int);
        }
        let ghost pre_rs = results@;
        final_sieve_kernel(
            &t1_product_set,
            &t2map,
            start,
            end,
            t1,
            t2,
            min_n,
            &mut t3_misses,
            &mut results,
        );
        proof {
            assert forall|k: int|
                0 <= k < results@.len() implies #[trigger] from_sieve_hit(
                els,
                t2map@,
                t1@,
                t2@,
                0,
                total as int,
                results@[k],
            ) by {
                if k < pre_rs.len() {
                    assert(results@[k] == pre_rs[k]);
                    assert(from_sieve_hit(els, t2map@, t1@, t2@, 0, total as int, pre_rs[k]));
                } else {
                    lemma_from_sieve_hit_widen(
                        els,
                        t2map@,
                        t1@,
                        t2@,
                        start as int,
                        end as int,
                        0,
                        total as int,
                        results@[k],
                    );
                }
            }
            assert forall|i: u64|
                i < end && sieve_hit(els, t2map@, t1@, t2@, mn, i) implies #[trigger] has_value(
                results@,
                sieve_hit_value(els, t2map@, t1@, t2@, i),
            ) by {
                if i < covered {
                    let nn = sieve_hit_value(els, t2map@, t1@, t2@, i);
                    assert(has_value(pre_rs, nn));
                    let k = choose|k: int|
                        0 <= k < pre_rs.len() && crate::magic_numbers::int_of(
                            #[trigger] pre_rs[k].pseudoprime,
                        ) == nn;
                    assert(results@[k] == pre_rs[k]);
                    assert(crate::magic_numbers::int_of(results@[k].pseudoprime) == nn);
                }
            }
            covered = if task + 1 < n_tasks {
                (task + 1) * per_task as int
            } else {
                total as int
            };
            lemma_mul_is_distributive_add_other_way(per_task as int, task as int, 1);
            lemma_mul_nonnegative(task as int, per_task as int);
        }
        task = task + 1;
    }
    // Map entries that neither produced a result nor failed the primality
    // check never reappeared during the re-enumeration: they were false
    // positives of the probe phase.
    let map_len = t2map.len() as u64;
    let found = results.len() as u64;
    let t2_false_positives = if found <= map_len && t3_misses <= map_len - found {
        map_len - found - t3_misses
    } else {
        0
    };
    print_sieve_summary(results.len(), t3_misses, t2_false_positives);
    results
}


/// Law: the pipeline misses no agreeing pair. Assume the three phase
/// outcomes — the filled filter answers positively for every subset product
/// of the first half (as `bloom_t1` leaves it), the probe map holds every
/// positively answered product of the second half (as `build_t2` leaves it),
/// and every sieve hit has its value among the results (as `final_sieve`
/// leaves them). Then for any pair of enumeration indexes whose subset
/// products agree, that product is a key of the map, and whenever the
/// candidate reconstructed with the stored mask clears the floor and passes
/// the primality test, its value stands among the results.
pub proof fn lemma_pipeline_superset(
    shard: BloomFilter,
    t1els: Seq<u64>,
    t2els: Seq<u64>,
    t2map: Map<u64, u32>,
    t1: Seq<u64>,
    t2: Seq<u64>,
    results: Seq<crate::magic_numbers::Pseudoprime>,
    min_n: int,
    i: u64,
    j: u64,
)
    requires
        forall|x: u64|
            x < (1u64 << (t1els.len() as u64)) ==> shard.spec_maybe_present(
                #[trigger] ssp_at(t1els, M as int, x),
            ),
        forall|x: u64|
            x < (1u64 << (t2els.len() as u64)) && shard.spec_maybe_present(
                #[trigger] ssp_at(t2els, M as int, x),
            ) ==> t2map.contains_key(ssp_at(t2els, M as int, x)),
        forall|x: u64|
            x < (1u64 << (t1els.len() as u64)) && sieve_hit(t1els, t2map, t1, t2, min_n, x)
                ==> #[trigger] has_value(results, sieve_hit_value(t1els, t2map, t1, t2, x)),
        i < (1u64 << (t1els.len() as u64)),
        j < (1u64 << (t2els.len() as u64)),
        ssp_at(t1els, M as int, i) == ssp_at(t2els, M as int, j),
        sieve_hit_value(t1els, t2map, t1, t2, i) > min_n,
        crate::magic_numbers::probable_prime_of(sieve_hit_value(t1els, t2map, t1, t2, i), 15),
    ensures
        t2map.contains_key(ssp_at(t1els, M as int, i)),
        has_value(results, sieve_hit_value(t1els, t2map, t1, t2, i)),
{
    assert(shard.spec_maybe_present(ssp_at(t1els, M as int, i)));
    assert(t2map.contains_key(ssp_at(t2els, M as int, j)));
    assert(sieve_hit(t1els, t2map, t1, t2, min_n, i));
}

} // verus!