use pseudoprimes::gray_prod_iter::{product_range, subsetprod, to_gray, ProductIter, ProductSet};
use pseudoprimes::magic_numbers::compute_r;
use pseudoprimes::modulus::{BasicDivisor, Modulus, OptiM};

/// Computes all subset products in a range, stores a vector of pairs (i, ssp(i)).
fn reference_range<Md: Modulus>(ps: &ProductSet<Md>, start: u64, end: u64) -> Vec<(u64, u64)> {
    let mut out = Vec::new();
    for i in start..end {
        out.push((i, subsetprod(i, ps)));
    }
    out
}

/// Sorts a list of pairs by the first element.
fn sort_range(r: &mut [(u64, u64)]) {
    r.sort_unstable_by(|&(ref ia, _), &(ref ib, _)| ia.cmp(ib));
}

fn collect_iter<Md: Modulus>(ps: &ProductSet<Md>, start: u64, end: u64) -> Vec<(u64, u64)> {
    let mut it = ProductIter::new(ps, start, end);
    let mut out = Vec::new();
    while let Some(pair) = it.next() {
        out.push(pair);
    }
    out
}

#[test]
fn gray_prod_iter_test() {
    let r = compute_r();
    assert_eq!(r.len(), 64);
    let ps = ProductSet::new(&r[0..63], OptiM {});

    // compute the subset products using the gray code iterator
    // this range must be from 0 to a power of 2 for the test to work.
    let mut gray: Vec<(u64, u64)> = collect_iter(&ps, 0, 0x10);

    // check that adjacent gray code words differ by one bit
    for i in 0..gray.len() - 1 {
        let (gcw1, _) = gray[i];
        let (gcw2, _) = gray[i + 1];
        assert_eq!((gcw1 ^ gcw2).count_ones(), 1);
    }

    sort_range(&mut gray);
    // compute the same subset products using the masking method
    let reference = reference_range(&ps, 0, 0x10);
    // make sure they are the same
    assert_eq!(gray, reference);

    let gray: Vec<(u64, u64)> = collect_iter(&ps, 0x1000, 0x1200);
    // check that the length of a custom range is correct
    assert_eq!(0x200, gray.len());
    // check that the subset products in this range are correct
    for (k, v) in gray {
        assert_eq!(subsetprod(k, &ps), v);
    }
}

#[test]
fn test_small_product_set() {
    // ProductSet over [3, 5, 7, 11] with modulus 1000003: enumerating
    // [0, 16) yields 16 pairs; gray(0) = 0 selects the empty product 1 and
    // gray(15) = 8 selects element 11 alone.
    let ps = ProductSet::new(&[3, 5, 7, 11], BasicDivisor::new(1000003));
    let pairs = product_range(&ps, 0, 16);
    assert_eq!(pairs.len(), 16);
    assert_eq!(pairs[0], (0, 1));
    assert_eq!(to_gray(15), 8);
    assert_eq!(pairs[15], (8, 11));
}

#[test]
fn test_product_range_length() {
    let ps = ProductSet::new(&[3, 5, 7, 11, 13], BasicDivisor::new(1000003));
    for (start, end) in [(0u64, 0u64), (0, 32), (5, 17), (31, 32), (3, 3)] {
        let pairs = product_range(&ps, start, end);
        assert_eq!(pairs.len(), (end - start) as usize);
        for (k, idx) in pairs.iter().zip(start..end) {
            assert_eq!(k.0, to_gray(idx));
            assert_eq!(k.1, subsetprod(k.0, &ps));
        }
    }
}

#[test]
fn test_sorted_masks_cover_task_range() {
    // ProductIter over T1_INVERSE with range [0, N_TASKS): the sorted masks
    // are exactly 0..N_TASKS, because the Gray code is a bijection there.
    const N_TASKS: u64 = 1 << 16;
    let r = compute_r();
    assert_eq!(r.len(), 64);
    let t1: Vec<u64> = r[0..32].to_vec();
    let t1_inverse = pseudoprimes::modulus::inverse(&t1, OptiM {});
    let ps = ProductSet::new(&t1_inverse, OptiM {});
    let pairs = product_range(&ps, 0, N_TASKS);
    assert_eq!(pairs.len(), N_TASKS as usize);
    let mut masks: Vec<u64> = pairs.iter().map(|p| p.0).collect();
    masks.sort_unstable();
    for (expect, got) in (0..N_TASKS).zip(masks.iter()) {
        assert_eq!(expect, *got);
    }
}
