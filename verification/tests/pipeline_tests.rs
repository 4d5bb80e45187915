use pseudoprimes::bloomfilter::{bloom_t1, build_t2, final_sieve, task_range};
use pseudoprimes::magic_numbers::{check_prime, compute_r, M};
use pseudoprimes::modulus::{inverse, Modulus, OptiM};

/// Subset product of `els` selected by the plain (non-Gray) mask.
fn plain_ssp(els: &[u64], mask: u32) -> u64 {
    let o = OptiM {};
    let mut accum = 1u64;
    for (i, e) in els.iter().enumerate() {
        if mask & (1 << i) != 0 {
            accum = o.mulmod(accum, *e);
        }
    }
    accum
}

#[test]
fn test_pipeline_end_to_end_reduced() {
    // Reduced-scale run: T1 = R[0..4], T2 = R[4..8], FILTER_SIZE = 2^14,
    // k = 2, a low floor so that small candidates count. The pipeline's
    // output must contain every pair that a brute-force enumeration finds.
    let r = compute_r();
    assert_eq!(r.len(), 64);
    let t1: Vec<u64> = r[0..4].to_vec();
    let t2: Vec<u64> = r[4..8].to_vec();
    let t1_inverse = inverse(&t1, OptiM {});
    let low = rug::Integer::from(2);

    let (f0, _f1) = bloom_t1(&t1_inverse, 1 << 14, 2, 4);
    let t2_map = build_t2(&f0, &t2, 4);
    // every stored mask reproduces its key, and every key probed positively
    for (q, mk) in &t2_map {
        assert_eq!(plain_ssp(&t2, *mk), *q);
        assert!(f0.maybe_present(q));
    }
    let results = final_sieve(&t1_inverse, t2_map, &t1, &t2, &low, 4);

    // Brute force: every pair of masks whose subset products agree and whose
    // candidate passes the primality check.
    let mut expected: Vec<rug::Integer> = Vec::new();
    for m1 in 0..16u32 {
        for m2 in 0..16u32 {
            if plain_ssp(&t1_inverse, m1) == plain_ssp(&t2, m2) {
                if let Some(p) = check_prime(&low, &t1, &t2, m1, m2) {
                    expected.push(p.pseudoprime);
                }
            }
        }
    }
    // The empty pair always agrees (both products are 1) and yields 3.
    assert!(expected.contains(&rug::Integer::from(3)));
    assert!(!results.is_empty());
    for e in &expected {
        assert!(
            results.iter().any(|p| p.pseudoprime == *e),
            "missing {}",
            e
        );
    }
    // Everything reported satisfies the candidate shape: the factor list
    // starts with 2 and its product plus one is the reported value.
    for p in &results {
        assert_eq!(p.factors[0], rug::Integer::from(2));
        let mut prod = rug::Integer::from(1);
        for f in &p.factors {
            prod *= f;
        }
        prod += 1;
        assert_eq!(prod, p.pseudoprime);
        assert!(p.pseudoprime > low);
    }
}

#[test]
fn test_task_range_partition() {
    let total = 1000u64;
    let n_tasks = 7u64;
    let mut covered = 0u64;
    for task in 0..n_tasks {
        let (start, end) = task_range(task, n_tasks, total);
        assert_eq!(start, covered);
        assert!(start <= end && end <= total);
        covered = end;
    }
    assert_eq!(covered, total);
    // a single task takes everything, remainder included
    assert_eq!(task_range(0, 1, 17), (0, 17));
}

#[test]
fn test_progress_reporting_runs() {
    // the accounting (counter plus pending equals everything reported) is a
    // verified property; this only exercises the batching paths
    let mut reporter = pseudoprimes::progress::ProgressReporter::new("test", 1000);
    let mut handle = reporter.handle();
    for _ in 0..500 {
        handle.report(&mut reporter, 2);
    }
    handle.push(&mut reporter);
}

#[test]
fn test_elapsed_time_format() {
    let s = pseudoprimes::time::get_elapsed_time(std::time::Instant::now());
    assert!(s.ends_with("sec"));
}

#[test]
fn test_gray_adjacency_exhaustive_small() {
    // successive Gray codewords differ in exactly one bit
    for i in 0..65535u64 {
        let d = pseudoprimes::gray_prod_iter::to_gray(i)
            ^ pseudoprimes::gray_prod_iter::to_gray(i + 1);
        assert_eq!(d.count_ones(), 1);
    }
}
