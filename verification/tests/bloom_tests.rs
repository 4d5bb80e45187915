use pseudoprimes::bitset::BitSet;
use pseudoprimes::bloomfilter::conc_bloom::{BloomFilter, Builder};

#[test]
fn test_no_false_negative() {
    let mut filter = BloomFilter::new(100, 2);
    for i in 0..16 {
        filter.put(&i);
    }

    for i in 0..16 {
        assert!(filter.maybe_present(&i));
    }
}

#[test]
fn test_fp_rate() {
    let mut filter = BloomFilter::new(8192, 4);
    // FP rate should be about p = 0.024
    let rate_min = 0.02;
    let rate_max = 0.028;

    for i in 0..1024 {
        filter.put(&i);
    }

    for i in 0..1024 {
        assert!(filter.maybe_present(&i));
    }

    let mut false_positives = 0;
    let mut total_lookups = 0;
    for i in 10000..200000 {
        if filter.maybe_present(&i) {
            false_positives += 1;
        }
        total_lookups += 1;
    }

    let rate = (false_positives as f64) / (total_lookups as f64);

    println!("FP rate: {}", rate);

    assert!(rate >= rate_min);
    assert!(rate <= rate_max);
}

#[test]
fn test_bloom_small_filter() {
    // Bloom(size=256, k=2): three put values answer positively, and some
    // probe value with both hash positions unset answers negatively.
    let mut filter = BloomFilter::new(256, 2);
    filter.put(&17);
    filter.put(&42);
    filter.put(&1001);
    assert!(filter.maybe_present(&17));
    assert!(filter.maybe_present(&42));
    assert!(filter.maybe_present(&1001));
    let mut some_negative = false;
    for v in 2000..3000u64 {
        if !filter.maybe_present(&v) {
            some_negative = true;
            break;
        }
    }
    assert!(some_negative);
}

#[test]
fn test_bloom_merge_agreement() {
    // Two filters built from the same builder share seeds and mask; after
    // disjoint inserts and one cross_or they answer identically everywhere.
    let builder = Builder::new(2048, 3);
    let mut a = builder.build();
    let mut b = builder.build();
    for i in 0..64u64 {
        a.put(&i);
    }
    for i in 1000..1064u64 {
        b.put(&i);
    }
    a.cross_or(&mut b);
    for v in 0..4000u64 {
        assert_eq!(a.maybe_present(&v), b.maybe_present(&v));
    }
    // Everything either filter held is now present in both.
    for i in (0..64u64).chain(1000..1064) {
        assert!(a.maybe_present(&i));
        assert!(b.maybe_present(&i));
    }
}

#[test]
fn test_cross_or_bit_arrays() {
    // Two atomic-bit-array-sized sets of 1024 bits: set {1, 1023} in A and
    // {0, 512} in B; after cross_or both report exactly {0, 1, 512, 1023}.
    let mut a = BitSet::new(1024);
    let mut b = BitSet::new(1024);
    a.insert(1);
    a.insert(1023);
    b.insert(0);
    b.insert(512);
    a.cross_or(&mut b);
    for i in 0..1024 {
        let expect = i == 0 || i == 1 || i == 512 || i == 1023;
        assert_eq!(a.contains(i), expect, "bit {} in a", i);
        assert_eq!(b.contains(i), expect, "bit {} in b", i);
    }
    // A second cross_or is a no-op.
    a.cross_or(&mut b);
    for i in 0..1024 {
        let expect = i == 0 || i == 1 || i == 512 || i == 1023;
        assert_eq!(a.contains(i), expect);
        assert_eq!(b.contains(i), expect);
    }
}
