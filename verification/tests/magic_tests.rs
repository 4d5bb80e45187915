use pseudoprimes::magic_numbers::{
    check_divisor, check_prime, compute_r, get_vals_to_multiply, min_n, M, MAX_R, MIN_R,
};

#[test]
fn test_compute_r_is_the_full_table() {
    let r = compute_r();
    assert_eq!(r.len(), 64);
    for x in &r {
        assert!(check_divisor(*x));
        assert!(MIN_R < *x && *x < MAX_R);
        // every member's predecessor divides M
        assert_eq!(M % (x - 1), 0);
    }
    for i in 0..r.len() {
        for j in 0..i {
            assert_ne!(r[i], r[j]);
        }
    }
}

#[test]
fn test_check_divisor_rejects() {
    // out of range below and above
    assert!(!check_divisor(3));
    assert!(!check_divisor(255));
    // the interval is open at both ends
    assert!(!check_divisor(MIN_R));
    assert!(!check_divisor(MAX_R));
    assert!(!check_divisor(MAX_R + 2));
    // in range but composite
    assert!(!check_divisor(10000));
    // in range and prime, but the Jacobi-symbol table rejects it
    assert!(!check_divisor(257));
}

#[test]
fn test_check_prime_small_masks() {
    let low = rug::Integer::from(2);
    let t1 = [3u64];
    let t2 = [5u64];
    // empty masks: n = 1 + 2 = 3, prime
    let p = check_prime(&low, &t1, &t2, 0, 0).unwrap();
    assert_eq!(p.pseudoprime, rug::Integer::from(3));
    assert_eq!(p.factors, vec![rug::Integer::from(2)]);
    // n = 1 + 2 * 3 = 7, prime
    let p = check_prime(&low, &t1, &t2, 1, 0).unwrap();
    assert_eq!(p.pseudoprime, rug::Integer::from(7));
    assert_eq!(
        p.factors,
        vec![rug::Integer::from(2), rug::Integer::from(3)]
    );
    // n = 1 + 2 * 3 * 5 = 31, prime
    let p = check_prime(&low, &t1, &t2, 1, 1).unwrap();
    assert_eq!(p.pseudoprime, rug::Integer::from(31));
    // n = 1 + 2 * 7 = 15 = 3 * 5, composite
    assert!(check_prime(&low, &[7u64], &t2, 1, 0).is_none());
    // candidate not above the floor is rejected even though 7 is prime
    assert!(check_prime(&rug::Integer::from(7), &t1, &t2, 1, 0).is_none());
}

#[test]
fn test_min_n_is_two_to_the_512() {
    let mut expect = rug::Integer::from(1);
    expect <<= 512;
    assert_eq!(min_n(), expect);
}

#[test]
fn test_get_vals_to_multiply() {
    let t1 = [11u64, 13, 17, 19];
    let t2 = [23u64, 29];
    // t1 mask 0b101 selects 11 and 17; t2 mask 0b10 selects 29.
    let vals = get_vals_to_multiply(&t1, &t2, 0b101, 0b10);
    let got: Vec<rug::Integer> = vals;
    assert_eq!(
        got,
        vec![
            rug::Integer::from(2),
            rug::Integer::from(11),
            rug::Integer::from(17),
            rug::Integer::from(29)
        ]
    );
}
