use pseudoprimes::magic_numbers::M;
use pseudoprimes::modulus::{check_bd, reduce_m, BasicDivisor, Modulus, OptiM};

#[test]
fn test_reduce0() {
    for _ in 0..1000000 {
        let a: u64 = rand::random();
        let b: u64 = rand::random();
        let v = (a as u128) * (b as u128);

        let refval = (v % (M as u128)) as u64;

        let opt1 = OptiM {}.mulmod(a, b);
        let basicdiv = BasicDivisor::new(M).mulmod(a, b);
        assert_eq!(opt1, refval);
        if basicdiv != refval {
            assert_eq!(check_bd(a, b), refval);
        }
    }
}

#[test]
fn test_reduce_small_and_edge_values() {
    assert_eq!(reduce_m(0), 0);
    assert_eq!(reduce_m(1), 1);
    assert_eq!(reduce_m(M as u128), 0);
    assert_eq!(reduce_m((M as u128) * 2), 0);
    assert_eq!(reduce_m((M as u128) + 7), 7);
    assert_eq!(reduce_m(u128::MAX), (u128::MAX % (M as u128)) as u64);
}

#[test]
fn test_mulmod_of_m_minus_one_squared() {
    // (M - 1)^2 = M^2 - 2M + 1, which is 1 modulo M.
    assert_eq!(OptiM {}.mulmod(M - 1, M - 1), 1);
}

#[test]
fn test_inverse_under_m() {
    // M is even, so 2 has no inverse; 3 is coprime to M and must have one.
    assert_eq!(OptiM {}.inverse(2), None);
    let w = OptiM {}.inverse(3).unwrap();
    assert_eq!(((3 as u128) * (w as u128)) % (M as u128), 1);

    let bd = BasicDivisor::new(1000003);
    let w3 = bd.inverse(3).unwrap();
    assert_eq!((3 * w3) % 1000003, 1);
    assert_eq!(bd.inverse(0), None);
}

#[test]
fn test_addmod_wraps() {
    let o = OptiM {};
    assert_eq!(o.addmod(M - 1, 1), 0);
    assert_eq!(o.addmod(M - 1, 2), 1);
    assert_eq!(o.addmod(5, 6), 11);
}

#[test]
fn test_inverse_array() {
    let xs = [3u64, 67, 71, 101];
    let ys = pseudoprimes::modulus::inverse(&xs, OptiM {});
    assert_eq!(ys.len(), xs.len());
    for (x, y) in xs.iter().zip(ys.iter()) {
        assert_eq!(((*x as u128) * (*y as u128)) % (M as u128), 1);
    }
}

#[test]
fn test_mul_mod_free_function() {
    assert_eq!(pseudoprimes::mulmod::mul_mod(7, 9, 10), 3);
    assert_eq!(pseudoprimes::mulmod::mul_mod(u64::MAX, u64::MAX, M), {
        let v = (u64::MAX as u128) * (u64::MAX as u128);
        (v % (M as u128)) as u64
    });
}
