use factorcore::fastmul;
use factorcore::fastmul_norec;
use factorcore::fastpow;
use factorcore::fastpow_norec;
use factorcore::iroot;
use factorcore::isqrt;

#[test]
fn test_fastpow() {
    for i in 0..100 {
        for j in 0..10 {
            assert_eq!(fastpow(i, j), i.pow(j))
        }
    }
    assert_eq!(fastpow(u64::MAX, u32::MAX), u64::MAX.wrapping_pow(u32::MAX));
}

#[test]
fn test_fastpow_norec() {
    for i in 0..100 {
        for j in 0..10 {
            assert_eq!(fastpow_norec(i, j), i.pow(j))
        }
    }
    assert_eq!(fastpow(u64::MAX, u32::MAX), u64::MAX.wrapping_pow(u32::MAX));
}

#[test]
fn test_fastmul() {
    for i in 0..1000 {
        for j in 0..1000 {
            assert_eq!(fastmul(i, j), i * j);
        }
    }

    assert_eq!(fastmul(u64::MAX, u64::MAX), u64::MAX.wrapping_mul(u64::MAX));
}

#[test]
fn test_fastmul_norec() {
    for i in 0..1000 {
        for j in 0..1000 {
            assert_eq!(fastmul_norec(i, j), i * j);
        }
    }

    assert_eq!(
        fastmul_norec(u64::MAX, u64::MAX),
        u64::MAX.wrapping_mul(u64::MAX)
    );
}

#[test]
fn test_isqrt() {
    assert_eq!(isqrt(16), 4);
    assert_eq!(isqrt(17), 4);
    assert_eq!(isqrt(24), 4);
    assert_eq!(isqrt(25), 5);
}

#[test]
fn test_iroot() {
    assert_eq!(iroot(1, 1), 1);
    assert_eq!(iroot(2, 1), 2);
    assert_eq!(iroot(3, 1), 3);

    assert_eq!(iroot(16, 2), 4);
    assert_eq!(iroot(17, 2), 4);
    assert_eq!(iroot(24, 2), 4);
    assert_eq!(iroot(25, 2), 5);

    assert_eq!(iroot(25, 3), 2);
    assert_eq!(iroot(26, 3), 2);
    assert_eq!(iroot(27, 3), 3);
}

#[test]
fn test_fastpow_matches_norec() {
    for b in 0..200 {
        for e in 0..40 {
            assert_eq!(fastpow(b, e), fastpow_norec(b, e));
        }
    }
    for &b in &[u64::MAX, u64::MAX - 1, 0x1_0000_0001, 12345678901234567] {
        for &e in &[0, 1, 2, 3, 31, 32, 63, 64, 65, 1000, u32::MAX] {
            assert_eq!(fastpow(b, e), fastpow_norec(b, e));
            assert_eq!(fastpow(b, e), b.wrapping_pow(e));
        }
    }
}

#[test]
fn test_fastmul_matches_norec() {
    for &a in &[0, 1, 2, 3, 999, u64::MAX, u64::MAX / 3, 0xdead_beef_0bad_f00d] {
        for &b in &[0, 1, 2, 3, 999, u64::MAX, u64::MAX / 7] {
            assert_eq!(fastmul(a, b), fastmul_norec(a, b));
            assert_eq!(fastmul(a, b), a.wrapping_mul(b));
        }
    }
}

#[test]
fn test_fastpow_wrapping_edges() {
    assert_eq!(fastpow(2, 63), 1u64 << 63);
    assert_eq!(fastpow(2, 64), 0);
    assert_eq!(fastpow(0, 0), 1);
    assert_eq!(fastpow_norec(0, 0), 1);
    assert_eq!(fastpow(0, 5), 0);
    assert_eq!(fastpow(1, u32::MAX), 1);
}

#[test]
fn test_isqrt_boundaries() {
    assert_eq!(isqrt(0), 0);
    assert_eq!(isqrt(1), 1);
    assert_eq!(isqrt(2), 1);
    assert_eq!(isqrt(3), 1);
    assert_eq!(isqrt(4), 2);
    assert_eq!(isqrt(u64::MAX), 4294967295);
    let near = 4294967295u64 * 4294967295u64;
    assert_eq!(isqrt(near), 4294967295);
    assert_eq!(isqrt(near - 1), 4294967294);
    for n in 0..2000u64 {
        let r = isqrt(n);
        assert!(r * r <= n && n < (r + 1) * (r + 1));
    }
}

#[test]
fn test_iroot_edges() {
    assert_eq!(iroot(0, 5), 0);
    assert_eq!(iroot(1, 7), 1);
    assert_eq!(iroot(5, 1), 5);
    assert_eq!(iroot(u64::MAX, 64), 1);
    assert_eq!(iroot(u64::MAX, 2), 4294967295);
    assert_eq!(iroot(1u64 << 63, 63), 2);
    assert_eq!(iroot(u64::MAX, 63), 2);
    for &i in &[0u64, 1, 2, 63, 64, 65, 728, 729, 730, 1u64 << 62, u64::MAX] {
        for n in 1..=66u32 {
            let r = iroot(i, n);
            assert!((r as u128).checked_pow(n).map_or(false, |p| p <= i as u128));
            assert!((r as u128 + 1).checked_pow(n).map_or(true, |p| (i as u128) < p));
        }
    }
}
