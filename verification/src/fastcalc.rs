//! Fast (wrapping) exponentiation and multiplication by binary
//! square-and-multiply / double-and-add, and exact integer root
//! extraction by doubling recursive refinement.
//!
//! `fastpow` / `fastpow_norec` and `fastmul` / `fastmul_norec` are a
//! recursive and an iterative form of the same algorithm; each pair
//! carries one identical contract, so the two forms provably agree on
//! every input.

use vstd::prelude::*;
use vstd::arithmetic::power::pow;
use vstd::arithmetic::power::lemma_pow0;
use vstd::arithmetic::power::lemma_pow1;
use vstd::arithmetic::power::lemma1_pow;
use vstd::arithmetic::power::lemma0_pow;
use vstd::arithmetic::power::lemma_pow_adds;
use vstd::arithmetic::power::lemma_pow_multiplies;
use vstd::arithmetic::power::lemma_pow_distributes;
use vstd::arithmetic::power::lemma_pow_positive;
use vstd::arithmetic::power::lemma_pow_increases;
use vstd::arithmetic::power::lemma_pow_mod_noop;
use vstd::arithmetic::power::lemma_square_is_pow2;
use vstd::arithmetic::power2::pow2;
use vstd::arithmetic::power2::lemma2_to64;
use vstd::arithmetic::power2::lemma2_to64_rest;
use vstd::arithmetic::div_mod::lemma_fundamental_div_mod;
use vstd::arithmetic::div_mod::lemma_fundamental_div_mod_converse_mod;
use vstd::arithmetic::div_mod::lemma_small_mod;
use vstd::arithmetic::div_mod::lemma_mod_bound;
use vstd::arithmetic::div_mod::lemma_div_is_strictly_smaller;
use vstd::arithmetic::div_mod::lemma_add_mod_noop;
use vstd::arithmetic::div_mod::lemma_mul_mod_noop_general;
use vstd::arithmetic::mul::lemma_mul_inequality;
use vstd::arithmetic::mul::lemma_mul_is_commutative;

verus! {

/// The product `a * b` reduced modulo `2^64`: the value wrapping
/// multiplication returns.
pub open spec fn wrap_mul(a: u64, b: u64) -> int {
    (a * b) % 0x1_0000_0000_0000_0000
}

/// The power `b^e` reduced modulo `2^64`: the value wrapping
/// exponentiation returns.
pub open spec fn wrap_pow(b: u64, e: u32) -> int {
    pow(b as int, e as nat) % 0x1_0000_0000_0000_0000
}

/// Congruent summands give congruent sums modulo `2^64`.
proof fn lemma_cong_add(u: int, u2: int, v: int, v2: int)
    requires
        u % 0x1_0000_0000_0000_0000 == u2 % 0x1_0000_0000_0000_0000,
        v % 0x1_0000_0000_0000_0000 == v2 % 0x1_0000_0000_0000_0000,
    ensures
        (u + v) % 0x1_0000_0000_0000_0000 == (u2 + v2) % 0x1_0000_0000_0000_0000,
{
    lemma_add_mod_noop(u, v, 0x1_0000_0000_0000_0000);
    lemma_add_mod_noop(u2, v2, 0x1_0000_0000_0000_0000);
}

/// Congruent factors give congruent products modulo `2^64`.
proof fn lemma_cong_mul(u: int, u2: int, v: int, v2: int)
    requires
        u % 0x1_0000_0000_0000_0000 == u2 % 0x1_0000_0000_0000_0000,
        v % 0x1_0000_0000_0000_0000 == v2 % 0x1_0000_0000_0000_0000,
    ensures
        (u * v) % 0x1_0000_0000_0000_0000 == (u2 * v2) % 0x1_0000_0000_0000_0000,
{
    lemma_mul_mod_noop_general(u, v, 0x1_0000_0000_0000_0000);
    lemma_mul_mod_noop_general(u2, v2, 0x1_0000_0000_0000_0000);
}

/// A wrapped 64-bit sum equals the mathematical sum modulo `2^64`.
proof fn lemma_wrapped_add(x: u64, y: u64)
    ensures
        (if x + y > u64::MAX {
            x + y - 0x1_0000_0000_0000_0000
        } else {
            x + y
        }) == (x + y) % 0x1_0000_0000_0000_0000,
{
    if x + y > u64::MAX {
        lemma_fundamental_div_mod_converse_mod(
            x + y,
            0x1_0000_0000_0000_0000,
            1,
            x + y - 0x1_0000_0000_0000_0000,
        );
    } else {
        lemma_small_mod((x + y) as nat, 0x1_0000_0000_0000_0000nat);
    }
}

/// Binary (square-and-multiply) exponentiation, recursive form:
/// `b^e` modulo `2^64`.
pub fn fastpow(b: u64, e: u32) -> (r: u64)
    ensures
        r == wrap_pow(b, e),
    decreases e,
{
    match e {
        0 => {
            proof {
                lemma_pow0(b as int);
                lemma_small_mod(1nat, 0x1_0000_0000_0000_0000nat);
            }
            1
        }
        1 => {
            proof {
                lemma_pow1(b as int);
                lemma_small_mod(b as nat, 0x1_0000_0000_0000_0000nat);
            }
            b
        }
        _ => {
            let bb = b.wrapping_mul(b);
            let half = fastpow(bb, e / 2);
            proof {
                lemma_square_is_pow2(b as int);
                lemma_pow_multiplies(b as int, 2, (e / 2) as nat);
                lemma_pow_mod_noop(b as int * b as int, (e / 2) as nat, 0x1_0000_0000_0000_0000);
                assert(half == pow(b as int, (2 * (e / 2)) as nat) % 0x1_0000_0000_0000_0000);
            }
            if e % 2 == 1 {
                let r = half.wrapping_mul(b);
                proof {
                    lemma_small_mod(b as nat, 0x1_0000_0000_0000_0000nat);
                    lemma_cong_mul(
                        half as int,
                        pow(b as int, (2 * (e / 2)) as nat),
                        b as int,
                        b as int,
                    );
                    lemma_pow_adds(b as int, (2 * (e / 2)) as nat, 1);
                    lemma_pow1(b as int);
                    assert(2 * (e / 2) + 1 == e);
                }
                r
            } else {
                proof {
                    assert(2 * (e / 2) == e);
                }
                half
            }
        }
    }
}

/// Binary exponentiation, iterative form: the same contract as
/// [`fastpow`], hence the same result on every input.
pub fn fastpow_norec(b: u64, e: u32) -> (r: u64)
    ensures
        r == wrap_pow(b, e),
{
    match e {
        0 => {
            proof {
                lemma_pow0(b as int);
                lemma_small_mod(1nat, 0x1_0000_0000_0000_0000nat);
            }
            1
        }
        1 => {
            proof {
                lemma_pow1(b as int);
                lemma_small_mod(b as nat, 0x1_0000_0000_0000_0000nat);
            }
            b
        }
        _ => {
            let mut bc = b;
            let mut ec = e;
            let mut prod: u64 = 1;
            while ec != 1
                invariant
                    1 <= ec,
                    (prod * pow(bc as int, ec as nat)) % 0x1_0000_0000_0000_0000 == wrap_pow(
                        b,
                        e,
                    ),
                decreases ec,
            {
                let ghost old_prod = prod;
                let ghost old_bc = bc;
                let ghost old_ec = ec;
                if ec % 2 == 1 {
                    let p2 = prod.wrapping_mul(bc);
                    proof {
                        lemma_small_mod(p2 as nat, 0x1_0000_0000_0000_0000nat);
                        lemma_mul_mod_noop_general(
                            old_prod as int,
                            old_bc as int,
                            0x1_0000_0000_0000_0000,
                        );
                    }
                    prod = p2;
                }
                let b2 = bc.wrapping_mul(bc);
                bc = b2;
                ec = ec / 2;
                proof {
                    lemma_square_is_pow2(old_bc as int);
                    lemma_pow_multiplies(old_bc as int, 2, ec as nat);
                    lemma_pow_mod_noop(
                        old_bc as int * old_bc as int,
                        ec as nat,
                        0x1_0000_0000_0000_0000,
                    );
                    lemma_small_mod(prod as nat, 0x1_0000_0000_0000_0000nat);
                    lemma_cong_mul(
                        prod as int,
                        if old_ec % 2 == 1 {
                            old_prod * old_bc
                        } else {
                            old_prod as int
                        },
                        pow(bc as int, ec as nat),
                        pow(old_bc as int, (2 * (ec as int)) as nat),
                    );
                    if old_ec % 2 == 1 {
                        lemma_pow_adds(old_bc as int, (2 * (ec as int)) as nat, 1);
                        lemma_pow1(old_bc as int);
                        assert(2 * (old_ec / 2) + 1 == old_ec);
                        assert((old_prod * old_bc) * (pow(old_bc as int, (2 * (ec as int)) as nat))
                            == old_prod * pow(old_bc as int, old_ec as nat)) by (nonlinear_arith)
                            requires
                                pow(old_bc as int, old_ec as nat) == pow(
                                    old_bc as int,
                                    (2 * (ec as int)) as nat,
                                ) * old_bc,
                        ;
                    } else {
                        assert(2 * (old_ec / 2) == old_ec);
                    }
                }
            }
            let r = prod.wrapping_mul(bc);
            proof {
                lemma_pow1(bc as int);
                lemma_mul_mod_noop_general(prod as int, bc as int, 0x1_0000_0000_0000_0000);
                lemma_small_mod(prod as nat, 0x1_0000_0000_0000_0000nat);
                lemma_small_mod(bc as nat, 0x1_0000_0000_0000_0000nat);
            }
            r
        }
    }
}

/// Binary (double-and-add) multiplication, recursive form:
/// `a * b` modulo `2^64`.
pub fn fastmul(a: u64, b: u64) -> (r: u64)
    ensures
        r == wrap_mul(a, b),
    decreases b,
{
    match b {
        0 => {
            proof {
                lemma_small_mod(0nat, 0x1_0000_0000_0000_0000nat);
            }
            0
        }
        1 => {
            proof {
                lemma_small_mod(a as nat, 0x1_0000_0000_0000_0000nat);
            }
            a
        }
        _ => {
            let aa = a.wrapping_add(a);
            let half = fastmul(aa, b / 2);
            proof {
                lemma_wrapped_add(a, a);
                lemma_small_mod((b / 2) as nat, 0x1_0000_0000_0000_0000nat);
                lemma_cong_mul(aa as int, a + a, (b / 2) as int, (b / 2) as int);
            }
            if b % 2 == 1 {
                let r = half.wrapping_add(a);
                proof {
                    lemma_wrapped_add(half, a);
                    lemma_small_mod(half as nat, 0x1_0000_0000_0000_0000nat);
                    lemma_small_mod(a as nat, 0x1_0000_0000_0000_0000nat);
                    lemma_cong_add(half as int, (a + a) * (b / 2), a as int, a as int);
                    assert((a + a) * (b / 2) + a == a * b) by (nonlinear_arith)
                        requires
                            b == 2 * (b / 2) + 1,
                    ;
                }
                r
            } else {
                proof {
                    assert((a + a) * (b / 2) == a * b) by (nonlinear_arith)
                        requires
                            b == 2 * (b / 2),
                    ;
                }
                half
            }
        }
    }
}

/// Binary multiplication, iterative form: the same contract as
/// [`fastmul`], hence the same result on every input.
pub fn fastmul_norec(a: u64, b: u64) -> (r: u64)
    ensures
        r == wrap_mul(a, b),
{
    match b {
        0 => {
            proof {
                lemma_small_mod(0nat, 0x1_0000_0000_0000_0000nat);
                assert(wrap_mul(a, b) == 0);
            }
            0
        }
        1 => {
            proof {
                lemma_small_mod(a as nat, 0x1_0000_0000_0000_0000nat);
                assert(wrap_mul(a, b) == a);
            }
            a
        }
        _ => {
            let mut ac = a;
            let mut bc = b;
            let mut sum: u64 = 0;
            while bc != 1
                invariant
                    1 <= bc,
                    (sum + ac * bc) % 0x1_0000_0000_0000_0000 == wrap_mul(a, b),
                decreases bc,
            {
                let ghost old_sum = sum;
                let ghost old_ac = ac;
                let ghost old_bc = bc;
                if bc % 2 == 1 {
                    let s2 = sum.wrapping_add(ac);
                    proof {
                        lemma_wrapped_add(sum, ac);
                        lemma_small_mod(s2 as nat, 0x1_0000_0000_0000_0000nat);
                    }
                    sum = s2;
                }
                let a2 = ac.wrapping_add(ac);
                proof {
                    lemma_wrapped_add(ac, ac);
                }
                ac = a2;
                bc = bc / 2;
                proof {
                    lemma_small_mod(sum as nat, 0x1_0000_0000_0000_0000nat);
                    lemma_small_mod(ac as nat, 0x1_0000_0000_0000_0000nat);
                    lemma_cong_mul(
                        ac as int,
                        old_ac + old_ac,
                        bc as int,
                        bc as int,
                    );
                    lemma_cong_add(
                        sum as int,
                        if old_bc % 2 == 1 {
                            old_sum + old_ac
                        } else {
                            old_sum as int
                        },
                        ac * bc,
                        (old_ac + old_ac) * bc,
                    );
                    if old_bc % 2 == 1 {
                        assert(old_sum + old_ac + (old_ac + old_ac) * bc == old_sum + old_ac
                            * old_bc) by (nonlinear_arith)
                            requires
                                old_bc == 2 * bc + 1,
                        ;
                    } else {
                        assert(old_sum + (old_ac + old_ac) * bc == old_sum + old_ac * old_bc)
                            by (nonlinear_arith)
                            requires
                                old_bc == 2 * bc,
                        ;
                    }
                }
            }
            let r = sum.wrapping_add(ac);
            proof {
                lemma_wrapped_add(sum, ac);
                assert(ac * bc == ac as int) by (nonlinear_arith)
                    requires
                        bc == 1,
                ;
                assert(r == (sum + ac) % 0x1_0000_0000_0000_0000);
            }
            r
        }
    }
}

/// Exact integer square root: the greatest `r` with `r * r <= n`.
pub fn isqrt(n: u64) -> (r: u64)
    ensures
        r * r <= n < (r + 1) * (r + 1),
    decreases n,
{
    if n < 2 {
        proof {
            assert(n * n <= n && n < (n + 1) * (n + 1)) by (nonlinear_arith)
                requires
                    n < 2,
            ;
        }
        n
    } else {
        let r0 = isqrt(n / 4);
        proof {
            assert(r0 <= 0x7fff_ffff) by (nonlinear_arith)
                requires
                    r0 * r0 <= n / 4,
                    n / 4 < 0x4000_0000_0000_0000,
                    0 <= r0,
            ;
        }
        let r = 2 * r0;
        let rr = r + 1;
        proof {
            lemma_mul_inequality(rr as int, 0xffff_ffff, rr as int);
            lemma_mul_is_commutative(0xffff_ffff, rr as int);
            lemma_mul_inequality(rr as int, 0xffff_ffff, 0xffff_ffff);
            lemma_fundamental_div_mod(n as int, 4);
            lemma_mod_bound(n as int, 4);
        }
        if n < rr * rr {
            proof {
                assert(r * r <= 4 * (n as int / 4)) by (nonlinear_arith)
                    requires
                        r == 2 * r0,
                        r0 * r0 <= n as int / 4,
                        0 <= r0,
                ;
            }
            r
        } else {
            proof {
                assert(4 * (n as int / 4) + 3 < (rr + 1) * (rr + 1)) by (nonlinear_arith)
                    requires
                        rr == 2 * r0 + 1,
                        n as int / 4 < (r0 + 1) * (r0 + 1),
                        0 <= r0,
                ;
            }
            rr
        }
    }
}

/// `2^k` as an exact 64-bit value, for `k < 64`.
fn pow2_u64(k: u32) -> (r: u64)
    requires
        k < 64,
    ensures
        r == pow(2, k as nat),
        1 <= r,
{
    let mut r: u64 = 1;
    let mut j: u32 = 0;
    proof {
        lemma_pow0(2);
    }
    while j < k
        invariant
            j <= k,
            k < 64,
            1 <= r,
            r == pow(2, j as nat),
        decreases k - j,
    {
        proof {
            lemma2_to64();
            lemma2_to64_rest();
            lemma_pow_positive(2, 63);
            assert(pow2(63) == pow(2, 63));
            lemma_pow_adds(2, j as nat, 1);
            lemma_pow1(2);
            assert(pow(2, (j + 1) as nat) == r * 2);
            lemma_pow_increases(2, (j + 1) as nat, 63);
            assert(r * 2 <= 0x8000_0000_0000_0000);
        }
        r = r * 2;
        j = j + 1;
    }
    r
}

/// Whether `r^e` exceeds `v`, decided without overflow.
fn pow_exceeds(r: u64, e: u32, v: u64) -> (res: bool)
    requires
        1 <= r,
    ensures
        res <==> v < pow(r as int, e as nat),
{
    let mut acc: u64 = 1;
    let mut j: u32 = 0;
    proof {
        lemma_pow0(r as int);
    }
    while j < e
        invariant
            j <= e,
            1 <= r,
            1 <= acc,
            acc == pow(r as int, j as nat),
        decreases e - j,
    {
        proof {
            lemma_pow_adds(r as int, j as nat, 1);
            lemma_pow1(r as int);
        }
        match acc.checked_mul(r) {
            Some(next) => {
                proof {
                    lemma_mul_inequality(1, acc as int, r as int);
                }
                acc = next;
                j = j + 1;
            }
            None => {
                proof {
                    lemma_pow_adds(r as int, (j + 1) as nat, (e - j - 1) as nat);
                    lemma_pow_positive(r as int, (e - j - 1) as nat);
                    assert(pow(r as int, e as nat) >= pow(r as int, (j + 1) as nat))
                        by (nonlinear_arith)
                        requires
                            pow(r as int, e as nat) == pow(r as int, (j + 1) as nat) * pow(
                                r as int,
                                (e - j - 1) as nat,
                            ),
                            pow(r as int, (j + 1) as nat) >= 0,
                            pow(r as int, (e - j - 1) as nat) >= 1,
                    ;
                }
                return true;
            }
        }
    }
    v < acc
}

/// Exact integer `n`-th root: the greatest `r` with `r^n <= i`,
/// for any root degree `n >= 1`.
pub fn iroot(i: u64, n: u32) -> (r: u64)
    requires
        1 <= n,
    ensures
        pow(r as int, n as nat) <= i < pow(r as int + 1, n as nat),
    decreases i,
{
    if i == 0 {
        proof {
            lemma0_pow(n as nat);
            lemma1_pow(n as nat);
        }
        0
    } else if i == 1 {
        proof {
            lemma1_pow(n as nat);
            lemma_pow_increases(2, 1, n as nat);
            lemma_pow1(2);
        }
        1
    } else if n == 1 {
        proof {
            lemma_pow1(i as int);
            lemma_pow1(i as int + 1);
        }
        i
    } else if n >= 64 {
        proof {
            lemma1_pow(n as nat);
            lemma_pow_increases(2, 64, n as nat);
            lemma2_to64();
            lemma_pow_positive(2, 64);
            assert(pow2(64) == pow(2, 64));
        }
        1
    } else {
        let b = pow2_u64(n);
        proof {
            lemma_pow_increases(2, 2, n as nat);
            lemma_square_is_pow2(2);
        }
        let q = i / b;
        proof {
            lemma_div_is_strictly_smaller(i as int, b as int);
            lemma_fundamental_div_mod(i as int, b as int);
            lemma_mod_bound(i as int, b as int);
            assert(b * q <= i);
            assert(q < 0x4000_0000_0000_0000) by (nonlinear_arith)
                requires
                    4 <= b,
                    0 <= q,
                    b * q <= 0xffff_ffff_ffff_ffff,
            ;
        }
        let r0 = iroot(q, n);
        proof {
            lemma_fundamental_div_mod(i as int, b as int);
            lemma_mod_bound(i as int, b as int);
            if r0 >= 2 {
                lemma_pow_increases(r0 as nat, 2, n as nat);
                lemma_square_is_pow2(r0 as int);
                assert(r0 <= 0x7fff_ffff) by (nonlinear_arith)
                    requires
                        r0 * r0 <= q,
                        q < 0x4000_0000_0000_0000,
                        0 <= r0,
                ;
            }
        }
        let r = 2 * r0;
        let rr = r + 1;
        proof {
            // r^n == 2^n * r0^n <= b * q <= i
            lemma_pow_distributes(2, r0 as int, n as nat);
            if r0 == 0 {
                lemma0_pow(n as nat);
            } else {
                lemma_pow_positive(r0 as int, n as nat);
            }
            lemma_mul_inequality(pow(r0 as int, n as nat), q as int, b as int);
            lemma_mul_is_commutative(pow(r0 as int, n as nat), b as int);
            lemma_mul_is_commutative(q as int, b as int);
            assert(pow(r as int, n as nat) <= i);
            // i < b * (q + 1) <= 2^n * (r0+1)^n == (r+2)^n
            lemma_pow_positive(r0 as int + 1, n as nat);
            lemma_mul_inequality(q + 1, pow(r0 as int + 1, n as nat), b as int);
            lemma_mul_is_commutative(q + 1, b as int);
            lemma_mul_is_commutative(pow(r0 as int + 1, n as nat), b as int);
            lemma_pow_distributes(2, r0 as int + 1, n as nat);
            assert(b * (q + 1) == b * q + b) by (nonlinear_arith);
            assert(i < pow(2 * (r0 as int + 1), n as nat));
            assert(2 * (r0 as int + 1) == rr as int + 1);
        }
        if pow_exceeds(rr, n, i) {
            r
        } else {
            rr
        }
    }
}

} // verus!
