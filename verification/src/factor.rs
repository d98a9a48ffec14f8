//! The factorizer and its helpers: greatest common divisor, prime
//! extraction against a bounded sieve, and decimal-input validation.

use vstd::prelude::*;
use vstd::arithmetic::div_mod::lemma_fundamental_div_mod;
use vstd::arithmetic::div_mod::lemma_mod_bound;
use vstd::arithmetic::div_mod::lemma_mod_self_0;
use vstd::arithmetic::div_mod::lemma_div_is_strictly_smaller;
use vstd::arithmetic::mul::lemma_mul_is_associative;
use crate::arith::divides;
use crate::arith::is_prime;
use crate::arith::product;
use crate::arith::lemma_product_push;
use crate::arith::lemma_divisor_le;
use crate::arith::lemma_divides_mod;
use crate::arith::lemma_divides_from_mod;
use crate::arith::lemma_divides_scaled;
use crate::arith::lemma_composite_small_prime_factor;
use crate::fastcalc::isqrt;
use crate::prime::eratosthenes;
use vstd::string::StrSliceExecFns;

verus! {

/// Why a checked entry point refused to do its work.
#[derive(Clone, Copy, Debug, PartialEq, Eq, Structural)]
pub enum FactorError {
    /// A greatest-common-divisor operand was zero.
    InvalidArgument,
    /// The sieve implied by the input exceeds the configured ceiling.
    ResourceExhausted,
}

/// Greatest common divisor by the Euclidean algorithm: the largest
/// positive integer dividing both `a` and `b`, which must be positive.
pub fn gcd(a: u64, b: u64) -> (g: u64)
    requires
        1 <= a,
        1 <= b,
    ensures
        1 <= g,
        divides(g as int, a as int),
        divides(g as int, b as int),
        forall|d: int|
            1 <= d && #[trigger] divides(d, a as int) && divides(d, b as int) ==> d <= g,
{
    let (mut x, mut y) = if a < b { (b, a) } else { (a, b) };
    while x % y != 0
        invariant
            1 <= y,
            1 <= x,
            forall|d: int|
                #![trigger divides(d, x as int)]
                #![trigger divides(d, a as int)]
                1 <= d ==> ((divides(d, x as int) && divides(d, y as int)) <==> (divides(
                    d,
                    a as int,
                ) && divides(d, b as int))),
        decreases y,
    {
        let r = x % y;
        proof {
            lemma_mod_bound(x as int, y as int);
            assert forall|d: int|
                1 <= d implies ((#[trigger] divides(d, y as int) && divides(d, r as int)) <==> (
            #[trigger] divides(d, a as int) && divides(d, b as int))) by {
                if divides(d, y as int) && divides(d, r as int) {
                    lemma_divides_from_mod(d, x as int, y as int);
                }
                if divides(d, x as int) && divides(d, y as int) {
                    lemma_divides_mod(d, x as int, y as int);
                }
                assert((divides(d, x as int) && divides(d, y as int)) <==> (divides(
                    d,
                    a as int,
                ) && divides(d, b as int)));
            }
        }
        x = y;
        y = r;
    }
    proof {
        lemma_mod_self_0(y as int);
        assert(divides(y as int, x as int) && divides(y as int, y as int));
        assert forall|d: int|
            1 <= d && #[trigger] divides(d, a as int) && divides(d, b as int) implies d
            <= y by {
            assert(divides(d, x as int) && divides(d, y as int));
            lemma_divisor_le(d, y as int);
        }
    }
    y
}

/// [`gcd`] behind an explicit zero-operand check: a zero operand is
/// reported as `InvalidArgument` instead of being left undefined.
pub fn try_gcd(a: u64, b: u64) -> (res: Result<u64, FactorError>)
    ensures
        match res {
            Ok(g) => {
                &&& 1 <= a && 1 <= b
                &&& 1 <= g
                &&& divides(g as int, a as int)
                &&& divides(g as int, b as int)
                &&& forall|d: int|
                    1 <= d && #[trigger] divides(d, a as int) && divides(d, b as int) ==> d <= g
            },
            Err(e) => e == FactorError::InvalidArgument && (a == 0 || b == 0),
        },
{
    if a == 0 || b == 0 {
        Err(FactorError::InvalidArgument)
    } else {
        Ok(gcd(a, b))
    }
}

/// Scan the prime table in ascending order for the first entry whose
/// greatest common divisor with `v` is not 1: that entry is the
/// smallest table prime dividing `v`.
fn find_factor(primes: &Vec<usize>, v: u64) -> (res: Option<u64>)
    requires
        2 <= v,
        forall|t: int|
            0 <= t < primes@.len() ==> is_prime(#[trigger] primes@[t] as int),
        forall|t1: int, t2: int| 0 <= t1 < t2 < primes@.len() ==> primes@[t1] < primes@[t2],
    ensures
        match res {
            Some(p) => {
                &&& is_prime(p as int)
                &&& divides(p as int, v as int)
                &&& exists|t: int| 0 <= t < primes@.len() && primes@[t] == p
                &&& forall|t: int|
                    0 <= t < primes@.len() && primes@[t] < p ==> !divides(
                        #[trigger] primes@[t] as int,
                        v as int,
                    )
            },
            None => forall|t: int|
                0 <= t < primes@.len() ==> !divides(#[trigger] primes@[t] as int, v as int),
        },
{
    let mut idx: usize = 0;
    while idx < primes.len()
        invariant
            2 <= v,
            idx <= primes@.len(),
            forall|t: int|
                0 <= t < primes@.len() ==> is_prime(#[trigger] primes@[t] as int),
            forall|t1: int, t2: int| 0 <= t1 < t2 < primes@.len() ==> primes@[t1] < primes@[t2],
            forall|t: int| 0 <= t < idx ==> !divides(#[trigger] primes@[t] as int, v as int),
        decreases primes@.len() - idx,
    {
        let p = primes[idx];
        let pu = p as u64;
        let g = gcd(v, pu);
        if g != 1 {
            proof {
                // g divides the prime p, so g is 1 or p itself
                lemma_divisor_le(g as int, pu as int);
                if g < pu {
                    assert(pu as int % (g as int) != 0);
                    assert(false);
                }
                assert(g == pu);
                assert forall|t: int|
                    0 <= t < primes@.len() && primes@[t] < pu implies !divides(
                    #[trigger] primes@[t] as int,
                    v as int,
                ) by {
                    if t >= idx {
                        assert(primes@[t] >= primes@[idx as int]);
                    }
                }
            }
            return Some(pu);
        }
        proof {
            // no common divisor above 1, so the prime p does not divide v
            if divides(pu as int, v as int) {
                lemma_mod_self_0(pu as int);
                assert(divides(pu as int, pu as int));
                assert(pu as int <= g as int);
                assert(false);
            }
        }
        idx = idx + 1;
    }
    None
}

/// Decompose `n` into its ordered prime factors.
///
/// For `n < 4` the result is the single element `n`, a documented
/// degenerate case (`0` and `1` stand for themselves). Otherwise the
/// factors are prime, non-decreasing, and multiply back to `n`: the
/// sieve is built up to the integer square root of `n`, and a residual
/// that no table prime divides is itself prime and is appended last.
///
/// The `requires` clause is a machine limit: the sieve bound must be
/// representable in `usize`, which only excludes inputs near `u64::MAX`
/// on 32-bit targets.
pub fn factor(n: u64) -> (r: Vec<u64>)
    requires
        (n as int) < (usize::MAX as int) * (usize::MAX as int),
    ensures
        product(r@) == n as int,
        n < 4 ==> r@.len() == 1 && r@[0] == n,
        2 <= n ==> forall|t: int| 0 <= t < r@.len() ==> is_prime(#[trigger] r@[t] as int),
        forall|t1: int, t2: int| 0 <= t1 <= t2 < r@.len() ==> r@[t1] <= r@[t2],
{
    if n < 4 {
        let mut r: Vec<u64> = Vec::new();
        r.push(n);
        proof {
            reveal_with_fuel(product, 2);
            assert(r@.drop_first() =~= Seq::<u64>::empty());
            assert(product(r@) == n as int);
            if 2 <= n {
                assert forall|t: int| 0 <= t < r@.len() implies is_prime(
                    #[trigger] r@[t] as int,
                ) by {
                    assert forall|d: int| 2 <= d < n implies #[trigger] (n as int % d) != 0 by {
                        assert(n == 3 && d == 2 ==> n as int % d == 1);
                    }
                }
            }
        }
        return r;
    }
    let bound = isqrt(n);
    proof {
        assert(bound < usize::MAX as u64) by (nonlinear_arith)
            requires
                bound * bound <= n,
                (n as int) < (usize::MAX as int) * (usize::MAX as int),
                0 <= bound,
                1 <= usize::MAX,
        ;
    }
    let m = (bound + 1) as usize;
    let primes = eratosthenes(m);
    let mut residual = n;
    let mut ans: Vec<u64> = Vec::new();
    while residual != 1
        invariant
            4 <= n,
            1 <= residual <= n,
            bound * bound <= n < (bound + 1) * (bound + 1),
            m as int == bound as int + 1,
            forall|t: int|
                0 <= t < primes@.len() ==> is_prime(#[trigger] primes@[t] as int) && primes@[t]
                    < m,
            forall|t1: int, t2: int| 0 <= t1 < t2 < primes@.len() ==> primes@[t1] < primes@[t2],
            forall|q: usize| 2 <= q < m && is_prime(q as int) ==> primes@.contains(q),
            product(ans@) * residual == n as int,
            forall|t: int| 0 <= t < ans@.len() ==> is_prime(#[trigger] ans@[t] as int),
            forall|t1: int, t2: int| 0 <= t1 <= t2 < ans@.len() ==> ans@[t1] <= ans@[t2],
            forall|t: int, q: int|
                #![trigger ans@[t], is_prime(q)]
                0 <= t < ans@.len() && is_prime(q) && divides(q, residual as int) ==> ans@[t]
                    <= q,
        decreases residual,
    {
        let ghost ans0 = ans@;
        let ghost residual0 = residual;
        match find_factor(&primes, residual) {
            Some(p) => {
                ans.push(p);
                residual = residual / p;
                proof {
                    lemma_product_push(ans0, p);
                    lemma_fundamental_div_mod(residual0 as int, p as int);
                    assert(residual0 as int == p as int * (residual as int));
                    lemma_div_is_strictly_smaller(residual0 as int, p as int);
                    assert(1 <= residual) by (nonlinear_arith)
                        requires
                            residual0 as int == p as int * (residual as int),
                            2 <= residual0,
                            0 <= residual,
                    ;
                    assert(product(ans@) * residual == n as int) by {
                        lemma_mul_is_associative(
                            product(ans0),
                            p as int,
                            residual as int,
                        );
                    }
                    // every prime factor of the new residual divides the
                    // old one, and none is smaller than p
                    assert forall|t: int, q: int|
                        #![trigger ans@[t], is_prime(q)]
                        0 <= t < ans@.len() && is_prime(q) && divides(q, residual as int)
                            implies ans@[t] <= q by {
                        lemma_divides_scaled(q, residual as int, p as int);
                        assert(divides(q, residual0 as int));
                        if q < p {
                            // q would be a smaller table prime dividing residual0
                            assert(q <= bound) by (nonlinear_arith)
                                requires
                                    2 <= q < p,
                                    (p as int) <= bound as int,
                            ;
                            let qu = q as usize;
                            assert(2 <= qu < m && is_prime(qu as int));
                            assert(primes@.contains(qu));
                            let t0 = choose|t0: int|
                                0 <= t0 < primes@.len() && primes@[t0] == qu;
                            assert(primes@[t0] < p);
                            assert(!divides(primes@[t0] as int, residual0 as int));
                            assert(false);
                        }
                        if t < ans0.len() {
                            assert(ans0[t] <= q);
                        }
                    }
                    // p itself is a prime factor of the old residual, so it
                    // is at least as large as everything already extracted
                    assert forall|t1: int, t2: int|
                        0 <= t1 <= t2 < ans@.len() implies ans@[t1] <= ans@[t2] by {
                        if t2 == ans0.len() {
                            if t1 < t2 {
                                assert(ans0[t1] <= p as int);
                            }
                        }
                    }
                }
            }
            None => {
                // no table prime divides the residual: it is prime itself
                proof {
                    if !is_prime(residual as int) {
                        let q = lemma_composite_small_prime_factor(residual as int);
                        assert(q <= bound) by (nonlinear_arith)
                            requires
                                q * q <= residual as int,
                                (residual as int) <= n as int,
                                (n as int) < (bound as int + 1) * (bound as int + 1),
                                0 <= q,
                                0 <= bound,
                        ;
                        let qu = q as usize;
                        assert(2 <= qu < m && is_prime(qu as int));
                        assert(primes@.contains(qu));
                        let t0 = choose|t0: int| 0 <= t0 < primes@.len() && primes@[t0] == qu;
                        assert(!divides(primes@[t0] as int, residual as int));
                        assert(false);
                    }
                }
                let ghost old_residual = residual;
                ans.push(residual);
                residual = 1;
                proof {
                    lemma_product_push(ans0, old_residual);
                    lemma_mod_self_0(old_residual as int);
                    assert forall|t1: int, t2: int|
                        0 <= t1 <= t2 < ans@.len() implies ans@[t1] <= ans@[t2] by {
                        if t2 == ans0.len() {
                            if t1 < t2 {
                                assert(divides(old_residual as int, old_residual as int));
                                assert(ans0[t1] <= old_residual as int);
                            }
                        }
                    }
                    assert forall|t: int, q: int|
                        #![trigger ans@[t], is_prime(q)]
                        0 <= t < ans@.len() && is_prime(q) && divides(q, residual as int)
                            implies ans@[t] <= q by {
                        lemma_divisor_le(q, 1);
                    }
                }
            }
        }
    }
    proof {
        assert(product(ans@) * 1 == product(ans@));
    }
    ans
}

/// [`factor`] behind a configured memory ceiling: when the sieve that
/// `n` implies would have to reach past `ceiling` (that is, when the
/// integer square root of `n` exceeds it), the error is surfaced to
/// the caller instead of attempting the allocation.
pub fn try_factor(n: u64, ceiling: u64) -> (res: Result<Vec<u64>, FactorError>)
    requires
        (n as int) < (usize::MAX as int) * (usize::MAX as int),
    ensures
        match res {
            Ok(r) => {
                &&& n < 4 || n < (ceiling + 1) * (ceiling + 1)
                &&& product(r@) == n as int
                &&& (n < 4 ==> r@.len() == 1 && r@[0] == n)
                &&& (2 <= n ==> forall|t: int|
                    0 <= t < r@.len() ==> is_prime(#[trigger] r@[t] as int))
                &&& forall|t1: int, t2: int| 0 <= t1 <= t2 < r@.len() ==> r@[t1] <= r@[t2]
            },
            Err(e) => e == FactorError::ResourceExhausted && 4 <= n && n >= (ceiling + 1) * (
            ceiling + 1),
        },
{
    if n < 4 {
        Ok(factor(n))
    } else if ceiling >= 0xffff_ffff {
        proof {
            assert(n < (ceiling + 1) * (ceiling + 1)) by (nonlinear_arith)
                requires
                    0xffff_ffff <= ceiling,
                    n <= 0xffff_ffff_ffff_ffff,
            ;
        }
        Ok(factor(n))
    } else {
        let span = ceiling + 1;
        proof {
            assert(span * span <= 0xffff_fffe_0000_0001) by (nonlinear_arith)
                requires
                    span <= 0xffff_ffff,
                    0 <= span,
            ;
        }
        if n < span * span {
            Ok(factor(n))
        } else {
            Err(FactorError::ResourceExhausted)
        }
    }
}

/// `c` is one of the ten decimal digits.
pub open spec fn is_decimal_digit(c: char) -> bool {
    c == '0' || c == '1' || c == '2' || c == '3' || c == '4' || c == '5' || c == '6' || c == '7'
        || c == '8' || c == '9'
}

/// The positions of the non-digit characters among the first `upto`
/// characters of `s`, in ascending order.
pub open spec fn invalid_positions(s: Seq<char>, upto: int) -> Seq<usize>
    decreases upto,
{
    if upto <= 0 {
        Seq::empty()
    } else if !is_decimal_digit(s[upto - 1]) {
        invalid_positions(s, upto - 1).push((upto - 1) as usize)
    } else {
        invalid_positions(s, upto - 1)
    }
}

/// Check that a candidate input consists solely of decimal digits.
///
/// Returns `Ok` exactly when every character is a digit; otherwise the
/// error carries the positions of all offending characters, for the
/// caller to report as it sees fit.
pub fn validate_number(s: &String) -> (res: Result<(), Vec<usize>>)
    ensures
        res is Ok <==> (forall|t: int| 0 <= t < s@.len() ==> is_decimal_digit(#[trigger] s@[t])),
        res matches Err(v) ==> v@ == invalid_positions(s@, s@.len() as int) && v@.len() > 0,
{
    let n = s.as_str().unicode_len();
    let mut bad: Vec<usize> = Vec::new();
    let mut i: usize = 0;
    while i < n
        invariant
            i <= n,
            n == s@.len(),
            bad@ == invalid_positions(s@, i as int),
            (bad@.len() == 0) <==> (forall|t: int|
                0 <= t < i ==> is_decimal_digit(#[trigger] s@[t])),
        decreases n - i,
    {
        let c = s.as_str().get_char(i);
        let ok = match c {
            '0' | '1' | '2' | '3' | '4' | '5' | '6' | '7' | '8' | '9' => true,
            _ => false,
        };
        if !ok {
            bad.push(i);
        }
        i = i + 1;
    }
    if bad.len() == 0 {
        Ok(())
    } else {
        Err(bad)
    }
}

} // verus!
