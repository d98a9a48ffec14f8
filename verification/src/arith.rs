//! Mathematical model shared by the numeric routines: divisibility,
//! primality, sequence products, and the lemmas relating them.

use vstd::prelude::*;
use vstd::arithmetic::div_mod::lemma_fundamental_div_mod;
use vstd::arithmetic::div_mod::lemma_mod_multiples_basic;
use vstd::arithmetic::div_mod::lemma_mod_self_0;
use vstd::arithmetic::div_mod::lemma_small_mod;
use vstd::arithmetic::div_mod::lemma_add_mod_noop;
use vstd::arithmetic::div_mod::lemma_sub_mod_noop;
use vstd::arithmetic::mul::lemma_mul_is_associative;
use vstd::arithmetic::mul::lemma_mul_is_commutative;

verus! {

/// `d` divides `n` exactly.
pub open spec fn divides(d: int, n: int) -> bool {
    n % d == 0
}

/// `p` is a prime number: at least 2, with no divisor in `[2, p)`.
pub open spec fn is_prime(p: int) -> bool {
    2 <= p && forall|d: int| 2 <= d < p ==> #[trigger] (p % d) != 0
}

/// Product of a sequence of 64-bit values, as a mathematical integer.
pub open spec fn product(s: Seq<u64>) -> int
    decreases s.len(),
{
    if s.len() == 0 {
        1
    } else {
        s[0] * product(s.drop_first())
    }
}

/// If `d` divides `n`, then `d` divides any multiple `k * n`.
pub proof fn lemma_divides_scaled(d: int, n: int, k: int)
    requires
        1 <= d,
        n % d == 0,
    ensures
        (k * n) % d == 0,
{
    lemma_fundamental_div_mod(n, d);
    assert(k * n == (k * (n / d)) * d) by {
        lemma_mul_is_associative(k, d, n / d);
        lemma_mul_is_associative(k, n / d, d);
    }
    lemma_mod_multiples_basic(k * (n / d), d);
}

/// Divisibility is transitive: `d | m` and `m | n` give `d | n`.
pub proof fn lemma_divides_transitive(d: int, m: int, n: int)
    requires
        1 <= d,
        1 <= m,
        m % d == 0,
        n % m == 0,
    ensures
        n % d == 0,
{
    lemma_fundamental_div_mod(n, m);
    lemma_divides_scaled(d, m, n / m);
    assert(n == (n / m) * m);
}

/// A positive divisor of a positive number is no larger than it.
pub proof fn lemma_divisor_le(d: int, n: int)
    requires
        1 <= d,
        1 <= n,
        n % d == 0,
    ensures
        d <= n,
{
    if d > n {
        lemma_small_mod(n as nat, d as nat);
    }
}

/// A common divisor of `a` and `b` also divides the remainder `a % b`.
pub proof fn lemma_divides_mod(d: int, a: int, b: int)
    requires
        1 <= d,
        1 <= b,
        0 <= a,
        a % d == 0,
        b % d == 0,
    ensures
        (a % b) % d == 0,
{
    lemma_fundamental_div_mod(a, b);
    lemma_divides_scaled(d, b, a / b);
    lemma_mul_is_commutative(a / b, b);
    lemma_sub_mod_noop(a, b * (a / b), d);
    assert(((a % d) - ((b * (a / b)) % d)) % d == (a - b * (a / b)) % d);
    lemma_small_mod(0nat, d as nat);
    assert(a % b == a - b * (a / b));
}

/// A divisor of `b` and of `a % b` also divides `a`.
pub proof fn lemma_divides_from_mod(d: int, a: int, b: int)
    requires
        1 <= d,
        1 <= b,
        0 <= a,
        b % d == 0,
        (a % b) % d == 0,
    ensures
        a % d == 0,
{
    lemma_fundamental_div_mod(a, b);
    lemma_divides_scaled(d, b, a / b);
    lemma_mul_is_commutative(a / b, b);
    lemma_add_mod_noop(b * (a / b), a % b, d);
    assert((((b * (a / b)) % d) + ((a % b) % d)) % d == (b * (a / b) + a % b) % d);
    lemma_small_mod(0nat, d as nat);
    assert(a == b * (a / b) + a % b);
}

/// Appending an element multiplies the product of a sequence by it.
pub proof fn lemma_product_push(s: Seq<u64>, x: u64)
    ensures
        product(s.push(x)) == product(s) * x,
    decreases s.len(),
{
    reveal_with_fuel(product, 3);
    if s.len() == 0 {
        assert(s.push(x).len() == 1);
        assert(s.push(x)[0] == x);
        assert(s.push(x).drop_first() =~= Seq::<u64>::empty());
        assert(product(s.push(x)) == x * product(Seq::<u64>::empty()));
    } else {
        assert(s.push(x)[0] == s[0]);
        assert(s.push(x).drop_first() =~= s.drop_first().push(x));
        lemma_product_push(s.drop_first(), x);
        assert(product(s.push(x)) == s[0] * (product(s.drop_first()) * x));
        lemma_mul_is_associative(s[0] as int, product(s.drop_first()), x as int);
        assert(product(s) == s[0] * product(s.drop_first()));
    }
}

/// Every integer of at least 2 has a prime divisor.
pub proof fn lemma_prime_factor_exists(m: int) -> (q: int)
    requires
        2 <= m,
    ensures
        is_prime(q),
        m % q == 0,
        2 <= q <= m,
    decreases m,
{
    if is_prime(m) {
        lemma_mod_self_0(m);
        m
    } else {
        let d = choose|d: int| 2 <= d < m && #[trigger] (m % d) == 0;
        let q = lemma_prime_factor_exists(d);
        lemma_divides_transitive(q, d, m);
        q
    }
}

/// A composite number has a prime divisor whose square does not exceed it.
pub proof fn lemma_composite_small_prime_factor(m: int) -> (q: int)
    requires
        2 <= m,
        !is_prime(m),
    ensures
        is_prime(q),
        m % q == 0,
        2 <= q,
        q * q <= m,
{
    let d = choose|d: int| 2 <= d < m && #[trigger] (m % d) == 0;
    let c = m / d;
    lemma_fundamental_div_mod(m, d);
    assert(m == d * c);
    assert(2 <= c) by (nonlinear_arith)
        requires
            m == d * c,
            2 <= d < m,
            0 <= c,
    ;
    assert(m % c == 0) by {
        lemma_mod_multiples_basic(d, c);
    }
    if d * d <= m {
        let q = lemma_prime_factor_exists(d);
        lemma_divides_transitive(q, d, m);
        assert(q * q <= m) by (nonlinear_arith)
            requires
                1 <= q <= d,
                d * d <= m,
        ;
        q
    } else {
        assert(c * c <= m) by (nonlinear_arith)
            requires
                m == d * c,
                m < d * d,
                1 <= c,
                1 <= d,
        ;
        let q = lemma_prime_factor_exists(c);
        lemma_divides_transitive(q, c, m);
        assert(q * q <= m) by (nonlinear_arith)
            requires
                1 <= q <= c,
                c * c <= m,
        ;
        q
    }
}

} // verus!
