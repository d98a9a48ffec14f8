//! Bounded prime table: the sieve of Eratosthenes.
//!
//! `eratosthenes(n)` returns every prime strictly below `n`, in
//! ascending order, by marking composite entries of a boolean table.

use vstd::prelude::*;
use vstd::pervasive::VecAdditionalExecFns;
use vstd::arithmetic::div_mod::lemma_small_mod;
use vstd::arithmetic::div_mod::lemma_sub_mod_noop;
use vstd::arithmetic::div_mod::lemma_mod_multiples_basic;
use vstd::arithmetic::div_mod::lemma_mod_add_multiples_vanish;
use vstd::arithmetic::div_mod::lemma_mod_self_0;
use crate::arith::is_prime;
use crate::arith::lemma_divides_transitive;

verus! {

/// The marking state of a sieve cell: no candidate divisor below `c`
/// (and below `k` itself) divides `k`.
spec fn no_factor_below(k: int, c: int) -> bool {
    forall|d: int| 2 <= d < c && d < k ==> #[trigger] (k % d) != 0
}

/// Two distinct multiples of `p` lie at least `p` apart.
proof fn lemma_multiple_gap(p: int, m: int, t: int)
    requires
        2 <= p,
        0 <= m < t,
        m % p == 0,
        t % p == 0,
    ensures
        m + p <= t,
{
    lemma_sub_mod_noop(t, m, p);
    lemma_small_mod(0nat, p as nat);
    assert((t - m) % p == 0);
    if t - m < p {
        lemma_small_mod((t - m) as nat, p as nat);
    }
}

/// All primes strictly below `n`, in ascending order.
///
/// The table is seeded all-prime, cells `0` and `1` are cleared, and
/// each surviving head clears its proper multiples; the surviving
/// indices are exactly the primes below `n`.
pub fn eratosthenes(n: usize) -> (r: Vec<usize>)
    ensures
        forall|t: int| 0 <= t < r@.len() ==> is_prime(#[trigger] r@[t] as int) && r@[t] < n,
        forall|t1: int, t2: int| 0 <= t1 < t2 < r@.len() ==> r@[t1] < r@[t2],
        forall|q: usize| 2 <= q < n && is_prime(q as int) ==> r@.contains(q),
{
    if n <= 2 {
        let r: Vec<usize> = Vec::new();
        return r;
    }
    let mut table: Vec<bool> = Vec::new();
    let mut k: usize = 0;
    while k < n
        invariant
            k <= n,
            table@.len() == k,
            forall|t: int| 0 <= t < k ==> #[trigger] table@[t] == true,
        decreases n - k,
    {
        table.push(true);
        k = k + 1;
    }
    table.set(0, false);
    table.set(1, false);

    let mut p: usize = 2;
    while p < n
        invariant
            2 <= p <= n,
            2 < n,
            table@.len() == n,
            forall|t: int|
                0 <= t < n ==> (#[trigger] table@[t] <==> (2 <= t && no_factor_below(
                    t,
                    p as int,
                ))),
        decreases n - p,
    {
        let ghost table0 = table@;
        if table[p] {
            if p < n - p {
                let mut m: usize = p + p;
                proof {
                    lemma_mod_multiples_basic(2, p as int);
                }
                loop
                    invariant_except_break
                        forall|t: int|
                            0 <= t < n ==> (#[trigger] table@[t] <==> (table0[t] && !(t % (
                            p as int) == 0 && 2 * p <= t < m))),
                    invariant
                        2 <= p < n,
                        table@.len() == n,
                        table0.len() == n,
                        2 * p <= m < n,
                        m as int % (p as int) == 0,
                    ensures
                        table@.len() == n,
                        forall|t: int|
                            0 <= t < n ==> (#[trigger] table@[t] <==> (table0[t] && !(t % (
                            p as int) == 0 && 2 * p <= t))),
                    decreases n - m,
                {
                    table.set(m, false);
                    proof {
                        assert forall|t: int|
                            0 <= t < n implies (#[trigger] table@[t] <==> (table0[t] && !(t % (
                        p as int) == 0 && 2 * p <= t < m + p))) by {
                            if t % (p as int) == 0 && 2 * p <= t < m + p && m < t {
                                lemma_multiple_gap(p as int, m as int, t);
                            }
                        }
                    }
                    if n - m > p {
                        proof {
                            lemma_mod_add_multiples_vanish(m as int, p as int);
                        }
                        m = m + p;
                    } else {
                        proof {
                            assert forall|t: int|
                                0 <= t < n implies (#[trigger] table@[t] <==> (table0[t] && !(t
                                % (p as int) == 0 && 2 * p <= t))) by {
                                if t % (p as int) == 0 && 2 * p <= t && m < t {
                                    lemma_multiple_gap(p as int, m as int, t);
                                }
                            }
                        }
                        break ;
                    }
                }
                proof {
                    assert forall|t: int|
                        0 <= t < n implies (#[trigger] table@[t] <==> (2 <= t && no_factor_below(
                    t, p as int + 1))) by {
                        if table@[t] {
                            assert(2 <= t && no_factor_below(t, p as int));
                            assert forall|d: int| 2 <= d < p as int + 1 && d < t implies #[trigger] (
                            t % d) != 0 by {
                                if d == p as int {
                                    assert(!(t % (p as int) == 0 && 2 * p <= t));
                                    if t % (p as int) == 0 && p < t {
                                        lemma_mod_self_0(p as int);
                                        lemma_multiple_gap(p as int, p as int, t);
                                        assert(2 * p <= t);
                                    }
                                }
                            }
                        } else {
                            if 2 <= t && no_factor_below(t, p as int + 1) {
                                assert(no_factor_below(t, p as int));
                                assert(!table0[t] ==> false);
                                assert(t % (p as int) == 0 && 2 * p <= t ==> false);
                            }
                        }
                    }
                }
            } else {
                // no proper multiple of p lies below n
                proof {
                    assert forall|t: int|
                        0 <= t < n implies (#[trigger] table@[t] <==> (2 <= t && no_factor_below(
                    t, p as int + 1))) by {
                        if table@[t] {
                            assert forall|d: int| 2 <= d < p as int + 1 && d < t implies #[trigger] (
                            t % d) != 0 by {
                                if d == p as int && t % (p as int) == 0 && p < t {
                                    lemma_mod_self_0(p as int);
                                    lemma_multiple_gap(p as int, p as int, t);
                                    assert(2 * p <= t && t < n);
                                }
                            }
                        }
                    }
                }
            }
        } else {
            // p itself is composite: its witness divisor also covers
            // every multiple of p, so nothing new needs marking
            proof {
                assert(!(2 <= p as int && no_factor_below(p as int, p as int)));
                let d0 = choose|d: int| 2 <= d < p as int && d < p as int && #[trigger] (
                (p as int) % d) == 0;
                assert forall|t: int|
                    0 <= t < n implies (#[trigger] table@[t] <==> (2 <= t && no_factor_below(
                t, p as int + 1))) by {
                    if table@[t] {
                        assert(2 <= t && no_factor_below(t, p as int));
                        assert forall|d: int| 2 <= d < p as int + 1 && d < t implies #[trigger] (
                        t % d) != 0 by {
                            if d == p as int && t % (p as int) == 0 {
                                lemma_divides_transitive(d0, p as int, t);
                                assert(t % d0 == 0);
                            }
                        }
                    }
                }
            }
        }
        p = p + 1;
    }

    proof {
        assert forall|t: int| 0 <= t < n implies (#[trigger] table@[t] <==> is_prime(t)) by {
            if 2 <= t {
                assert(no_factor_below(t, n as int) <==> is_prime(t));
            }
        }
    }

    let mut primes: Vec<usize> = Vec::new();
    let mut i: usize = 0;
    while i < n
        invariant
            i <= n,
            table@.len() == n,
            forall|t: int| 0 <= t < n ==> (#[trigger] table@[t] <==> is_prime(t)),
            forall|t: int|
                0 <= t < primes@.len() ==> is_prime(#[trigger] primes@[t] as int) && primes@[t]
                    < i,
            forall|t1: int, t2: int| 0 <= t1 < t2 < primes@.len() ==> primes@[t1] < primes@[t2],
            forall|q: usize| q < i && is_prime(q as int) ==> primes@.contains(q),
        decreases n - i,
    {
        let ghost primes0 = primes@;
        if table[i] {
            primes.push(i);
        }
        proof {
            assert forall|q: usize| q < i + 1 && is_prime(q as int) implies primes@.contains(
            q) by {
                if q < i {
                    let t0 = choose|t0: int| 0 <= t0 < primes0.len() && primes0[t0] == q;
                    assert(primes@[t0] == q);
                } else {
                    assert(table@[q as int]);
                    assert(primes@[primes@.len() - 1] == q);
                }
            }
        }
        i = i + 1;
    }
    primes
}

} // verus!
