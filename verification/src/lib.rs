//! Verified integer-factorization engine.
//!
//! The crate decomposes a 64-bit unsigned integer into its prime factors,
//! built on three supporting numeric primitives: a bounded prime sieve,
//! a greatest-common-divisor routine, and fast (wrapping) exponentiation
//! and multiplication, together with exact integer root extraction.
//! Every executable function carries a contract proved by Verus.

pub mod arith;
pub mod fastcalc;
pub mod prime;
pub mod factor;

pub use fastcalc::fastpow;
pub use fastcalc::fastpow_norec;
pub use fastcalc::fastmul;
pub use fastcalc::fastmul_norec;
pub use fastcalc::isqrt;
pub use fastcalc::iroot;
pub use prime::eratosthenes;
pub use factor::factor;
pub use factor::gcd;
pub use factor::try_gcd;
pub use factor::try_factor;
pub use factor::validate_number;
pub use factor::FactorError;
