//! Trusted boundary to the arbitrary-precision arithmetic library.
//!
//! Each function here performs one call into the `rug` bignum crate (GMP
//! underneath), converting between the crate's `Integer` and this
//! library's canonical digit vectors. The contracts state what the GMP
//! documentation promises of each call; nothing else is assumed.
//!
//! Every conversion relies on `rug::Integer::from_digits` and
//! `rug::Integer::to_digits` with least-significant-first byte order,
//! which read and write exactly the base-256 digit strings that
//! `digits_value` models, with no trailing zero byte in the output.

use vstd::prelude::*;
use vstd::arithmetic::power::pow;
use crate::num::Num;
use crate::primes::is_prime;

verus! {

/// Verdict of the probabilistic primality test.
pub enum Primality {
    /// The number is certainly composite.
    Composite,
    /// The number passed every round of the test.
    ProbablyPrime,
    /// The number is certainly prime.
    CertainlyPrime,
}

/// The Legendre (Jacobi) symbol of `a` with respect to the odd modulus
/// `p`, exactly as the arithmetic library computes it: a pure function
/// of the two values whose full definition is not restated here.
pub uninterp spec fn legendre_of(a: nat, p: nat) -> int;

/// The verdict of GMP's `mpz_probab_prime_p` for a value and a round
/// count: 0 for certainly composite, 1 for probably prime, 2 for
/// certainly prime. The test draws its Miller-Rabin bases from a random
/// state initialised with the fixed default seed and never reseeded, so
/// for this build the verdict is a pure function of the two arguments.
pub uninterp spec fn prime_verdict_of(n: nat, reps: nat) -> int;

/// Relies on `rug::Integer` subtraction: the exact difference of the two
/// values.
#[verifier::external_body]
pub(crate) fn sub_val(a: &Num, b: &Num) -> (r: Num)
    requires
        b@ <= a@,
    ensures
        r@ == a@ - b@,
        r.wf(),
{
    let ai = rug::Integer::from_digits(&a.digits, rug::integer::Order::Lsf);
    let bi = rug::Integer::from_digits(&b.digits, rug::integer::Order::Lsf);
    let d = ai - bi;
    Num { digits: d.to_digits::<u8>(rug::integer::Order::Lsf) }
}

/// Relies on `rug::Integer` addition of a small unsigned term: the exact
/// sum of the two values.
#[verifier::external_body]
pub(crate) fn add_u32(a: &Num, k: u32) -> (r: Num)
    ensures
        r@ == a@ + k,
        r.wf(),
{
    let ai = rug::Integer::from_digits(&a.digits, rug::integer::Order::Lsf);
    let s = ai + k;
    Num { digits: s.to_digits::<u8>(rug::integer::Order::Lsf) }
}

/// Relies on `rug::Integer::div_exact_u` (GMP exact division), which is
/// correct exactly when the divisor divides the value.
#[verifier::external_body]
pub(crate) fn div_exact_u32(a: &Num, d: u32) -> (r: Num)
    requires
        d >= 1,
        a@ % (d as nat) == 0,
    ensures
        r@ * d == a@,
        r.wf(),
{
    let ai = rug::Integer::from_digits(&a.digits, rug::integer::Order::Lsf);
    let q = ai.div_exact_u(d);
    Num { digits: q.to_digits::<u8>(rug::integer::Order::Lsf) }
}

/// Relies on `rug::Integer::pow_mod` (GMP `mpz_powm`): base raised to a
/// non-negative exponent, reduced modulo a positive modulus, with the
/// non-negative representative below the modulus. With such arguments an
/// answer always exists, so the error branch is never taken.
#[verifier::external_body]
pub(crate) fn pow_mod_val(b: &Num, e: &Num, m: &Num) -> (r: Num)
    requires
        m@ >= 1,
    ensures
        r@ == pow(b@ as int, e@) % (m@ as int),
        r.wf(),
{
    let bi = rug::Integer::from_digits(&b.digits, rug::integer::Order::Lsf);
    let ei = rug::Integer::from_digits(&e.digits, rug::integer::Order::Lsf);
    let mi = rug::Integer::from_digits(&m.digits, rug::integer::Order::Lsf);
    let out = match bi.pow_mod(&ei, &mi) {
        Ok(v) => v,
        Err(v) => v,
    };
    Num { digits: out.to_digits::<u8>(rug::integer::Order::Lsf) }
}

/// Relies on `rug::Integer::legendre` (GMP `mpz_legendre`), defined for
/// odd moduli of at least 3; its result depends on the two values alone.
#[verifier::external_body]
pub(crate) fn legendre_sym(a: &Num, p: &Num) -> (r: i32)
    requires
        p@ % 2 == 1,
        p@ >= 3,
    ensures
        r == legendre_of(a@, p@),
{
    let ai = rug::Integer::from_digits(&a.digits, rug::integer::Order::Lsf);
    let pi = rug::Integer::from_digits(&p.digits, rug::integer::Order::Lsf);
    ai.legendre(&pi)
}

/// Relies on `rug::Integer::is_probably_prime` (GMP
/// `mpz_probab_prime_p`): a verdict of "definitely not prime" is only
/// returned for composites, and "definitely prime" only for primes; a
/// probable verdict promises nothing. The verdict is the deterministic
/// `prime_verdict_of`. The round count must fit a C `int`: rug converts
/// it with a cast that panics above that range.
#[verifier::external_body]
pub(crate) fn prime_test(n: &Num, reps: u32) -> (r: Primality)
    requires
        reps <= 0x7fff_ffff,
    ensures
        r is Composite <==> prime_verdict_of(n@, reps as nat) == 0,
        r is ProbablyPrime <==> prime_verdict_of(n@, reps as nat) == 1,
        r is CertainlyPrime <==> prime_verdict_of(n@, reps as nat) == 2,
        r is Composite ==> !is_prime(n@),
        r is CertainlyPrime ==> is_prime(n@),
{
    let ni = rug::Integer::from_digits(&n.digits, rug::integer::Order::Lsf);
    match ni.is_probably_prime(reps) {
        rug::integer::IsPrime::No => Primality::Composite,
        rug::integer::IsPrime::Probably => Primality::ProbablyPrime,
        rug::integer::IsPrime::Yes => Primality::CertainlyPrime,
    }
}

/// Relies on the `rug::Integer` ordering, which compares the numeric
/// values.
#[verifier::external_body]
pub(crate) fn lt_val(a: &Num, b: &Num) -> (r: bool)
    ensures
        r == (a@ < b@),
{
    let ai = rug::Integer::from_digits(&a.digits, rug::integer::Order::Lsf);
    let bi = rug::Integer::from_digits(&b.digits, rug::integer::Order::Lsf);
    ai < bi
}

/// Relies on `rand::random` for a 32-byte array: nothing is assumed of
/// the bytes beyond their count.
#[verifier::external_body]
pub(crate) fn random_block() -> (r: Vec<u8>)
    ensures
        r@.len() == 32,
{
    rand::random::<[u8; 32]>().to_vec()
}

} // verus!
