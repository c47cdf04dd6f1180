//! Prime search: stepping to neighbouring probable primes and deriving
//! the largest prime under a byte-size bound that is congruent to 3 mod 4.
//!
//! The probabilistic test never calls a true prime composite, so the
//! search loops prove that no prime is ever skipped: maximality of the
//! result is a theorem. The contracts also record that the result
//! itself passed the test, through the named deterministic verdict of
//! the backend; that the result is truly prime remains probabilistic
//! and is exercised by tests.

use vstd::prelude::*;
use vstd::arithmetic::power::pow;
use vstd::arithmetic::power::{lemma_pow_positive, lemma_pow1, lemma_pow_increases};
use vstd::arithmetic::div_mod::{
    lemma_fundamental_div_mod, lemma_mod_multiples_vanish, lemma_mod_multiples_basic,
    lemma_mod_add_multiples_vanish, lemma_small_mod, lemma_mod_self_0,
};
use vstd::arithmetic::mul::lemma_mul_is_commutative;
use crate::num::{Num, num_from_u8, max_for_bytes};
use crate::backend::{sub_val, add_u32, div_exact_u32, prime_test, prime_verdict_of, Primality};

verus! {

/// Mathematical primality: at least 2 and without a proper divisor.
pub open spec fn is_prime(n: nat) -> bool {
    n >= 2 && forall|d: nat| 2 <= d < n ==> #[trigger] (n % d) != 0
}

/// An even number above 2 is composite.
pub proof fn lemma_even_composite(q: nat)
    requires
        q > 2,
        q % 2 == 0,
    ensures
        !is_prime(q),
{
    if is_prime(q) {
        assert(q % (2 as nat) != 0);
    }
}

/// 3 is prime.
pub proof fn lemma_three_prime()
    ensures
        is_prime(3),
{
    assert forall|d: nat| 2 <= d < 3 implies #[trigger] ((3 as nat) % d) != 0 by {
        assert(d == 2);
        assert((3 as nat) % (2 as nat) == 1);
    }
}

/// The parity of a successor flips.
pub proof fn lemma_succ_parity(x: nat)
    ensures
        x % 2 == 0 ==> (x + 1) % 2 == 1,
        x % 2 == 1 ==> (x + 1) % 2 == 0,
{
    lemma_fundamental_div_mod(x as int, 2);
    let k = x as int / 2;
    if x % 2 == 0 {
        lemma_mod_multiples_vanish(k, 1, 2);
    } else {
        lemma_mod_multiples_basic(k + 1, 2);
        assert((k + 1) * 2 == 2 * k + 2) by (nonlinear_arith);
    }
}

/// Stepping by 2 keeps the parity.
pub proof fn lemma_step2_parity(x: nat)
    ensures
        (x + 2) % 2 == x % 2,
{
    lemma_mod_add_multiples_vanish(x as int, 2);
}

/// An odd number is 1 or 3 modulo 4.
pub proof fn lemma_odd_mod4(n: nat)
    requires
        n % 2 == 1,
    ensures
        n % 4 == 1 || n % 4 == 3,
{
    lemma_fundamental_div_mod(n as int, 4);
    let k = n as int / 4;
    let r = n as int % 4;
    lemma_mod_multiples_vanish(2 * k, r, 2);
    assert(2 * (2 * k) == 4 * k) by (nonlinear_arith);
    assert(n as int % 2 == r % 2);
}

/// For a modulus congruent to 3 mod 4, the exponent derivation loses no
/// remainder: 4 divides modulus + 1 exactly.
pub proof fn lemma_exponent_exact(p: nat)
    requires
        p % 4 == 3,
    ensures
        (p + 1) % 4 == 0,
{
    lemma_fundamental_div_mod(p as int, 4);
    let k = p as int / 4;
    assert((k + 1) * 4 == 4 * k + 4) by (nonlinear_arith);
    lemma_mod_multiples_basic(k + 1, 4);
}

/// 3 divides the byte-size bound 256^n - 1.
pub proof fn lemma_bound_divisible_by_three(n: nat)
    requires
        n >= 1,
    ensures
        (pow(256, n) - 1) % 3 == 0,
    decreases n,
{
    lemma_pow_positive(256, n);
    if n == 1 {
        lemma_pow1(256);
        assert((256 - 1) % 3 == 0);
    } else {
        lemma_bound_divisible_by_three((n - 1) as nat);
        lemma_pow_positive(256, (n - 1) as nat);
        assert(pow(256, n) == 256 * pow(256, (n - 1) as nat)) by {
            reveal(pow);
        }
        let m = pow(256, (n - 1) as nat) - 1;
        lemma_fundamental_div_mod(m, 3);
        let t = m / 3;
        assert(pow(256, n) - 1 == 256 * m + 255);
        assert(256 * (3 * t) + 255 == 3 * (256 * t + 85)) by (nonlinear_arith);
        lemma_mod_multiples_basic(256 * t + 85, 3);
        assert(3 * (256 * t + 85) == (256 * t + 85) * 3) by (nonlinear_arith);
    }
}

/// The byte-size bound 256^n - 1 itself is composite: it is a multiple
/// of 3 strictly above 3.
pub proof fn lemma_bound_composite(n: nat)
    requires
        n >= 1,
    ensures
        !is_prime((pow(256, n) - 1) as nat),
{
    lemma_pow1(256);
    lemma_pow_increases(256, 1, n);
    let b = (pow(256, n) - 1) as nat;
    lemma_bound_divisible_by_three(n);
    if is_prime(b) {
        assert(b % (3 as nat) != 0);
    }
}

/// The greatest common divisor, by the Euclidean recursion.
pub open spec fn gcd(a: nat, b: nat) -> nat
    decreases b,
{
    if b == 0 {
        a
    } else {
        gcd(b, a % b)
    }
}

/// Bezout coefficients: the greatest common divisor is an integer
/// combination of the two numbers.
pub proof fn lemma_bezout(a: nat, b: nat) -> (r: (int, int))
    ensures
        r.0 * a + r.1 * b == gcd(a, b),
    decreases b,
{
    if b == 0 {
        (1, 0)
    } else {
        let (s, t) = lemma_bezout(b, a % b);
        lemma_fundamental_div_mod(a as int, b as int);
        let q = a as int / b as int;
        assert(s * (b as int) + t * ((a as int) - (b as int) * q)
            == t * (a as int) + (s - t * q) * (b as int)) by (nonlinear_arith);
        (t, s - t * q)
    }
}

/// The greatest common divisor is positive and divides both numbers.
pub proof fn lemma_gcd_divides(a: nat, b: nat)
    requires
        a > 0 || b > 0,
    ensures
        gcd(a, b) > 0,
        a % gcd(a, b) == 0,
        b % gcd(a, b) == 0,
    decreases b,
{
    if b == 0 {
        lemma_mod_self_0(a as int);
        lemma_small_mod(0, a);
    } else {
        lemma_gcd_divides(b, a % b);
        let g = gcd(b, a % b);
        lemma_fundamental_div_mod(a as int, b as int);
        let q = a as int / b as int;
        let r = (a % b) as int;
        lemma_fundamental_div_mod(b as int, g as int);
        let b2 = b as int / g as int;
        lemma_fundamental_div_mod(r, g as int);
        let r2 = r / g as int;
        assert(a as int == (b2 * q + r2) * (g as int)) by (nonlinear_arith)
            requires
                a as int == (b as int) * q + r,
                b as int == (g as int) * b2,
                r == (g as int) * r2,
        ;
        lemma_mod_multiples_basic(b2 * q + r2, g as int);
    }
}

/// Euclid's lemma: a prime dividing a product divides one of the
/// factors.
pub proof fn lemma_prime_divides_product(p: nat, a: nat, b: nat)
    requires
        is_prime(p),
        (a * b) % p == 0,
        a % p != 0,
    ensures
        b % p == 0,
{
    let u = a % p;
    assert(0 < u < p);
    lemma_gcd_divides(p, u);
    let g = gcd(p, u);
    if g >= 2 {
        if g < p {
            assert(p % g != 0);
        } else {
            lemma_small_mod(u, g);
        }
        assert(false);
    }
    let (s, t) = lemma_bezout(p, u);
    let pi = p as int;
    let bi = b as int;
    let ui = u as int;
    lemma_fundamental_div_mod((a * b) as int, pi);
    let ki = ((a * b) as int) / pi;
    lemma_fundamental_div_mod(a as int, pi);
    let q = (a as int) / pi;
    assert(ui * bi == pi * (ki - q * bi)) by (nonlinear_arith)
        requires
            (a as int) * bi == pi * ki,
            a as int == pi * q + ui,
            (a * b) as int == (a as int) * bi,
    ;
    assert(bi == pi * (s * bi + t * (ki - q * bi))) by (nonlinear_arith)
        requires
            s * pi + t * ui == 1,
            ui * bi == pi * (ki - q * bi),
    ;
    lemma_mul_is_commutative(pi, s * bi + t * (ki - q * bi));
    lemma_mod_multiples_basic(s * bi + t * (ki - q * bi), pi);
}

/// No power of a nonzero residue vanishes modulo a prime.
pub proof fn lemma_pow_mod_nonzero(u: nat, e: nat, p: nat)
    requires
        is_prime(p),
        0 < u < p,
    ensures
        pow(u as int, e) % (p as int) != 0,
    decreases e,
{
    if e == 0 {
        vstd::arithmetic::power::lemma_pow0(u as int);
        lemma_small_mod(1, p);
    } else {
        lemma_pow_mod_nonzero(u, (e - 1) as nat, p);
        lemma_pow_positive(u as int, (e - 1) as nat);
        let w = pow(u as int, (e - 1) as nat) as nat;
        assert(pow(u as int, e) == (u as int) * pow(u as int, (e - 1) as nat)) by {
            reveal(pow);
        }
        if pow(u as int, e) % (p as int) == 0 {
            lemma_small_mod(u, p);
            lemma_prime_divides_product(p, u, w);
            assert(false);
        }
    }
}

/// Advances to the next odd candidate above the value that does not
/// test composite. No odd prime is skipped: every number strictly
/// between the old and the new value, other than 2, is certainly
/// composite. The result returns whether the search found a candidate
/// that passed the test: true exactly when the new value's verdict is
/// not "composite".
pub fn next_prime(p: &mut Num) -> (found: bool)
    requires
        old(p).wf(),
    ensures
        final(p)@ > old(p)@,
        final(p)@ % 2 == 1,
        final(p).wf(),
        found <==> prime_verdict_of(final(p)@, crate::PRIME_CHECK_ITERS as nat) != 0,
        forall|q: nat| old(p)@ < q < final(p)@ && q != 2 ==> !is_prime(q),
        old(p)@ >= 2 ==> forall|q: nat| old(p)@ < q < final(p)@ ==> !is_prime(q),
{
    let even = p.is_even();
    if even {
        proof {
            lemma_succ_parity(p@);
        }
        *p = add_u32(p, 1);
    } else {
        proof {
            lemma_step2_parity(p@);
            lemma_succ_parity(p@);
        }
        *p = add_u32(p, 2);
    }
    proof {
        assert forall|q: nat| old(p)@ < q < p@ && q != 2 implies !is_prime(q) by {
            lemma_even_composite(q);
        }
    }
    let mut composite = match prime_test(p, crate::PRIME_CHECK_ITERS) {
        Primality::Composite => true,
        Primality::ProbablyPrime => false,
        Primality::CertainlyPrime => false,
    };
    // The upward walk carries a fuel counter only so that the loop has a
    // termination measure; prime gaps are minute next to it, so it is
    // never exhausted in practice. Should it ever run out, the walk
    // stops on a composite candidate and the result reports that.
    let mut fuel: u64 = 0xffff_ffff_ffff_ffff;
    while composite && fuel > 0
        invariant
            p@ > old(p)@,
            p@ % 2 == 1,
            p.wf(),
            composite == (prime_verdict_of(p@, crate::PRIME_CHECK_ITERS as nat) == 0),
            composite ==> !is_prime(p@),
            forall|q: nat| old(p)@ < q < p@ && q != 2 ==> !is_prime(q),
            old(p)@ >= 2 ==> forall|q: nat| old(p)@ < q < p@ ==> !is_prime(q),
        decreases fuel,
    {
        fuel = fuel - 1;
        proof {
            lemma_succ_parity(p@);
            lemma_step2_parity(p@);
            assert forall|q: nat| old(p)@ < q < p@ + 2 && q != 2 implies !is_prime(q) by {
                if q == p@ + 1 {
                    lemma_even_composite(q);
                }
            }
            if old(p)@ >= 2 {
                assert forall|q: nat| old(p)@ < q < p@ + 2 implies !is_prime(q) by {
                    if q == p@ + 1 {
                        lemma_even_composite(q);
                    }
                }
            }
        }
        *p = add_u32(p, 2);
        composite = match prime_test(p, crate::PRIME_CHECK_ITERS) {
            Primality::Composite => true,
            Primality::ProbablyPrime => false,
            Primality::CertainlyPrime => false,
        };
    }
    !composite
}

/// Steps down to the largest odd candidate below the value that does
/// not test composite. Every number strictly between the new and the
/// old value is certainly composite: no prime is skipped, and the
/// result itself passed the primality test.
pub fn prev_prime(p: &mut Num)
    requires
        old(p)@ >= 4,
        old(p).wf(),
    ensures
        3 <= final(p)@ < old(p)@,
        final(p)@ % 2 == 1,
        final(p).wf(),
        prime_verdict_of(final(p)@, crate::PRIME_CHECK_ITERS as nat) != 0,
        forall|q: nat| final(p)@ < q < old(p)@ ==> !is_prime(q),
{
    let even = p.is_even();
    if even {
        proof {
            lemma_succ_parity((p@ - 1) as nat);
        }
        let one = num_from_u8(1);
        *p = sub_val(p, &one);
    } else {
        proof {
            lemma_step2_parity((p@ - 2) as nat);
        }
        let two = num_from_u8(2);
        *p = sub_val(p, &two);
    }
    proof {
        assert forall|q: nat| p@ < q < old(p)@ implies !is_prime(q) by {
            lemma_succ_parity((q - 1) as nat);
            lemma_even_composite(q);
        }
    }
    let mut composite = match prime_test(p, crate::PRIME_CHECK_ITERS) {
        Primality::Composite => true,
        Primality::ProbablyPrime => false,
        Primality::CertainlyPrime => false,
    };
    while composite
        invariant
            3 <= p@ < old(p)@,
            p@ % 2 == 1,
            p.wf(),
            composite == (prime_verdict_of(p@, crate::PRIME_CHECK_ITERS as nat) == 0),
            composite ==> !is_prime(p@),
            forall|q: nat| p@ < q < old(p)@ ==> !is_prime(q),
        decreases p@,
    {
        proof {
            lemma_three_prime();
            assert(p@ != 3);
            assert(p@ >= 5);
            lemma_succ_parity((p@ - 1) as nat);
            lemma_step2_parity((p@ - 2) as nat);
            assert forall|q: nat| p@ - 2 < q < old(p)@ implies !is_prime(q) by {
                if q == p@ - 1 {
                    lemma_even_composite(q);
                }
            }
        }
        let two = num_from_u8(2);
        *p = sub_val(p, &two);
        composite = match prime_test(p, crate::PRIME_CHECK_ITERS) {
            Primality::Composite => true,
            Primality::ProbablyPrime => false,
            Primality::CertainlyPrime => false,
        };
    }
}

/// The largest candidate below 2^(8 n) that passes the primality test
/// and is congruent to 3 mod 4. The result's test verdict is part of
/// the contract, and maximality is proved: every larger value under the
/// bound with that congruence is certainly composite.
pub fn gen_largest_prime(max_size_bytes: usize) -> (r: Num)
    requires
        max_size_bytes >= 1,
    ensures
        r.wf(),
        3 <= r@ < pow(256, max_size_bytes as nat),
        r@ % 4 == 3,
        r@ % 2 == 1,
        prime_verdict_of(r@, crate::PRIME_CHECK_ITERS as nat) != 0,
        forall|q: nat|
            r@ < q < pow(256, max_size_bytes as nat) && q % 4 == 3 ==> !is_prime(q),
{
    let nb = max_size_bytes;
    let mut prime = max_for_bytes(nb);
    prev_prime(&mut prime);
    proof {
        lemma_bound_composite(nb as nat);
        assert forall|q: nat| prime@ < q < pow(256, nb as nat) && q % 4 == 3
            implies !is_prime(q) by {
            if q == pow(256, nb as nat) - 1 {
                lemma_bound_composite(nb as nat);
            }
        }
    }
    let mut m = prime.mod4();
    while m != 3
        invariant
            prime.wf(),
            3 <= prime@ < pow(256, nb as nat),
            prime@ % 2 == 1,
            m == prime@ % 4,
            prime_verdict_of(prime@, crate::PRIME_CHECK_ITERS as nat) != 0,
            forall|q: nat| prime@ < q < pow(256, nb as nat) && q % 4 == 3 ==> !is_prime(q),
        decreases prime@,
    {
        proof {
            lemma_odd_mod4(prime@);
            assert(prime@ % 4 == 1);
            assert((3 as nat) % 4 == 3);
            assert(prime@ != 3);
            assert(prime@ >= 4);
        }
        let ghost before = prime@;
        prev_prime(&mut prime);
        proof {
            assert forall|q: nat| prime@ < q < pow(256, nb as nat) && q % 4 == 3
                implies !is_prime(q) by {
                if q == before {
                    assert(q % 4 == 1);
                }
            }
        }
        m = prime.mod4();
    }
    prime
}

/// The permutation exponent (prime + 1) / 4; the division is exact
/// because the prime is congruent to 3 mod 4.
pub fn derive_exponent(p: &Num) -> (r: Num)
    requires
        p.wf(),
        p@ % 4 == 3,
    ensures
        r@ * 4 == p@ + 1,
        r.wf(),
{
    proof {
        lemma_exponent_exact(p@);
    }
    let t = add_u32(p, 1);
    div_exact_u32(&t, 4)
}

} // verus!
