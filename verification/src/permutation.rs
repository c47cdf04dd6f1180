//! The modular-square-root permutation and its inverse.
//!
//! With a prime modulus congruent to 3 mod 4 and the exponent
//! (prime + 1) / 4, exponentiation extracts a modular square root. The
//! forward direction chooses, by the Legendre symbol, whether to root
//! the input or its additive complement, and then canonicalises the two
//! roots {t, prime - t} by parity; the inverse squares and undoes the
//! parity flip by looking at its own input's parity. The contracts pin
//! both directions down exactly, and the lemmas here prove that the
//! parity canonicalisation is undone exactly by the inverse.

use vstd::prelude::*;
use vstd::arithmetic::power::pow;
use vstd::arithmetic::power::lemma_square_is_pow2;
use vstd::arithmetic::div_mod::{
    lemma_fundamental_div_mod, lemma_mod_multiples_vanish, lemma_mod_multiples_basic,
};
use crate::digits::digits_value;
use crate::num::{Num, num_from_u8, from_block, to_block, bytes_eq, lemma_codec_bijective};
use crate::backend::{legendre_of, legendre_sym, pow_mod_val, sub_val, lt_val, random_block};
use crate::primes::{gen_largest_prime, derive_exponent, is_prime, lemma_pow_mod_nonzero};

verus! {

/// b^e modulo p, as a natural number below p (for p >= 1).
pub open spec fn mod_pow(b: nat, e: nat, p: nat) -> nat {
    (pow(b as int, e) % (p as int)) as nat
}

/// Residue-branch canonicalisation: keep an even root, else flip it to
/// its complement.
pub open spec fn canon_even(t: nat, p: nat) -> nat {
    if t % 2 == 0 {
        t
    } else {
        (p - t) as nat
    }
}

/// Non-residue-branch canonicalisation: keep an odd root, else flip it
/// to its complement.
pub open spec fn canon_odd(t: nat, p: nat) -> nat {
    if t % 2 == 1 {
        t
    } else {
        (p - t) as nat
    }
}

/// The value the forward permutation returns for input x, exponent e and
/// modulus p: the parity-canonicalised root of x on the residue branch,
/// of p - x otherwise.
pub open spec fn forward_spec(x: nat, e: nat, p: nat) -> nat {
    if legendre_of(x, p) == 1 {
        canon_even(mod_pow(x, e, p), p)
    } else {
        canon_odd(mod_pow((p - x) as nat, e, p), p)
    }
}

/// The value the inverse returns for input y and modulus p: the square
/// of y modulo p, complemented when y itself is odd.
pub open spec fn inverse_spec(y: nat, p: nat) -> nat {
    if y % 2 == 0 {
        mod_pow(y, 2, p)
    } else {
        (p - mod_pow(y, 2, p)) as nat
    }
}

/// Forward permutation ("encode"): Legendre-gated modular square root
/// with parity canonicalisation.
pub fn sqrt_permutation(input: &Num, exp: &Num, prime: &Num) -> (r: Num)
    requires
        input.wf(),
        exp.wf(),
        prime.wf(),
        prime@ % 2 == 1,
        prime@ >= 3,
        input@ < prime@,
    ensures
        r@ == forward_spec(input@, exp@, prime@),
        r@ <= prime@,
        r.wf(),
{
    let l = legendre_sym(input, prime);
    if l == 1 {
        let t = pow_mod_val(input, exp, prime);
        if t.is_even() {
            t
        } else {
            sub_val(prime, &t)
        }
    } else {
        let u = sub_val(prime, input);
        let t = pow_mod_val(&u, exp, prime);
        if !t.is_even() {
            t
        } else {
            sub_val(prime, &t)
        }
    }
}

/// Inverse permutation ("decode"): square modulo the prime, then undo
/// the forward parity flip by the parity of the input itself.
pub fn inverse_sqrt(input: &Num, prime: &Num) -> (r: Num)
    requires
        input.wf(),
        prime.wf(),
        prime@ >= 1,
    ensures
        r@ == inverse_spec(input@, prime@),
        r@ <= prime@,
        r.wf(),
{
    let two = num_from_u8(2);
    let s = pow_mod_val(input, &two, prime);
    if input.is_even() {
        s
    } else {
        sub_val(prime, &s)
    }
}

/// An odd value under an odd modulus leaves an even complement.
pub proof fn lemma_diff_even(p: nat, t: nat)
    requires
        t <= p,
        p % 2 == 1,
        t % 2 == 1,
    ensures
        (p - t) % 2 == 0,
{
    lemma_fundamental_div_mod(p as int, 2);
    lemma_fundamental_div_mod(t as int, 2);
    let a = p as int / 2;
    let b = t as int / 2;
    assert(p - t == 2 * (a - b));
    assert((a - b) * 2 == 2 * (a - b)) by (nonlinear_arith);
    lemma_mod_multiples_basic(a - b, 2);
}

/// An even value under an odd modulus leaves an odd complement.
pub proof fn lemma_diff_odd(p: nat, t: nat)
    requires
        t <= p,
        p % 2 == 1,
        t % 2 == 0,
    ensures
        (p - t) % 2 == 1,
{
    lemma_fundamental_div_mod(p as int, 2);
    lemma_fundamental_div_mod(t as int, 2);
    let a = p as int / 2;
    let b = t as int / 2;
    assert(p - t == 2 * (a - b) + 1);
    lemma_mod_multiples_vanish(a - b, 1, 2);
}

/// Complements square to the same residue: (p - t)^2 = t^2 modulo p.
pub proof fn lemma_complement_square(t: nat, p: nat)
    requires
        t <= p,
        p >= 1,
    ensures
        (((p - t) * (p - t)) as int) % (p as int) == ((t * t) as int) % (p as int),
{
    let pi = p as int;
    let ti = t as int;
    assert((pi - ti) * (pi - ti) == pi * (pi - 2 * ti) + ti * ti) by (nonlinear_arith);
    lemma_mod_multiples_vanish(pi - 2 * ti, ti * ti, pi);
}

/// The even-root canonicalisation stays below the modulus.
pub proof fn lemma_canon_even_in_range(t: nat, p: nat)
    requires
        t < p,
    ensures
        canon_even(t, p) < p,
{
}

/// The odd-root canonicalisation of a nonzero root stays strictly
/// between 0 and the modulus.
pub proof fn lemma_canon_odd_in_range(t: nat, p: nat)
    requires
        0 < t < p,
    ensures
        0 < canon_odd(t, p) < p,
{
}

/// Range of the forward permutation: never above the modulus, and
/// strictly below it on the residue branch, as well as on the
/// non-residue branch whenever the root of the complement is nonzero.
pub proof fn lemma_forward_in_range(x: nat, e: nat, p: nat)
    requires
        p >= 3,
        p % 2 == 1,
        x < p,
    ensures
        forward_spec(x, e, p) <= p,
        legendre_of(x, p) == 1 ==> forward_spec(x, e, p) < p,
        mod_pow((p - x) as nat, e, p) != 0 ==> forward_spec(x, e, p) < p,
{
    if legendre_of(x, p) == 1 {
        lemma_canon_even_in_range(mod_pow(x, e, p), p);
    } else {
        let t = mod_pow((p - x) as nat, e, p);
        if t != 0 {
            lemma_canon_odd_in_range(t, p);
        }
    }
}

/// On a truly prime odd modulus, the forward permutation maps every
/// nonzero input strictly below the modulus: the root of the complement
/// cannot vanish, so both branches land inside [0, modulus).
pub proof fn lemma_forward_strict_range(x: nat, e: nat, p: nat)
    requires
        is_prime(p),
        p % 2 == 1,
        0 < x < p,
    ensures
        forward_spec(x, e, p) < p,
{
    if legendre_of(x, p) == 1 {
        lemma_canon_even_in_range(mod_pow(x, e, p), p);
    } else {
        let u = (p - x) as nat;
        lemma_pow_mod_nonzero(u, e, p);
        lemma_canon_odd_in_range(mod_pow(u, e, p), p);
    }
}

/// Undoing the residue branch: if t squares to x modulo the odd modulus
/// p, then the inverse of the even-canonicalised root is x again.
pub proof fn lemma_canon_even_round_trip(t: nat, x: nat, p: nat)
    requires
        p % 2 == 1,
        p >= 3,
        t < p,
        x < p,
        ((t * t) as int) % (p as int) == x,
    ensures
        inverse_spec(canon_even(t, p), p) == x,
{
    if t % 2 == 0 {
        lemma_square_is_pow2(t as int);
        assert(mod_pow(t, 2, p) == x);
    } else {
        let y = (p - t) as nat;
        lemma_diff_even(p, t);
        assert(y % 2 == 0);
        lemma_complement_square(t, p);
        lemma_square_is_pow2(y as int);
        assert(mod_pow(y, 2, p) == x);
    }
}

/// Undoing the non-residue branch: if t squares to p - x modulo the odd
/// modulus p, with 0 < x < p, then the inverse of the odd-canonicalised
/// root is x again.
pub proof fn lemma_canon_odd_round_trip(t: nat, x: nat, p: nat)
    requires
        p % 2 == 1,
        p >= 3,
        t < p,
        0 < x < p,
        ((t * t) as int) % (p as int) == p - x,
    ensures
        inverse_spec(canon_odd(t, p), p) == x,
{
    if t % 2 == 1 {
        lemma_square_is_pow2(t as int);
        assert(mod_pow(t, 2, p) == p - x);
    } else {
        let y = (p - t) as nat;
        lemma_diff_odd(p, t);
        assert(y % 2 == 1);
        lemma_complement_square(t, p);
        lemma_square_is_pow2(y as int);
        assert(mod_pow(y, 2, p) == p - x);
    }
}

/// Whether a full encode-decode round over modulus p and exponent e
/// reproduces the block: its value must lie under p and come back to
/// itself through the permutation and its inverse.
pub open spec fn round_trip_ok(block: Seq<u8>, e: nat, p: nat) -> bool {
    let x = digits_value(block);
    x < p && inverse_spec(forward_spec(x, e, p), p) == x
}

/// One full round over a given modulus and exponent: encode the block,
/// permute, invert, decode, and compare with the starting block.
pub fn round_trips(block: &Vec<u8>, exp: &Num, prime: &Num) -> (r: bool)
    requires
        exp.wf(),
        prime.wf(),
        prime@ % 2 == 1,
        prime@ >= 3,
        prime@ < pow(256, block@.len()),
    ensures
        r == round_trip_ok(block@, exp@, prime@),
{
    let x = from_block(block);
    if !lt_val(&x, prime) {
        return false;
    }
    let y = sqrt_permutation(&x, exp, prime);
    let z = inverse_sqrt(&y, prime);
    let out = to_block(&z, block.len());
    let same = bytes_eq(&out, block);
    proof {
        if z@ == x@ {
            lemma_codec_bijective(out@, block@);
        }
    }
    same
}

/// One full round over freshly generated parameters and a sampled
/// block: derive the largest 3-mod-4 prime for the configured block
/// width and its exponent, then encode and decode a random block. The
/// sampled bytes are arbitrary; everything after the sampling runs
/// under the verified contracts above, so a true result certifies that
/// a genuine 32-byte block round-tripped over well-formed parameters.
pub fn run() -> (ok: bool)
    ensures
        ok ==> exists|b: Seq<u8>, e: nat, p: nat|
            b.len() == 32 && p % 4 == 3 && 3 <= p < pow(256, 32) && e * 4 == p + 1
                && #[trigger] round_trip_ok(b, e, p),
{
    let prime = gen_largest_prime(crate::PRIME_BYTE_SIZE);
    let exponent = derive_exponent(&prime);
    let block_in = random_block();
    let ok = round_trips(&block_in, &exponent, &prime);
    proof {
        if ok {
            assert(block_in@.len() == 32 && prime@ % 4 == 3 && 3 <= prime@ < pow(256, 32)
                && exponent@ * 4 == prime@ + 1 && round_trip_ok(block_in@, exponent@, prime@));
        }
    }
    ok
}

} // verus!
