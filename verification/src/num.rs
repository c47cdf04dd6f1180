//! Arbitrary-precision non-negative numbers as canonical digit vectors.
//!
//! A `Num` owns the little-endian base-256 digits of its value and keeps
//! them canonical (no trailing zero byte). The block codec lives here:
//! `from_block` reads a fixed-width block as a number and `to_block`
//! writes a number back into a fixed-width block.

use vstd::prelude::*;
use vstd::arithmetic::power::pow;
use vstd::arithmetic::power::{lemma_pow_increases, lemma_pow_positive, lemma_pow0};
use crate::digits::{
    digits_value, canonical, lemma_value_push, lemma_value_bound, lemma_canonical_lower_bound,
    lemma_value_drop_last_zero, lemma_value_mod2, lemma_value_mod4, lemma_value_injective,
};

verus! {

/// An arbitrary-precision non-negative integer.
pub struct Num {
    pub(crate) digits: Vec<u8>,
}

impl View for Num {
    type V = nat;

    closed spec fn view(&self) -> nat {
        digits_value(self.digits@)
    }
}

impl Num {
    /// The digits carry no trailing zero, so the value determines them.
    pub closed spec fn wf(&self) -> bool {
        canonical(self.digits@)
    }

    /// Whether the value is even, read off the lowest digit.
    pub fn is_even(&self) -> (r: bool)
        ensures
            r == (self@ % 2 == 0),
    {
        if self.digits.len() == 0 {
            true
        } else {
            proof {
                lemma_value_mod2(self.digits@);
            }
            self.digits[0] % 2 == 0
        }
    }

    /// The value modulo 4, read off the lowest digit.
    pub fn mod4(&self) -> (r: u8)
        ensures
            r == self@ % 4,
    {
        if self.digits.len() == 0 {
            0
        } else {
            proof {
                lemma_value_mod4(self.digits@);
            }
            self.digits[0] % 4
        }
    }

    /// The canonical digits of the value, least significant first.
    pub fn to_digits(&self) -> (r: Vec<u8>)
        requires
            self.wf(),
        ensures
            digits_value(r@) == self@,
            canonical(r@),
    {
        let mut v: Vec<u8> = Vec::new();
        let mut i: usize = 0;
        while i < self.digits.len()
            invariant
                i <= self.digits@.len(),
                v@ =~= self.digits@.subrange(0, i as int),
            decreases self.digits@.len() - i,
        {
            v.push(self.digits[i]);
            i += 1;
        }
        proof {
            assert(v@ =~= self.digits@);
        }
        v
    }
}

/// Reads a block as a number: the block's bytes are the value's base-256
/// digits, least significant first.
pub fn from_block(block: &Vec<u8>) -> (r: Num)
    ensures
        r@ == digits_value(block@),
        r@ < pow(256, block@.len()),
        r.wf(),
{
    let mut v: Vec<u8> = Vec::new();
    let mut i: usize = 0;
    while i < block.len()
        invariant
            i <= block@.len(),
            v@ =~= block@.subrange(0, i as int),
        decreases block@.len() - i,
    {
        v.push(block[i]);
        i += 1;
    }
    proof {
        assert(v@ =~= block@);
        lemma_value_bound(block@);
    }
    while v.len() > 0 && v[v.len() - 1] == 0
        invariant
            digits_value(v@) == digits_value(block@),
        decreases v@.len(),
    {
        proof {
            lemma_value_drop_last_zero(v@);
        }
        v.pop();
    }
    Num { digits: v }
}

/// Writes a number into a zero-padded block of `size` bytes, least
/// significant digit first. The value must fit the width.
pub fn to_block(n: &Num, size: usize) -> (r: Vec<u8>)
    requires
        n.wf(),
        n@ < pow(256, size as nat),
    ensures
        r@.len() == size,
        digits_value(r@) == n@,
{
    proof {
        if n.digits@.len() > size {
            lemma_canonical_lower_bound(n.digits@);
            lemma_pow_increases(256, size as nat, (n.digits@.len() - 1) as nat);
        }
    }
    let mut v: Vec<u8> = Vec::new();
    let mut i: usize = 0;
    while i < n.digits.len()
        invariant
            i <= n.digits@.len(),
            v@ =~= n.digits@.subrange(0, i as int),
        decreases n.digits@.len() - i,
    {
        v.push(n.digits[i]);
        i += 1;
    }
    proof {
        assert(v@ =~= n.digits@);
    }
    while v.len() < size
        invariant
            n.digits@.len() <= v@.len() <= size,
            digits_value(v@) == n@,
        decreases size - v@.len(),
    {
        proof {
            lemma_value_push(v@, 0);
        }
        v.push(0);
    }
    v
}

/// The largest number that fits in `size` bytes: every digit is 255.
pub fn max_for_bytes(size: usize) -> (r: Num)
    requires
        size >= 1,
    ensures
        r.wf(),
        r@ == pow(256, size as nat) - 1,
        r@ >= 255,
{
    let mut v: Vec<u8> = Vec::new();
    let mut i: usize = 0;
    proof {
        lemma_pow0(256);
    }
    while i < size
        invariant
            i <= size,
            v@.len() == i,
            digits_value(v@) == pow(256, i as nat) - 1,
            forall|j: int| 0 <= j < i ==> v@[j] == 255,
        decreases size - i,
    {
        proof {
            lemma_value_push(v@, 255);
            lemma_pow_positive(256, i as nat);
            assert(pow(256, (i + 1) as nat) == 256 * pow(256, i as nat)) by {
                reveal(pow);
            }
        }
        v.push(255);
        i += 1;
    }
    proof {
        lemma_pow_positive(256, (size - 1) as nat);
        assert(pow(256, size as nat) == 256 * pow(256, (size - 1) as nat)) by {
            reveal(pow);
        }
    }
    Num { digits: v }
}

/// A number from a single byte.
pub fn num_from_u8(d: u8) -> (r: Num)
    ensures
        r@ == d,
        r.wf(),
{
    let mut v: Vec<u8> = Vec::new();
    if d != 0 {
        v.push(d);
    }
    proof {
        if d != 0 {
            assert(v@.skip(1) =~= Seq::<u8>::empty());
            assert(digits_value(v@.skip(1)) == 0);
            assert(digits_value(v@) == d);
        }
    }
    Num { digits: v }
}

/// Byte-for-byte equality of two blocks.
pub fn bytes_eq(a: &Vec<u8>, b: &Vec<u8>) -> (r: bool)
    ensures
        r == (a@ == b@),
{
    if a.len() != b.len() {
        return false;
    }
    let mut i: usize = 0;
    while i < a.len()
        invariant
            i <= a@.len(),
            a@.len() == b@.len(),
            forall|j: int| 0 <= j < i ==> a@[j] == b@[j],
        decreases a@.len() - i,
    {
        if a[i] != b[i] {
            return false;
        }
        i += 1;
    }
    proof {
        assert(a@ =~= b@);
    }
    true
}

/// Blocks of one width are in bijection with the values they denote:
/// equal values force equal blocks, so decoding inverts encoding.
pub proof fn lemma_codec_bijective(a: Seq<u8>, b: Seq<u8>)
    requires
        a.len() == b.len(),
        digits_value(a) == digits_value(b),
    ensures
        a == b,
{
    lemma_value_injective(a, b);
}

} // verus!
