//! The mathematical value of a little-endian byte sequence.
//!
//! A block and a big number are both represented as base-256 digit
//! sequences with the least significant byte first; `digits_value` is the
//! integer such a sequence denotes, and the lemmas here relate that value
//! to the shape of the sequence.

use vstd::prelude::*;
use vstd::arithmetic::power::pow;
use vstd::arithmetic::power::{lemma_pow_positive, lemma_pow0};
use vstd::arithmetic::div_mod::lemma_mod_multiples_vanish;

verus! {

/// The non-negative integer denoted by `s`, least significant byte first.
pub open spec fn digits_value(s: Seq<u8>) -> nat
    decreases s.len(),
{
    if s.len() == 0 {
        0
    } else {
        (s[0] + 256 * digits_value(s.skip(1))) as nat
    }
}

/// A digit sequence is canonical when it carries no trailing zero byte,
/// so every value has exactly one canonical spelling.
pub open spec fn canonical(s: Seq<u8>) -> bool {
    s.len() == 0 || s[s.len() - 1] != 0
}

/// Appending a digit adds its value at the next power of 256.
pub proof fn lemma_value_push(s: Seq<u8>, d: u8)
    ensures
        digits_value(s.push(d)) == digits_value(s) + d * pow(256, s.len()),
    decreases s.len(),
{
    lemma_pow_positive(256, s.len());
    let t = s.push(d);
    if s.len() == 0 {
        assert(t.skip(1) =~= Seq::<u8>::empty());
        assert(digits_value(t.skip(1)) == 0);
        assert(digits_value(t) == d);
        assert(digits_value(s) == 0);
        lemma_pow0(256);
    } else {
        assert(t.skip(1) =~= s.skip(1).push(d));
        lemma_value_push(s.skip(1), d);
        lemma_pow_positive(256, (s.len() - 1) as nat);
        assert(pow(256, s.len()) == 256 * pow(256, (s.len() - 1) as nat)) by {
            reveal(pow);
        }
        assert(digits_value(t) == t[0] + 256 * digits_value(t.skip(1)));
        assert(digits_value(s) == s[0] + 256 * digits_value(s.skip(1)));
        assert(digits_value(t) ==
            s[0] + 256 * (digits_value(s.skip(1)) + d * pow(256, (s.len() - 1) as nat)));
        assert(256 * (digits_value(s.skip(1)) + d * pow(256, (s.len() - 1) as nat))
            == 256 * digits_value(s.skip(1)) + d * (256 * pow(256, (s.len() - 1) as nat)))
            by (nonlinear_arith);
    }
}

/// The value of a sequence is below 256 to the power of its length.
pub proof fn lemma_value_bound(s: Seq<u8>)
    ensures
        digits_value(s) < pow(256, s.len()),
    decreases s.len(),
{
    lemma_pow_positive(256, s.len());
    if s.len() == 0 {
        lemma_pow0(256);
    } else {
        lemma_value_bound(s.skip(1));
        lemma_pow_positive(256, (s.len() - 1) as nat);
        assert(pow(256, s.len()) == 256 * pow(256, (s.len() - 1) as nat)) by {
            reveal(pow);
        }
        assert(256 * digits_value(s.skip(1)) <= 256 * (pow(256, (s.len() - 1) as nat) - 1))
            by (nonlinear_arith)
            requires digits_value(s.skip(1)) <= pow(256, (s.len() - 1) as nat) - 1;
    }
}

/// A canonical, non-empty sequence reaches at least the power of 256
/// just below its length: long canonical spellings mean large values.
pub proof fn lemma_canonical_lower_bound(s: Seq<u8>)
    requires
        s.len() > 0,
        canonical(s),
    ensures
        digits_value(s) >= pow(256, (s.len() - 1) as nat),
    decreases s.len(),
{
    if s.len() == 1 {
        assert(s[0] != 0);
        lemma_pow0(256);
    } else {
        assert(s.skip(1).len() == s.len() - 1);
        assert(s.skip(1)[s.skip(1).len() - 1] == s[s.len() - 1]);
        lemma_canonical_lower_bound(s.skip(1));
        lemma_pow_positive(256, (s.len() - 2) as nat);
        assert(pow(256, (s.len() - 1) as nat) == 256 * pow(256, (s.len() - 2) as nat)) by {
            reveal(pow);
        }
        assert(256 * digits_value(s.skip(1)) >= 256 * pow(256, (s.len() - 2) as nat))
            by (nonlinear_arith)
            requires digits_value(s.skip(1)) >= pow(256, (s.len() - 2) as nat);
    }
}

/// Dropping a trailing zero byte does not change the value.
pub proof fn lemma_value_drop_last_zero(s: Seq<u8>)
    requires
        s.len() > 0,
        s[s.len() - 1] == 0,
    ensures
        digits_value(s.drop_last()) == digits_value(s),
{
    assert(s =~= s.drop_last().push(0));
    lemma_value_push(s.drop_last(), 0);
}

/// The first byte is the value's remainder modulo 256, and the rest of
/// the sequence denotes the quotient.
pub proof fn lemma_value_head(s: Seq<u8>)
    requires
        s.len() > 0,
    ensures
        digits_value(s) % 256 == s[0],
        digits_value(s) / 256 == digits_value(s.skip(1)),
{
    let r = digits_value(s.skip(1)) as int;
    let v = s[0] + 256 * r;
    lemma_mod_multiples_vanish(r, s[0] as int, 256);
    assert(v % 256 == s[0]);
    assert(v / 256 == r) by (nonlinear_arith)
        requires v == s[0] + 256 * r, 0 <= s[0] < 256, r >= 0;
}

/// The value is even exactly when the first byte is even.
pub proof fn lemma_value_mod2(s: Seq<u8>)
    requires
        s.len() > 0,
    ensures
        digits_value(s) % 2 == s[0] % 2,
{
    let r = digits_value(s.skip(1)) as int;
    lemma_mod_multiples_vanish(128 * r, s[0] as int, 2);
    assert(2 * (128 * r) == 256 * r) by (nonlinear_arith);
}

/// The value modulo 4 is the first byte modulo 4.
pub proof fn lemma_value_mod4(s: Seq<u8>)
    requires
        s.len() > 0,
    ensures
        digits_value(s) % 4 == s[0] % 4,
{
    let r = digits_value(s.skip(1)) as int;
    lemma_mod_multiples_vanish(64 * r, s[0] as int, 4);
    assert(4 * (64 * r) == 256 * r) by (nonlinear_arith);
}

/// Two sequences of the same length with the same value are equal:
/// the codec is injective on fixed-width blocks.
pub proof fn lemma_value_injective(a: Seq<u8>, b: Seq<u8>)
    requires
        a.len() == b.len(),
        digits_value(a) == digits_value(b),
    ensures
        a == b,
    decreases a.len(),
{
    if a.len() == 0 {
        assert(a =~= b);
    } else {
        lemma_value_head(a);
        lemma_value_head(b);
        lemma_value_injective(a.skip(1), b.skip(1));
        assert forall|i: int| 0 <= i < a.len() implies a[i] == b[i] by {
            if i > 0 {
                assert(a.skip(1)[i - 1] == a[i]);
                assert(b.skip(1)[i - 1] == b[i]);
            }
        }
        assert(a =~= b);
    }
}

} // verus!
