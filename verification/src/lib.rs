//! A modular-square-root permutation over fixed-width byte blocks.
//!
//! A block is read as a base-256 integer (least significant byte first),
//! mapped through a Legendre-symbol-gated modular square root with respect
//! to a prime congruent to 3 mod 4, and mapped back by modular squaring.

pub mod backend;
pub mod digits;
pub mod num;
pub mod permutation;
pub mod primes;

pub use num::{Num, from_block, to_block, bytes_eq, num_from_u8, max_for_bytes};
pub use primes::{next_prime, prev_prime, gen_largest_prime, derive_exponent, is_prime};
pub use permutation::{sqrt_permutation, inverse_sqrt, round_trips, run};

use vstd::prelude::*;

verus! {

/// Number of bytes in a data block (256 bits).
pub const BLOCK_BYTE_SIZE: usize = 32;

/// Number of bytes available for the prime modulus (256 bits).
pub const PRIME_BYTE_SIZE: usize = 32;

/// Rounds handed to the probabilistic primality test.
pub const PRIME_CHECK_ITERS: u32 = 25;

} // verus!
