use rug::integer::{IsPrime, Order};
use rug::Integer;
use sloth::{derive_exponent, from_block, gen_largest_prime, inverse_sqrt, next_prime,
    sqrt_permutation, to_block, PRIME_BYTE_SIZE, PRIME_CHECK_ITERS};

fn num_to_integer(n: &sloth::Num) -> Integer {
    Integer::from_digits(&n.to_digits(), Order::Lsf)
}

#[test]
fn main_test_conversion() {
    // generate random block
    for _n in 0..100 {
        let block_a: [u8; 32] = rand::random();
        let v = block_a.to_vec();
        let int = from_block(&v);
        let block_b = to_block(&int, 32);
        assert_eq!(v, block_b);
    }
}

#[test]
fn main_test_prime_generation() {
    // test for many byte size configs
    for size in 1..64 {
        let mut prime = gen_largest_prime(size);
        assert_ne!(
            num_to_integer(&prime).is_probably_prime(PRIME_CHECK_ITERS),
            IsPrime::No
        );

        // ensure the next prime is larger than 2^256 - 1 OR is not congruent to 4 mod 3
        next_prime(&mut prime);
        let gp = num_to_integer(&prime);
        let largest_value = Integer::from(Integer::u_pow_u(2, (size * 8) as u32)) - 1;
        assert!(gp > largest_value || gp.mod_u(4) != 3);
    }
}

#[test]
fn main_test_largest_prime_256_bits() {
    // test for many byte size configs
    let prime = gen_largest_prime(PRIME_BYTE_SIZE);
    let gp = num_to_integer(&prime);
    assert_ne!(gp.is_probably_prime(PRIME_CHECK_ITERS), IsPrime::No);

    // 2^256 - 189 | largest prime that fits into 256 bits
    let largest_prime_str =
        "115792089237316195423570985008687907853269984665640564039457584007913129639747";
    assert_eq!(gp, largest_prime_str.parse::<Integer>().unwrap());
}

#[test]
fn main_test_end_to_end() {
    for _n in 0..100 {
        // generate largest prime
        // create largest number possible for PRIME_BYTE_SIZE and then reduce
        // until it is largest viable PRIME
        let prime = gen_largest_prime(PRIME_BYTE_SIZE);
        // e = (p + 1) / 4
        let exponent = derive_exponent(&prime);

        // generate random number as input
        let block_in: [u8; 32] = rand::random();
        let v = block_in.to_vec();
        let int = from_block(&v);
        let perm = sqrt_permutation(&int, &exponent, &prime);
        let inv = inverse_sqrt(&perm, &prime);
        let block_out = to_block(&inv, 32);

        assert_eq!(v, block_out);
    }
}
