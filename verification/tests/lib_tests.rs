use rug::integer::{IsPrime, Order};
use rug::Integer;
use sloth::{from_block, gen_largest_prime, next_prime, run, to_block, BLOCK_BYTE_SIZE,
    PRIME_CHECK_ITERS};

fn num_to_integer(n: &sloth::Num) -> Integer {
    Integer::from_digits(&n.to_digits(), Order::Lsf)
}

#[test]
/// verify Block -> Num -> Block conversion
fn lib_test_conversion() {
    for _n in 0..100 {
        let block_a: [u8; 32] = rand::random();
        let v = block_a.to_vec();
        let int = from_block(&v);
        let block_b = to_block(&int, 32);
        assert_eq!(v, block_b);
    }
}

#[test]
/// verify prime generation for different byte size configurtions
fn lib_test_prime_generation() {
    for size in 1..128 {
        let mut prime = gen_largest_prime(size);
        assert_ne!(
            num_to_integer(&prime).is_probably_prime(PRIME_CHECK_ITERS),
            IsPrime::No
        );

        // ensure the next prime is larger than 2^(size * 8) - 1 OR is not congruent to 3 mod 4
        next_prime(&mut prime);
        let gp = num_to_integer(&prime);
        let largest_value = Integer::from(Integer::u_pow_u(2, (size * 8) as u32)) - 1;
        assert!(gp > largest_value || gp.mod_u(4) != 3);
    }
}

#[test]
/// verify that the prime generated for 256 bits is 115792089237316195423570985008687907853269984665640564039457584007913129639747 as expected
fn lib_test_largest_prime_256_bits() {
    let prime = gen_largest_prime(BLOCK_BYTE_SIZE);
    let gp = num_to_integer(&prime);
    assert_ne!(gp.is_probably_prime(PRIME_CHECK_ITERS), IsPrime::No);

    // 2^256 - 189 | largest prime that fits into 256 bits congruent to 3 mod 4
    let largest_prime_str =
        "115792089237316195423570985008687907853269984665640564039457584007913129639747";
    assert_eq!(gp, largest_prime_str.parse::<Integer>().unwrap());
}

#[test]
/// verify end-to-end operation of the scheme for 1000 iterations of random input data
/// using 256 bit block size as specified
fn lib_test_end_to_end() {
    for _n in 0..1000 {
        assert!(run());
    }
}
