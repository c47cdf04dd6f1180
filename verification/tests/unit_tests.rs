use sloth::{bytes_eq, derive_exponent, from_block, gen_largest_prime, inverse_sqrt,
    max_for_bytes, next_prime, num_from_u8, prev_prime, round_trips, sqrt_permutation, to_block};

#[test]
/// the codec trims trailing zero bytes to the canonical digit string
fn codec_canonical_digits() {
    let n = from_block(&vec![5, 0, 0]);
    assert_eq!(n.to_digits(), vec![5]);
    let z = from_block(&vec![0, 0]);
    assert_eq!(z.to_digits(), Vec::<u8>::new());
}

#[test]
/// decoding inverts encoding at a fixed width
fn codec_round_trip_small() {
    let block = vec![1, 2, 3];
    let n = from_block(&block);
    assert_eq!(to_block(&n, 3), block);
    assert_eq!(to_block(&num_from_u8(0), 4), vec![0, 0, 0, 0]);
}

#[test]
fn max_for_bytes_all_ones() {
    assert_eq!(max_for_bytes(2).to_digits(), vec![255, 255]);
}

#[test]
fn bytes_eq_compares_contents() {
    assert!(bytes_eq(&vec![1, 2], &vec![1, 2]));
    assert!(!bytes_eq(&vec![1, 2], &vec![1, 3]));
    assert!(!bytes_eq(&vec![1, 2], &vec![1, 2, 0]));
}

#[test]
/// the largest 3-mod-4 prime in one byte is 251; its neighbours are 241 and 257
fn one_byte_prime_neighbourhood() {
    let p = gen_largest_prime(1);
    assert_eq!(p.to_digits(), vec![251]);
    assert_eq!(p.mod4(), 3);

    let mut up = from_block(&vec![251]);
    next_prime(&mut up);
    assert_eq!(up.to_digits(), vec![1, 1]);

    let mut down = from_block(&vec![251]);
    prev_prime(&mut down);
    assert_eq!(down.to_digits(), vec![241]);
}

#[test]
/// (251 + 1) / 4 = 63 and (7 + 1) / 4 = 2, with no remainder lost
fn exponent_known_values() {
    let e = derive_exponent(&from_block(&vec![251]));
    assert_eq!(e.to_digits(), vec![63]);
    let e7 = derive_exponent(&num_from_u8(7));
    assert_eq!(e7.to_digits(), vec![2]);
}

#[test]
/// the permutation modulo 7 (exponent 2), worked out by hand:
/// residues 1, 2, 4 take the even-root branch, the rest the complement
fn permutation_mod_seven_known_values() {
    let p = num_from_u8(7);
    let e = derive_exponent(&p);

    // quadratic residue, odd root 1 -> flipped to 6
    let y1 = sqrt_permutation(&num_from_u8(1), &e, &p);
    assert_eq!(y1.to_digits(), vec![6]);
    assert_eq!(inverse_sqrt(&y1, &p).to_digits(), vec![1]);

    // quadratic residue, even root kept
    let y2 = sqrt_permutation(&num_from_u8(2), &e, &p);
    assert_eq!(y2.to_digits(), vec![4]);
    assert_eq!(inverse_sqrt(&y2, &p).to_digits(), vec![2]);

    // non-residue: root of the complement 4 is 2, flipped to odd 5
    let y3 = sqrt_permutation(&num_from_u8(3), &e, &p);
    assert_eq!(y3.to_digits(), vec![5]);
    assert_eq!(inverse_sqrt(&y3, &p).to_digits(), vec![3]);

    // input 0 is the one value the permutation maps to the modulus itself
    let y0 = sqrt_permutation(&num_from_u8(0), &e, &p);
    assert_eq!(y0.to_digits(), vec![7]);
}

fn known_prime_block() -> Vec<u8> {
    // 2^256 - 189, least significant byte first
    let mut b = vec![255u8; 32];
    b[0] = 0x43;
    b
}

#[test]
/// the fixed 256-bit prime: round trips hold for a known block and for
/// a thousand random blocks
fn fixed_prime_round_trips() {
    let prime = from_block(&known_prime_block());
    assert_eq!(prime.mod4(), 3);
    let exponent = derive_exponent(&prime);

    let block = vec![7u8; 32];
    assert!(round_trips(&block, &exponent, &prime));

    for _n in 0..1000 {
        let sample: [u8; 32] = rand::random();
        assert!(round_trips(&sample.to_vec(), &exponent, &prime));
    }
}

#[test]
/// a block whose value reaches the modulus cannot round trip
fn oversized_block_rejected() {
    let prime = from_block(&known_prime_block());
    let exponent = derive_exponent(&prime);
    let block = vec![255u8; 32];
    assert!(!round_trips(&block, &exponent, &prime));
}

#[test]
/// stepping from 10: the nearest passing candidates are 7 below and 11
/// above; from 0, 1 or 2 the odd upward walk lands on 3
fn prime_steps_small_values() {
    let mut down = from_block(&vec![10]);
    prev_prime(&mut down);
    assert_eq!(down.to_digits(), vec![7]);

    let mut up = from_block(&vec![10]);
    assert!(next_prime(&mut up));
    assert_eq!(up.to_digits(), vec![11]);

    for s in [0u8, 1, 2] {
        let mut n = num_from_u8(s);
        assert!(next_prime(&mut n));
        assert_eq!(n.to_digits(), vec![3]);
    }
}
