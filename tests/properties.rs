use big_lehmer::bignum::BigNat;
use big_lehmer::decode::{divide, recursive_divide, WorkItem};
use big_lehmer::encode::{BigCache, Cache};
use big_lehmer::{decode, encode, get_encode_size, DecodeAS, EncodeAS, Error};
use dashu::base::BitTest;
use dashu::integer::UBig;
use rand::seq::SliceRandom;
use rand::SeedableRng;

fn shuffled(n: u32, seed: u64) -> Vec<u32> {
    let mut rng = rand::rngs::StdRng::seed_from_u64(seed);
    let mut sequence: Vec<u32> = (0..n).collect();
    sequence.shuffle(&mut rng);
    sequence
}

/// The Lehmer code computed the slow way, with dashu directly.
fn naive_code(sequence: &[u32]) -> UBig {
    let n = sequence.len();
    let mut code = UBig::ZERO;
    for i in 0..n {
        let digit = sequence[i + 1..].iter().filter(|&&x| x < sequence[i]).count();
        code = code * UBig::from(n - i) + UBig::from(digit);
    }
    code
}

fn factorial(n: u32) -> UBig {
    let mut f = UBig::ONE;
    for i in 2..=n {
        f *= i;
    }
    f
}

fn big(bytes: &[u8]) -> BigNat {
    BigNat::from_le_bytes(bytes)
}

fn bytes_of(n: &BigNat) -> Vec<u8> {
    n.to_le_bytes_padded(64)
}

#[test]
fn encode_gives_the_documented_bytes() {
    let encoded = encode(&[7, 2, 0, 6, 5, 1, 4, 3]).unwrap();
    // ((((((7*7+2)*6+0)*5+4)*4+3)*3+0)*2+1)*1+0 = 36835
    assert_eq!(encoded, vec![0xe3, 0x8f]);
    assert_eq!(get_encode_size(8), 2);
}

#[test]
fn encode_identity_and_reverse() {
    assert_eq!(encode(&[0, 1, 2, 3, 4, 5, 6, 7]).unwrap(), vec![0, 0]);
    // the reversed permutation has the largest code, 8! - 1 = 40319
    assert_eq!(encode(&[7, 6, 5, 4, 3, 2, 1, 0]).unwrap(), vec![0x7f, 0x9d]);
}

#[test]
fn empty_sequence() {
    assert_eq!(encode(&[]).unwrap(), Vec::<u8>::new());
    let mut out: Vec<u32> = vec![];
    assert_eq!(decode(&[], &mut out), Ok(()));
    assert_eq!(decode(&[1, 2, 3], &mut out), Ok(()));
}

#[test]
fn single_element() {
    assert_eq!(get_encode_size(1), 0);
    assert_eq!(encode(&[0]).unwrap(), Vec::<u8>::new());
    let mut out = vec![5u32];
    decode(&[], &mut out).unwrap();
    assert_eq!(out, vec![0]);
    let mut out = vec![5u32];
    assert_eq!(decode(&[1], &mut out), Err(Error::Decode));
    assert_eq!(out, vec![5]);
}

#[test]
fn rejects_invalid_sequences() {
    assert_eq!(encode(&[0, 0]), Err(Error::ValidationDuplicateNumber));
    assert_eq!(encode(&[1, 3, 2]), Err(Error::ValidationOutOfRange));
    assert_eq!(encode(&[0, 1, 1]), Err(Error::ValidationDuplicateNumber));
    assert_eq!(encode(&[0, 1, 3]), Err(Error::ValidationOutOfRange));
    // the first invalid entry decides
    assert_eq!(encode(&[5, 0, 0]), Err(Error::ValidationOutOfRange));
    assert_eq!(encode(&[0, 0, 5]), Err(Error::ValidationDuplicateNumber));
}

#[test]
fn decode_refuses_codes_of_n_factorial_and_above() {
    // 3! = 6: codes 0..=5 are the six permutations of three values
    let mut out = vec![9u32, 9, 9];
    assert_eq!(decode(&[6], &mut out), Err(Error::Decode));
    assert_eq!(out, vec![9, 9, 9]);
    decode(&[5], &mut out).unwrap();
    assert_eq!(out, vec![2, 1, 0]);
    decode(&[0], &mut out).unwrap();
    assert_eq!(out, vec![0, 1, 2]);
}

#[test]
fn decode_ignores_zero_bytes_past_the_code() {
    let mut out = vec![0u32; 8];
    decode(&[0xe3, 0x8f, 0, 0, 0], &mut out).unwrap();
    assert_eq!(out, vec![7, 2, 0, 6, 5, 1, 4, 3]);
    assert_eq!(decode(&[0xe3, 0x8f, 0, 1], &mut out), Err(Error::Decode));
}

#[test]
fn every_permutation_of_four_round_trips() {
    // codes 0..24 are exactly the permutations of four values, in lexicographic order
    let mut previous: Option<Vec<u32>> = None;
    for code in 0u8..24 {
        let mut out = vec![0u32; 4];
        decode(&[code], &mut out).unwrap();
        assert_eq!(encode(&out).unwrap(), vec![code]);
        if let Some(p) = previous {
            assert!(p < out);
        }
        previous = Some(out);
    }
}

#[test]
fn codes_match_the_naive_computation() {
    for (n, seed) in [(2u32, 1u64), (9, 2), (40, 3), (300, 4), (2500, 5)] {
        let sequence = shuffled(n, seed);
        let encoded = encode(&sequence).unwrap();
        assert_eq!(encoded.len(), get_encode_size(n));
        assert_eq!(UBig::from_le_bytes(&encoded), naive_code(&sequence));
    }
}

#[test]
fn round_trip_with_many_flushes() {
    // large digits times large radices overflow the 64-bit accumulator every few steps
    for (n, seed) in [(64u32, 11u64), (1500, 12), (5000, 13)] {
        let sequence = shuffled(n, seed);
        let encoded = encode(&sequence).unwrap();
        let mut out = vec![0u32; n as usize];
        decode(&encoded, &mut out).unwrap();
        assert_eq!(out, sequence);
    }
}

#[test]
fn encode_size_covers_every_code() {
    for n in 2u32..700 {
        let largest = factorial(n) - UBig::ONE;
        assert!(largest.bit_len() <= 8 * get_encode_size(n));
    }
}

#[test]
fn encode_length_is_encode_size() {
    for n in [1u32, 2, 3, 17, 100, 4000, 4001] {
        let sequence = shuffled(n, n as u64);
        assert_eq!(encode(&sequence).unwrap().len(), get_encode_size(n));
    }
}

#[test]
fn ranking_tree_gives_lehmer_digits() {
    let sequence = shuffled(200, 7);
    let mut tree = EncodeAS::new(200);
    for i in 0..sequence.len() {
        let later_smaller = sequence[i + 1..].iter().filter(|&&x| x < sequence[i]).count();
        assert_eq!(tree.insert(sequence[i]) as usize, later_smaller);
    }
}

#[test]
fn selection_tree_inverts_the_ranking_tree() {
    let mut tree = DecodeAS::new(8);
    let picked: Vec<u32> = [7, 2, 0, 4, 3, 0, 1, 0].iter().map(|&d| tree.remove(d)).collect();
    assert_eq!(picked, vec![7, 2, 0, 6, 5, 1, 4, 3]);
    let mut tree = DecodeAS::new(5);
    let picked: Vec<u32> = [4, 3, 2, 1, 0].iter().map(|&d| tree.remove(d)).collect();
    assert_eq!(picked, vec![4, 3, 2, 1, 0]);
}

#[test]
fn machine_word_division() {
    // 36835 in the radices 2, 3, ..., 8, least significant first
    assert_eq!(divide(36835, 2, 7), Some(vec![1, 0, 3, 4, 0, 2, 7]));
    assert_eq!(divide(6, 2, 2), None);
    assert_eq!(divide(5, 2, 2), Some(vec![1, 2]));
    assert_eq!(divide(0, 2, 0), Some(vec![]));
    assert_eq!(divide(1, 2, 0), None);
}

#[test]
fn recursive_division_of_a_large_dividend() {
    // 300! - 1 has the largest digit in every place
    let n = 300u32;
    let largest = factorial(n) - UBig::ONE;
    let work = WorkItem { dividend: big(&largest.to_le_bytes()), start_index: 2, len: 299 };
    let expected: Vec<u32> = (1..300).collect();
    assert_eq!(recursive_divide(work), Some(expected));
    let work = WorkItem { dividend: big(&factorial(n).to_le_bytes()), start_index: 2, len: 299 };
    assert_eq!(recursive_divide(work), None);
}

#[test]
fn big_number_bytes() {
    assert_eq!(big(&[0x34, 0x12]).to_le_bytes_padded(4), vec![0x34, 0x12, 0, 0]);
    assert_eq!(big(&[0x34, 0x12, 0, 0, 0]).to_le_bytes_padded(2), vec![0x34, 0x12]);
    assert_eq!(big(&[]).to_le_bytes_padded(1), vec![0]);
}

#[test]
fn chunk_combination_is_associative() {
    let x = Cache::new(5, 7);
    let y = Cache::new(1_000_000_007, 4_000_000_000);
    let z = Cache::new(3, 11);
    let left = BigCache::combine(
        BigCache::combine(BigCache::new(&x), BigCache::new(&y)),
        BigCache::new(&z),
    );
    let right = BigCache::combine(
        BigCache::new(&x),
        BigCache::combine(BigCache::new(&y), BigCache::new(&z)),
    );
    assert_eq!(bytes_of(&left.add), bytes_of(&right.add));
    assert_eq!(bytes_of(&left.mul), bytes_of(&right.mul));
    // (5 * 7) * (4e9 * 11) + (1_000_000_007 * 4e9) * 11 + 3 * 11
    let expected = UBig::from(35u8) * UBig::from(44_000_000_000u64)
        + UBig::from(1_000_000_007u64) * UBig::from(4_000_000_000u64) * UBig::from(11u8)
        + UBig::from(33u8);
    assert_eq!(UBig::from_le_bytes(&bytes_of(&left.add)), expected);
    let identity = BigCache::combine(BigCache::identity(), BigCache::new(&x));
    assert_eq!(UBig::from_le_bytes(&bytes_of(&identity.add)), UBig::from(35u8));
}

#[test]
fn accumulator_refuses_overflow() {
    let mut cache = Cache::new(1, u64::MAX / 2);
    assert_eq!(cache.add(0, 3), None);
    assert_eq!((cache.add, cache.mul), (u64::MAX / 2, u64::MAX / 2));
    let mut cache = Cache::identity();
    assert_eq!(cache.add(3, 5), Some(()));
    assert_eq!(cache.add(1, 2), Some(()));
    // ((0 + 3) * 5 + 1) * 2
    assert_eq!((cache.add, cache.mul), (32, 10));
}
