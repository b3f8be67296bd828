use std::hash::Hasher;

use fasthash::xx::Hasher64;
use nfdeterminize::ubig::{CompressedUbig, Ubig};

fn get_hash(u: &CompressedUbig, n: usize) -> usize {
    let mut hasher = Hasher64::default();
    hasher.write(&u.cnum);
    (hasher.finish() as usize) % n
}

fn from_bit(bit: &usize) -> Ubig {
    let mut ret = Ubig::new();
    ret.flip(bit);
    ret
}

fn from_seq(bit_list: &Vec<usize>) -> Ubig {
    let mut ret = Ubig::new();
    for bit in bit_list {
        ret.set_to(bit, true);
    }
    ret
}

#[test]
fn test_clone() {
    let num0 = from_bit(&0);
    assert_eq!(num0, num0.clone());

    let num1 = from_bit(&1);
    assert_eq!(num1, num1.clone());

    let num4 = from_bit(&4);
    assert_eq!(num4, num4.clone());
}

#[test]
fn test_from_bit() {
    // Test num with first bit switched.
    let num0 = from_bit(&0);
    assert_eq!(num0.bit_at(&0), true);

    // Test num with first bit switched.
    let num4 = from_bit(&4);
    assert_eq!(num4.bit_at(&4), true);

    // Test number with bigger extensions.
    let num8 = from_bit(&8);
    assert_eq!(num8.bit_at(&8), true);
}

#[test]
fn test_seqs() {
    let empty_seq = vec![];
    assert_eq!(from_seq(&empty_seq).get_seq(), empty_seq);
    let simple_seq = vec![0];
    assert_eq!(from_seq(&simple_seq).get_seq(), simple_seq);
    let no_ext_seq = vec![1, 3, 7];
    assert_eq!(from_seq(&no_ext_seq).get_seq(), no_ext_seq);
    let with_ext_seq = vec![0, 8, 24];
    assert_eq!(from_seq(&with_ext_seq).get_seq(), with_ext_seq);
}

#[test]
fn test_set_to() {
    let mut test_ubig = Ubig::new();
    test_ubig.set_to(&0, true);
    assert_eq!(test_ubig.bit_at(&0), true);
    test_ubig.set_to(&0, true);
    assert_eq!(test_ubig.bit_at(&0), true);
    test_ubig.set_to(&0, false);
    assert_eq!(test_ubig.bit_at(&0), false);

    test_ubig.set_to(&11, true);
    assert_eq!(test_ubig.bit_at(&11), true);
    test_ubig.set_to(&11, true);
    assert_eq!(test_ubig.bit_at(&11), true);
    test_ubig.set_to(&11, false);
    assert_eq!(test_ubig.bit_at(&11), false);
}

#[test]
fn test_compress_decompress() {
    let test_seq = vec![1, 8, 24, 32, 121, 12389, 120321];
    let u = from_seq(&test_seq);
    let uc = u.clone().compress();

    assert_eq!(uc.decompress(), u);
    let un = from_seq(&test_seq);
    assert_eq!(get_hash(&u.compress(), 8), get_hash(&un.compress(), 8));
}
