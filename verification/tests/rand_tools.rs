use merkletree::rand_tools::{make_seedable_rng, Seed};
use rand::RngCore;
use std::str::FromStr;

#[test]
fn seed_keeps_its_number() {
    assert_eq!(Seed::from_u64(0).0, 0);
    assert_eq!(Seed::from_u64(u64::MAX).0, u64::MAX);
    assert_eq!(Seed::from(77).0, 77);
}

#[test]
fn seed_is_read_from_decimal_digits() {
    assert_eq!(Seed::from_str("0").unwrap().0, 0);
    assert_eq!(Seed::from_str("42").unwrap().0, 42);
    assert_eq!(Seed::from_str("+7").unwrap().0, 7);
    assert_eq!(Seed::from_str("007").unwrap().0, 7);
    assert_eq!("18446744073709551615".parse::<Seed>().unwrap().0, u64::MAX);
    for text in ["", "+", "-1", " 1", "1 ", "1_000", "0x10", "18446744073709551616", "++1", "1+"] {
        assert!(Seed::from_str(text).is_err());
    }
}

#[test]
fn equal_seeds_give_equal_sources() {
    let mut first = make_seedable_rng(Seed::from_u64(5));
    let mut second = make_seedable_rng(Seed::from_u64(5));
    let mut other = make_seedable_rng(Seed::from_u64(6));
    assert_eq!(first, second);
    assert_ne!(first, other);
    let numbers: Vec<u64> = (0..8).map(|_| first.next_u64()).collect();
    let same: Vec<u64> = (0..8).map(|_| second.next_u64()).collect();
    let different: Vec<u64> = (0..8).map(|_| other.next_u64()).collect();
    assert_eq!(numbers, same);
    assert_ne!(numbers, different);
    assert_ne!(numbers[0], 5);
}
