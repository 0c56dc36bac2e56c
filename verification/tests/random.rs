use cds::util::random::{Random, RANDOM_STRING_MAX};

#[test]
fn random_strings_are_short_and_alphanumeric() {
    let mut rng = rand::thread_rng();
    let mut lengths = std::collections::BTreeSet::new();
    for _ in 0..500 {
        let s = String::gen(&mut rng);
        assert!(s.chars().count() < RANDOM_STRING_MAX);
        assert!(s.chars().all(|c| c.is_ascii_alphanumeric()));
        lengths.insert(s.len());
    }
    // the lengths are drawn, not fixed
    assert!(lengths.len() > 1);
}

#[test]
fn random_numbers_differ() {
    let mut rng = rand::thread_rng();
    let a = u64::gen(&mut rng);
    let b = u64::gen(&mut rng);
    let c = u64::gen(&mut rng);
    assert!(a != b || b != c);
}

#[test]
fn alphanumeric_strings_have_the_asked_length() {
    let mut rng = rand::thread_rng();
    for length in [0usize, 1, 5, 9, 40] {
        let s = cds::util::random::alphanumeric_string(&mut rng, length);
        assert_eq!(s.chars().count(), length);
        assert!(s.chars().all(|c| c.is_ascii_alphanumeric()));
    }
}
