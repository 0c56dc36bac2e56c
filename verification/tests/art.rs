use cds::art::{Encodable, ART};
use std::collections::BTreeMap;

fn lcg(state: &mut u64) -> u64 {
    *state = state.wrapping_mul(6364136223846793005).wrapping_add(1442695040888963407);
    *state >> 33
}

/// A key drawn from a small alphabet, so that keys share long prefixes and
/// some keys start others.
fn random_key(state: &mut u64, max_len: u64) -> String {
    let len = lcg(state) % max_len;
    (0..len).map(|_| (b'a' + (lcg(state) % 3) as u8) as char).collect()
}

fn agrees_with_reference(seed: u64, ops: usize, make_key: &dyn Fn(&mut u64) -> String) {
    let mut art: ART<String, u64> = ART::new();
    let mut reference = BTreeMap::new();
    let mut state = seed;
    for _ in 0..ops {
        let op = lcg(&mut state) % 3;
        let key = make_key(&mut state);
        let value = lcg(&mut state);
        match op {
            0 => {
                let expected = if reference.contains_key(&key) {
                    Err(value)
                } else {
                    reference.insert(key.clone(), value);
                    Ok(())
                };
                assert_eq!(art.insert(&key, value), expected);
            }
            1 => {
                assert_eq!(art.lookup(&key), reference.get(&key));
            }
            _ => {
                let expected = reference.remove(&key).ok_or(());
                assert_eq!(art.remove(&key), expected);
            }
        }
    }
    for (key, value) in reference.iter() {
        assert_eq!(art.lookup(key), Some(value));
    }
}

#[test]
fn art_random_short_keys() {
    agrees_with_reference(7, 20000, &|s| random_key(s, 6));
}

#[test]
fn art_random_long_keys() {
    // a long shared head makes compressed paths longer than the header stores
    agrees_with_reference(11, 20000, &|s| format!("{}{}", "x".repeat(30), random_key(s, 8)));
}

#[test]
fn art_random_wide_nodes() {
    // one byte of many values makes nodes of every kind, then empties them
    agrees_with_reference(13, 40000, &|s| {
        let b = (lcg(s) % 200) as u32 + 32;
        let c = char::from_u32(b).unwrap();
        format!("k{}{}", c, lcg(s) % 3)
    });
}

#[test]
fn art_keys_that_start_others() {
    let mut art: ART<String, u32> = ART::new();
    let keys = ["", "a", "aa", "aaa", "ab", "abc", "b"];
    for (i, k) in keys.iter().enumerate() {
        assert_eq!(art.insert(&k.to_string(), i as u32), Ok(()));
    }
    for (i, k) in keys.iter().enumerate() {
        assert_eq!(art.lookup(&k.to_string()), Some(&(i as u32)));
    }
    assert_eq!(art.lookup(&"aaaa".to_string()), None);
    assert_eq!(art.insert(&"aa".to_string(), 9), Err(9));
    assert_eq!(art.remove(&"aa".to_string()), Ok(2));
    assert_eq!(art.remove(&"aa".to_string()), Err(()));
    assert_eq!(art.lookup(&"aaa".to_string()), Some(&3));
    assert_eq!(art.lookup(&"a".to_string()), Some(&1));
}

#[test]
fn art_long_prefix_split() {
    let mut art: ART<String, u32> = ART::new();
    let a = "abcdefghijklmnopqrstuvwxyz-1".to_string();
    let b = "abcdefghijklmnopqrstuvwxyz-2".to_string();
    let c = "abcdefghijklmnopqrstuvwxyZ".to_string();
    let d = "abcdefgh".to_string();
    assert_eq!(art.insert(&a, 1), Ok(()));
    assert_eq!(art.insert(&b, 2), Ok(()));
    assert_eq!(art.insert(&c, 3), Ok(()));
    assert_eq!(art.insert(&d, 4), Ok(()));
    assert_eq!(art.lookup(&a), Some(&1));
    assert_eq!(art.lookup(&b), Some(&2));
    assert_eq!(art.lookup(&c), Some(&3));
    assert_eq!(art.lookup(&d), Some(&4));
    assert_eq!(art.lookup(&"abcdefghijklmnopqrstuvwxyz-3".to_string()), None);
    assert_eq!(art.remove(&a), Ok(1));
    assert_eq!(art.remove(&c), Ok(3));
    assert_eq!(art.lookup(&b), Some(&2));
    assert_eq!(art.lookup(&d), Some(&4));
    assert_eq!(art.remove(&b), Ok(2));
    assert_eq!(art.remove(&d), Ok(4));
    assert_eq!(art.lookup(&d), None);
}

#[test]
fn art_many_children_grow_and_shrink() {
    let mut art: ART<String, u32> = ART::new();
    for i in 0..300u32 {
        assert_eq!(art.insert(&format!("p{}", char::from_u32(0x100 + i).unwrap()), i), Ok(()));
    }
    for i in 0..300u32 {
        assert_eq!(art.lookup(&format!("p{}", char::from_u32(0x100 + i).unwrap())), Some(&i));
    }
    for i in 0..290u32 {
        assert_eq!(art.remove(&format!("p{}", char::from_u32(0x100 + i).unwrap())), Ok(i));
    }
    for i in 290..300u32 {
        assert_eq!(art.lookup(&format!("p{}", char::from_u32(0x100 + i).unwrap())), Some(&i));
    }
}

#[test]
fn string_encoding_ends_with_endmark() {
    assert_eq!("ab".to_string().encode(), vec![b'a', b'b', 0xff]);
    assert_eq!("".to_string().encode(), vec![0xff]);
    assert_eq!("é".to_string().encode(), vec![0xc3, 0xa9, 0xff]);
}

#[test]
fn no_encoding_starts_another() {
    let a = "a".to_string().encode();
    let ab = "ab".to_string().encode();
    assert_eq!(a, vec![b'a', 0xff]);
    assert_eq!(ab, vec![b'a', b'b', 0xff]);
    assert_ne!(&ab[..a.len()], &a[..]);
}

#[test]
fn art_remove_undoes_insert() {
    let mut art: ART<String, u32> = ART::new();
    assert_eq!(art.insert(&"one".to_string(), 1), Ok(()));
    assert_eq!(art.insert(&"two".to_string(), 2), Ok(()));
    assert_eq!(art.insert(&"three".to_string(), 3), Ok(()));
    assert_eq!(art.remove(&"three".to_string()), Ok(3));
    assert_eq!(art.lookup(&"three".to_string()), None);
    assert_eq!(art.lookup(&"one".to_string()), Some(&1));
    assert_eq!(art.lookup(&"two".to_string()), Some(&2));
}
