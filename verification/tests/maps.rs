use cds::avltree::AVLTree as DepthAvlTree;
use cds::btree::BTree;
use cds::linkedlist::SortedList;
use cds::map::SequentialMap;
use cds::tree::avl_tree::AVLTree;
use std::collections::BTreeMap;

fn lcg(state: &mut u64) -> u64 {
    *state = state.wrapping_mul(6364136223846793005).wrapping_add(1442695040888963407);
    *state >> 33
}

/// Runs the same random operations on a map and on std's `BTreeMap` and
/// checks that every result agrees.
fn agrees_with_reference<M: SequentialMap<u64, u64>>(seed: u64, ops: usize, key_range: u64) {
    let mut map = M::new();
    let mut reference = BTreeMap::new();
    let mut state = seed;
    for _ in 0..ops {
        let op = lcg(&mut state) % 3;
        let key = lcg(&mut state) % key_range;
        let value = lcg(&mut state);
        match op {
            0 => {
                let expected = if reference.contains_key(&key) {
                    Err(value)
                } else {
                    reference.insert(key, value);
                    Ok(())
                };
                assert_eq!(map.insert(&key, value), expected);
            }
            1 => {
                assert_eq!(map.lookup(&key), reference.get(&key));
            }
            _ => {
                let expected = reference.remove(&key).ok_or(());
                assert_eq!(map.remove(&key), expected);
            }
        }
    }
    for key in 0..key_range {
        assert_eq!(map.lookup(&key), reference.get(&key));
    }
}

#[test]
fn avl_tree_agrees_with_btreemap() {
    agrees_with_reference::<AVLTree<u64, u64>>(1, 20000, 500);
    agrees_with_reference::<AVLTree<u64, u64>>(2, 20000, 50);
}

#[test]
fn depth_avl_tree_agrees_with_btreemap() {
    agrees_with_reference::<DepthAvlTree<u64, u64>>(3, 20000, 500);
    agrees_with_reference::<DepthAvlTree<u64, u64>>(4, 20000, 50);
}

#[test]
fn btree_agrees_with_btreemap() {
    agrees_with_reference::<BTree<u64, u64>>(5, 50000, 2000);
    agrees_with_reference::<BTree<u64, u64>>(6, 20000, 60);
}

#[test]
fn sorted_list_agrees_with_btreemap() {
    agrees_with_reference::<SortedList<u64, u64>>(7, 5000, 200);
}

#[test]
fn insert_then_lookup_gives_the_value_back() {
    let mut tree: BTree<u64, String> = BTree::new();
    assert_eq!(tree.insert(&7, "seven".to_string()), Ok(()));
    assert_eq!(tree.lookup(&7), Some(&"seven".to_string()));
    assert_eq!(tree.lookup(&8), None);
}

#[test]
fn insert_of_a_present_key_gives_the_value_back() {
    let mut list: SortedList<u64, u64> = SortedList::new();
    assert_eq!(list.insert(&3, 30), Ok(()));
    assert_eq!(list.insert(&3, 31), Err(31));
    assert_eq!(list.lookup(&3), Some(&30));
}

#[test]
fn remove_of_an_absent_key_is_refused() {
    let mut tree: AVLTree<u64, u64> = AVLTree::new();
    assert_eq!(tree.remove(&1), Err(()));
    assert_eq!(tree.insert(&1, 10), Ok(()));
    assert_eq!(tree.remove(&1), Ok(10));
    assert_eq!(tree.remove(&1), Err(()));
}

#[test]
fn sorted_list_keys_are_in_order() {
    let mut list: SortedList<u64, u64> = SortedList::new();
    for key in [5u64, 1, 4, 2, 3] {
        assert_eq!(list.insert(&key, key * 10), Ok(()));
    }
    let keys: Vec<u64> = list.keys().into_iter().copied().collect();
    assert_eq!(keys, vec![1, 2, 3, 4, 5]);
}

#[test]
fn avl_height_stays_logarithmic() {
    let mut tree: AVLTree<u64, u64> = AVLTree::new();
    for key in 0..1023u64 {
        assert_eq!(tree.insert(&key, key), Ok(()));
    }
    // 1023 sequential insertions into an AVL tree give a perfect tree.
    assert_eq!(tree.get_height(), 10);
    let mut other: DepthAvlTree<u64, u64> = DepthAvlTree::new();
    assert_eq!(other.get_height(), 0);
    for key in 0..7u64 {
        assert_eq!(other.insert(&key, key), Ok(()));
    }
    assert_eq!(other.get_height(), 3);
}

#[test]
fn btree_invariant_holds_through_splits_and_merges() {
    let mut tree: BTree<u64, u64> = BTree::new();
    for key in 0..3000u64 {
        assert_eq!(tree.insert(&key, key + 1), Ok(()));
    }
    tree.assert_invariant();
    for key in (0..3000u64).step_by(2) {
        assert_eq!(tree.remove(&key), Ok(key + 1));
    }
    tree.assert_invariant();
    for key in 0..3000u64 {
        let expected = if key % 2 == 1 { Some(key + 1) } else { None };
        assert_eq!(tree.lookup(&key).copied(), expected);
    }
}

/// Inserts keys into a map, inserts one more and removes it again, and
/// checks that every earlier key still has its value.
fn remove_undoes_insert<M: SequentialMap<u64, u64>>() {
    let mut map = M::new();
    for key in [10u64, 20, 30, 40] {
        assert_eq!(map.insert(&key, key + 1), Ok(()));
    }
    assert_eq!(map.insert(&25, 99), Ok(()));
    assert_eq!(map.lookup(&25), Some(&99));
    assert_eq!(map.remove(&25), Ok(99));
    assert_eq!(map.lookup(&25), None);
    for key in [10u64, 20, 30, 40] {
        assert_eq!(map.lookup(&key), Some(&(key + 1)));
    }
}

#[test]
fn remove_undoes_insert_in_every_map() {
    remove_undoes_insert::<AVLTree<u64, u64>>();
    remove_undoes_insert::<DepthAvlTree<u64, u64>>();
    remove_undoes_insert::<BTree<u64, u64>>();
    remove_undoes_insert::<SortedList<u64, u64>>();
}

#[test]
fn avl_height_after_sequential_inserts_and_a_remove() {
    let mut t: DepthAvlTree<u64, u64> = DepthAvlTree::new();
    for i in 1..=6u64 {
        assert_eq!(t.insert(&i, i), Ok(()));
    }
    assert_eq!(t.insert(&7, 7), Ok(()));
    assert_eq!(t.get_height(), 3);
    assert_eq!(t.remove(&4), Ok(4));
    assert_eq!(t.lookup(&4), None);
    for i in [1u64, 2, 3, 5, 6, 7] {
        assert_eq!(t.lookup(&i), Some(&i));
    }
    assert_eq!(t.get_height(), 3);

    let mut u: AVLTree<u64, u64> = AVLTree::new();
    for i in 1..=7u64 {
        assert_eq!(u.insert(&i, i), Ok(()));
    }
    assert_eq!(u.get_height(), 3);
}
