use cds::util::{slice_insert, slice_remove};

#[test]
fn slice_insert_shifts_right() {
    let mut v = vec!['A', 'B', 'X'];
    slice_insert(&mut v, 1, 'C');
    assert_eq!(v, vec!['A', 'C', 'B']);
}

#[test]
fn slice_insert_keeps_the_length() {
    let mut v = vec![1, 2, 0];
    slice_insert(&mut v, 1, 3);
    assert_eq!(v, vec![1, 3, 2]);
    slice_insert(&mut v, 2, 9);
    assert_eq!(v, vec![1, 3, 9]);
}

#[test]
fn slice_remove_shifts_left() {
    let mut v = vec!['A', 'B', 'C'];
    assert_eq!(slice_remove(&mut v, 1), 'B');
    assert_eq!(v, vec!['A', 'C']);
}

#[test]
fn slice_remove_undoes_slice_insert() {
    let s0 = vec![String::from("a"), String::from("b"), String::from("c")];
    let mut s = s0.clone();
    slice_insert(&mut s, 1, String::from("x"));
    assert_eq!(slice_remove(&mut s, 1), "x");
    assert_eq!(s, s0[..2].to_vec());
}
