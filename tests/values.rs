use gossip_node::values::{contains, copy_of, difference, extend, insert, intersection, pick};

#[test]
fn insert_keeps_values_once() {
    let mut v = vec![1u64, 2];
    insert(&mut v, 2);
    insert(&mut v, 3);
    assert_eq!(v, vec![1, 2, 3]);
    assert!(contains(&v, 3));
    assert!(!contains(&v, 4));
}

#[test]
fn extend_adds_missing_values() {
    let mut v = vec![5u64];
    extend(&mut v, &vec![5, 6, 6, 7]);
    assert_eq!(v, vec![5, 6, 7]);
}

#[test]
fn set_operations() {
    let a = vec![1u64, 2, 3, 4];
    let b = vec![2u64, 4, 9];
    assert_eq!(difference(&a, &b), vec![1, 3]);
    assert_eq!(intersection(&a, &b), vec![2, 4]);
    assert_eq!(pick(&a, &vec![true, true, false, true], &b), vec![2, 4]);
    assert_eq!(pick(&a, &vec![false, false, false, true], &b), vec![4]);
    assert_eq!(copy_of(&a), a);
}
