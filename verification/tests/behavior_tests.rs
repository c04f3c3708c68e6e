//! Scenario tests of the library's stated behavior: validity after every
//! operation, search as membership, insert-then-delete round trips, deletion
//! of absent keys as a no-op, duplicates, and edge values.

use redblack::tree::RedBlack;

#[test]
fn empty_tree_search_and_delete() {
    let mut rb: RedBlack = RedBlack::new();
    assert_eq!(rb.search(0), None);
    assert_eq!(rb.search(u64::MAX), None);
    assert_eq!(rb.delete(7), None);
    assert!(rb.is_valid());
}

#[test]
fn delete_returns_removed_key() {
    let mut rb: RedBlack = RedBlack::new();
    rb.insert(10);
    rb.insert(20);
    rb.insert(30);
    assert_eq!(rb.delete(20), Some(20));
    assert_eq!(rb.search(20), None);
    assert_eq!(rb.search(10), Some(10));
    assert_eq!(rb.search(30), Some(30));
    assert!(rb.is_valid());
}

#[test]
fn delete_absent_is_a_no_op() {
    let mut rb: RedBlack = RedBlack::new();
    for k in [8u64, 3, 12, 1, 6, 10, 14] {
        rb.insert(k);
    }
    assert_eq!(rb.delete(7), None);
    assert!(rb.is_valid());
    for k in [8u64, 3, 12, 1, 6, 10, 14] {
        assert_eq!(rb.search(k), Some(k));
    }
    assert_eq!(rb.search(7), None);
}

#[test]
fn insert_then_delete_leaves_key_absent() {
    let mut rb: RedBlack = RedBlack::new();
    for k in [2u64, 9, 4, 11] {
        rb.insert(k);
    }
    assert_eq!(rb.search(6), None);
    rb.insert(6);
    assert_eq!(rb.search(6), Some(6));
    assert_eq!(rb.delete(6), Some(6));
    assert_eq!(rb.search(6), None);
    assert!(rb.is_valid());
}

#[test]
fn duplicates_each_removed_once() {
    let mut rb: RedBlack = RedBlack::new();
    rb.insert(5);
    rb.insert(5);
    rb.insert(5);
    assert_eq!(rb.search(5), Some(5));
    assert_eq!(rb.delete(5), Some(5));
    assert_eq!(rb.search(5), Some(5)); // two occurrences remain
    assert!(rb.is_valid());
    assert_eq!(rb.delete(5), Some(5));
    assert_eq!(rb.search(5), Some(5)); // one occurrence remains
    assert_eq!(rb.delete(5), Some(5));
    assert_eq!(rb.search(5), None);
    assert_eq!(rb.delete(5), None);
    assert!(rb.is_valid());
}

#[test]
fn extreme_keys() {
    let mut rb: RedBlack = RedBlack::new();
    rb.insert(0);
    rb.insert(u64::MAX);
    rb.insert(1);
    rb.insert(u64::MAX - 1);
    assert_eq!(rb.search(0), Some(0));
    assert_eq!(rb.search(u64::MAX), Some(u64::MAX));
    assert!(rb.is_valid());
    assert_eq!(rb.delete(0), Some(0));
    assert_eq!(rb.search(0), None);
    assert!(rb.is_valid());
}

#[test]
fn validity_after_every_operation() {
    let mut rb: RedBlack = RedBlack::new();
    assert!(rb.is_valid());
    let mut num = 7u32;
    let mut keys: Vec<u64> = Vec::new();
    for _ in 0..200 {
        num = num.wrapping_mul(17).wrapping_add(255);
        let k = (num % 64) as u64;
        rb.insert(k);
        keys.push(k);
        assert!(rb.is_valid());
    }
    for k in keys {
        assert_eq!(rb.delete(k), Some(k));
        assert!(rb.is_valid());
    }
    assert_eq!(rb.delete(0), None);
    assert!(rb.is_valid());
}

#[test]
fn descending_and_ascending_runs() {
    let mut rb: RedBlack = RedBlack::new();
    for k in (0u64..100).rev() {
        rb.insert(k);
        assert!(rb.is_valid());
    }
    for k in 100u64..200 {
        rb.insert(k);
        assert!(rb.is_valid());
    }
    for k in 0u64..200 {
        assert_eq!(rb.search(k), Some(k));
    }
    assert_eq!(rb.search(200), None);
}

#[test]
fn slot_reuse_after_delete() {
    let mut rb: RedBlack = RedBlack::new();
    rb.insert(1);
    rb.insert(2);
    rb.insert(3);
    assert_eq!(rb.delete(2), Some(2));
    // The freed slot is reinitialised for the next insertion; no stale
    // fields may leak into the new node.
    rb.insert(40);
    assert!(rb.is_valid());
    assert_eq!(rb.search(40), Some(40));
    assert_eq!(rb.search(2), None);
    assert_eq!(rb.search(1), Some(1));
    assert_eq!(rb.search(3), Some(3));
}
