//! Tests of the slot-arena storage variant through the tree contract.

use redblack::redblack::RedBlack;
use redblack::slab::SlabRedBlack;

#[test]
fn slab_test_basic_insert() {
    let mut rb: SlabRedBlack = SlabRedBlack::new();

    rb.insert(5);
    rb.insert(6);
    rb.insert(7);

    assert_eq!(rb.search(5), Some(5));
    assert_eq!(rb.search(6), Some(6));
    assert_eq!(rb.search(7), Some(7));

    assert!(rb.is_valid());
}

#[test]
fn slab_test_basic_rotation() {
    let mut rb: SlabRedBlack = SlabRedBlack::new();

    rb.insert(5); // x
    rb.insert(1); // alpha
    rb.insert(8); // y
    rb.insert(7); // beta
    rb.insert(9); // gamma

    // x is the root with left child alpha and right child y;
    // y has children beta and gamma.

    assert_eq!(rb.node_key(1), 5);
    assert_eq!(rb.node_parent(1), rb.sentinel());
    assert_eq!(rb.node_child(1, 0), 2); // x's left points to slot 2, alpha
    assert_eq!(rb.node_child(1, 1), 3); // x's right points to slot 3, y

    assert_eq!(rb.node_key(2), 1);
    assert_eq!(rb.node_parent(2), 1);
    assert_eq!(rb.node_child(2, 0), rb.sentinel());
    assert_eq!(rb.node_child(2, 1), rb.sentinel());

    assert_eq!(rb.node_key(3), 8);
    assert_eq!(rb.node_parent(3), 1);
    assert_eq!(rb.node_child(3, 0), 4); // y's left points to slot 4, beta
    assert_eq!(rb.node_child(3, 1), 5); // y's right points to slot 5, gamma

    assert_eq!(rb.node_key(4), 7);
    assert_eq!(rb.node_parent(4), 3);
    assert_eq!(rb.node_child(4, 0), rb.sentinel());
    assert_eq!(rb.node_child(4, 1), rb.sentinel());
    assert_eq!(rb.node_key(5), 9);
    assert_eq!(rb.node_parent(5), 3);
    assert_eq!(rb.node_child(5, 0), rb.sentinel());
    assert_eq!(rb.node_child(5, 1), rb.sentinel());

    rb.rotate(1, 0); // left-rotate x

    // The slots are the same, but their links reflect the new topology.

    assert_eq!(rb.node_key(1), 5);
    assert_eq!(rb.node_key(2), 1);
    assert_eq!(rb.node_parent(1), 3); // x's new parent is y
    assert_eq!(rb.node_child(3, 0), 1); // y's left child is x
    assert_eq!(rb.node_child(3, 1), 5); // y's right child is gamma
    assert_eq!(rb.node_key(5), 9);
    assert_eq!(rb.node_parent(5), 3);
    assert_eq!(rb.node_child(1, 0), 2); // x's left child is alpha
    assert_eq!(rb.node_child(1, 1), 4); // x's right child is beta
    assert_eq!(rb.node_parent(2), 1); // alpha's parent is x
    assert_eq!(rb.node_parent(4), 1); // beta's parent is x

    rb.rotate(3, 1); // right-rotate y brings the tree back to the original

    assert_eq!(rb.node_key(1), 5);
    assert_eq!(rb.node_parent(1), rb.sentinel());
    assert_eq!(rb.node_child(1, 0), 2); // x's left points to slot 2, alpha
    assert_eq!(rb.node_child(1, 1), 3); // x's right points to slot 3, y

    assert_eq!(rb.node_key(2), 1);
    assert_eq!(rb.node_parent(2), 1);
    assert_eq!(rb.node_child(2, 0), rb.sentinel());
    assert_eq!(rb.node_child(2, 1), rb.sentinel());

    assert_eq!(rb.node_key(3), 8);
    assert_eq!(rb.node_parent(3), 1);
    assert_eq!(rb.node_child(3, 0), 4); // y's left points to slot 4, beta
    assert_eq!(rb.node_child(3, 1), 5); // y's right points to slot 5, gamma

    assert_eq!(rb.node_key(4), 7);
    assert_eq!(rb.node_parent(4), 3);
    assert_eq!(rb.node_child(4, 0), rb.sentinel());
    assert_eq!(rb.node_child(4, 1), rb.sentinel());
    assert_eq!(rb.node_key(5), 9);
    assert_eq!(rb.node_parent(5), 3);
    assert_eq!(rb.node_child(5, 0), rb.sentinel());
    assert_eq!(rb.node_child(5, 1), rb.sentinel());
}

#[test]
fn slab_test_many_insert() {
    let mut num = 1u32;
    let mut rb: SlabRedBlack = SlabRedBlack::new();

    for _ in 0..1000000 {
        num = num.wrapping_mul(17).wrapping_add(255);
        rb.insert(num as u64);
    }

    assert!(rb.is_valid());
}

#[test]
fn slab_test_many_insert_some_delete() {
    let mut rb: SlabRedBlack = SlabRedBlack::new();

    for i in 500000u64..1000000 {
        rb.insert(i);
        rb.insert(1000000 - i);
    }

    assert_eq!(rb.search(5), Some(5));
    assert_eq!(rb.search(50), Some(50));
    assert_eq!(rb.search(500), Some(500));
    assert_eq!(rb.search(5000), Some(5000));
    assert_eq!(rb.search(50000), Some(50000));
    assert_eq!(rb.search(500000), Some(500000));

    assert!(rb.is_valid());

    rb.delete(5);
    assert!(rb.is_valid());
    rb.delete(5);
    assert_eq!(rb.search(5), None);

    rb.delete(50);
    assert!(rb.is_valid());
    rb.delete(50);
    assert_eq!(rb.search(50), None);

    rb.delete(500);
    assert!(rb.is_valid());
    rb.delete(500);
    assert_eq!(rb.search(500), None);

    rb.delete(5000);
    assert!(rb.is_valid());
    rb.delete(5000);
    assert_eq!(rb.search(5000), None);

    rb.delete(50000);
    assert!(rb.is_valid());
    rb.delete(50000);
    assert_eq!(rb.search(50000), None);

    rb.delete(500000);
    assert!(rb.is_valid());
    rb.delete(500000);
    assert_eq!(rb.search(500000), None);
}
