//! Tests of the direct-ownership storage variant through the tree contract.

use redblack::redblack::RedBlack;
use redblack::pointer::PointerRedBlack;

#[test]
fn pointer_test_basic_insert() {
    let mut rb: PointerRedBlack = PointerRedBlack::new();

    rb.insert(5);
    rb.insert(6);
    rb.insert(7);

    assert_eq!(rb.search(5), Some(5));
    assert_eq!(rb.search(6), Some(6));
    assert_eq!(rb.search(7), Some(7));

    assert!(rb.is_valid());
}

#[test]
fn pointer_test_many_insert() {
    let mut num = 1u32;
    let mut rb: PointerRedBlack = PointerRedBlack::new();

    for _ in 0..1000000 {
        num = num.wrapping_mul(17).wrapping_add(255);
        rb.insert(num as u64);
    }

    assert!(rb.is_valid());
}

#[test]
fn pointer_test_many_insert_some_delete() {
    let mut rb: PointerRedBlack = PointerRedBlack::new();

    for i in 500000u64..1000000 {
        rb.insert(i);
        rb.insert(1000000 - i);
    }

    assert_eq!(rb.search(5), Some(5));
    assert_eq!(rb.search(50), Some(50));
    assert_eq!(rb.search(500), Some(500));
    assert_eq!(rb.search(5000), Some(5000));
    assert_eq!(rb.search(50000), Some(50000));
    assert_eq!(rb.search(500000), Some(500000));

    assert!(rb.is_valid());

    rb.delete(5); // the spliced-out node need not be the searched one
    assert!(rb.is_valid());
    rb.delete(5);
    assert_eq!(rb.search(5), None);

    rb.delete(50);
    assert!(rb.is_valid());
    rb.delete(50);
    assert_eq!(rb.search(50), None);

    rb.delete(500);
    assert!(rb.is_valid());
    rb.delete(500);
    assert_eq!(rb.search(500), None);

    rb.delete(5000);
    assert!(rb.is_valid());
    rb.delete(5000);
    assert_eq!(rb.search(5000), None);

    rb.delete(50000);
    assert!(rb.is_valid());
    rb.delete(50000);
    assert_eq!(rb.search(50000), None);

    rb.delete(500000);
    assert!(rb.is_valid());
    rb.delete(500000);
    assert_eq!(rb.search(500000), None);
}
