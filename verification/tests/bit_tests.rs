use keyed_tree::bit::BinaryIndexedTree;

#[test]
fn test_bit_sum() {
    let mut bit = BinaryIndexedTree::from(vec![1, 2, 3, 4, 5, 6, 7, 8]);
    assert_eq!(bit.sum_to(0), 1);
    assert_eq!(bit.sum_to(1), 3);
    assert_eq!(bit.sum_to(2), 6);
    assert_eq!(bit.sum_to(3), 10);
    assert_eq!(bit.sum_to(4), 15);
    assert_eq!(bit.sum_to(5), 21);
    assert_eq!(bit.sum_to(6), 28);
    assert_eq!(bit.sum_to(7), 36);
}

#[test]
fn test_bit_sum_of_range() {
    let mut bit = BinaryIndexedTree::from(vec![1, 2, 3, 4, 5, 6, 7, 8]);
    assert_eq!(bit.sum_of_range(0, 0), 1);
    assert_eq!(bit.sum_of_range(1, 1), 2);
    assert_eq!(bit.sum_of_range(0, 1), 3);
    assert_eq!(bit.sum_of_range(0, 2), 6);
    assert_eq!(bit.sum_of_range(2, 3), 7);
    assert_eq!(bit.sum_of_range(0, 7), 36);
    assert_eq!(bit.sum_of_range(6, 7), 15);
}

#[test]
fn test_bit_update() {
    let mut bit = BinaryIndexedTree::from(vec![1, 2, 3, 4]);
    bit.update(2, 10);
    assert_eq!(bit.sum_to(1), 3);
    assert_eq!(bit.sum_to(2), 16);
    assert_eq!(bit.sum_to(3), 20);
    assert_eq!(bit.sum_of_range(2, 2), 13);
}

#[test]
fn test_bit_negative_values() {
    let mut bit = BinaryIndexedTree::from(vec![5, -3, 2, -4]);
    assert_eq!(bit.sum_to(0), 5);
    assert_eq!(bit.sum_to(1), 2);
    assert_eq!(bit.sum_to(2), 4);
    assert_eq!(bit.sum_to(3), 0);
    bit.update(1, -2);
    assert_eq!(bit.sum_to(3), -2);
    assert_eq!(bit.sum_of_range(1, 2), -3);
}

#[test]
fn test_bit_new_is_zero() {
    let mut bit = BinaryIndexedTree::new(6);
    assert_eq!(bit.sum_to(5), 0);
    bit.update(0, 7);
    bit.update(5, 9);
    assert_eq!(bit.sum_to(4), 7);
    assert_eq!(bit.sum_to(5), 16);
    assert_eq!(bit.sum_of_range(1, 5), 9);
}

#[test]
fn test_bit_update_out_of_range() {
    let mut bit = BinaryIndexedTree::from(vec![1, 2, 3, 4]);
    bit.update(4, 100);
    bit.update(1000, 100);
    assert_eq!(bit.sum_to(3), 10);
    assert_eq!(bit.sum_of_range(0, 3), 10);
}
