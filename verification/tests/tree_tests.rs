use keyed_tree::json::Record;
use keyed_tree::tree::Tree;
use keyed_tree::tree::TreeNode;
use keyed_tree::tree::insert;

#[test]
fn test_append_to_vec() {
    let mut vec = Vec::<TreeNode<Record>>::new();

    let n1 = Record { key: 1, order: 0, parent: 0 };
    let n2 = Record { key: 2, order: 0, parent: 0 };
    let n3 = Record { key: 3, order: 10, parent: 0 };
    let n4 = Record { key: 4, order: 4, parent: 0 };
    let n5 = Record { key: 5, order: 3, parent: 0 };

    insert(&mut vec, TreeNode::new(n1));
    assert_eq!(vec.len(), 1);
    insert(&mut vec, TreeNode::new(n2));
    assert_eq!(vec.len(), 2);
    insert(&mut vec, TreeNode::new(n3));
    assert_eq!(vec.len(), 3);
    insert(&mut vec, TreeNode::new(n4));
    assert_eq!(vec.len(), 4);
    insert(&mut vec, TreeNode::new(n5));
    assert_eq!(vec.len(), 5);
}

#[test]
fn insert_orders_and_rejects_duplicates() {
    let mut vec = Vec::<TreeNode<Record>>::new();
    assert!(insert(&mut vec, TreeNode::new(Record { key: 1, order: 5, parent: 0 })));
    assert!(insert(&mut vec, TreeNode::new(Record { key: 2, order: 1, parent: 0 })));
    assert!(insert(&mut vec, TreeNode::new(Record { key: 3, order: 9, parent: 0 })));
    assert_eq!(vec[0].item().key, 2);
    assert_eq!(vec[1].item().key, 1);
    assert_eq!(vec[2].item().key, 3);
    // a duplicate key is rejected, whatever its order
    assert!(!insert(&mut vec, TreeNode::new(Record { key: 2, order: 7, parent: 0 })));
    assert_eq!(vec.len(), 3);
}

// The walkthrough scenario: ordered placement, duplicate rejection, orphan
// rejection.
#[test]
fn tree_scenario() {
    let mut tree = Tree::<Record>::new();
    // key "A" = 1, "B" = 2, "C" = 3, "D" = 4, "Z" = 26; the root sentinel is 0
    assert!(tree.append(Record { key: 1, parent: 0, order: 0 }));
    assert!(tree.append(Record { key: 2, parent: 1, order: 1 }));
    assert!(tree.append(Record { key: 3, parent: 1, order: 0 }));
    {
        let a = tree.get(1).expect("root is present");
        assert_eq!(a.child_count(), 2);
        assert_eq!(a.child(0).item().key, 3);
        assert_eq!(a.child(1).item().key, 2);
    }
    // duplicate key: rejected, children unchanged
    assert!(!tree.append(Record { key: 2, parent: 1, order: 5 }));
    {
        let a = tree.get(1).expect("root is present");
        assert_eq!(a.child_count(), 2);
        assert_eq!(a.child(0).item().key, 3);
        assert_eq!(a.child(1).item().key, 2);
    }
    // unknown parent: rejected, tree unchanged
    assert!(!tree.append(Record { key: 4, parent: 26, order: 0 }));
    assert!(tree.get(4).is_none());
}

// The first successful append becomes the root whatever parent it declares.
#[test]
fn tree_first_append_is_root() {
    let mut tree = Tree::<Record>::new();
    assert!(tree.append(Record { key: 9, parent: 777, order: 3 }));
    let root = tree.get(9).expect("root is present");
    assert_eq!(root.item().key, 9);
    assert_eq!(root.child_count(), 0);
}

// Lookup finds exactly the keys that were appended.
#[test]
fn tree_find_present_and_absent() {
    let mut tree = Tree::<Record>::new();
    assert!(tree.get(1).is_none());
    assert!(tree.append(Record { key: 1, parent: 0, order: 0 }));
    assert!(tree.append(Record { key: 2, parent: 1, order: 0 }));
    assert!(tree.append(Record { key: 3, parent: 2, order: 0 }));
    assert_eq!(tree.get(3).expect("deep node is found").item().key, 3);
    assert_eq!(tree.get(2).expect("middle node is found").item().key, 2);
    assert!(tree.get(4).is_none());
}

// An append under a deep parent only changes that parent's children.
#[test]
fn tree_deep_append() {
    let mut tree = Tree::<Record>::new();
    assert!(tree.append(Record { key: 1, parent: 0, order: 0 }));
    assert!(tree.append(Record { key: 2, parent: 1, order: 0 }));
    assert!(tree.append(Record { key: 3, parent: 2, order: 0 }));
    assert!(tree.append(Record { key: 4, parent: 2, order: 1 }));
    let two = tree.get(2).expect("node is present");
    assert_eq!(two.child_count(), 2);
    assert_eq!(two.child(0).item().key, 3);
    assert_eq!(two.child(1).item().key, 4);
    assert_eq!(tree.get(1).expect("root").child_count(), 1);
}

// Siblings of equal order keep the order in which they arrived.
#[test]
fn tree_equal_order_is_stable() {
    let mut tree = Tree::<Record>::new();
    assert!(tree.append(Record { key: 1, parent: 0, order: 0 }));
    assert!(tree.append(Record { key: 10, parent: 1, order: 5 }));
    assert!(tree.append(Record { key: 11, parent: 1, order: 5 }));
    assert!(tree.append(Record { key: 12, parent: 1, order: 5 }));
    assert!(tree.append(Record { key: 13, parent: 1, order: 1 }));
    let a = tree.get(1).expect("root");
    assert_eq!(a.child(0).item().key, 13);
    assert_eq!(a.child(1).item().key, 10);
    assert_eq!(a.child(2).item().key, 11);
    assert_eq!(a.child(3).item().key, 12);
}

// An item whose parent key equals its own key never attaches to itself.
#[test]
fn tree_self_parent_fails() {
    let mut tree = Tree::<Record>::new();
    assert!(tree.append(Record { key: 1, parent: 0, order: 0 }));
    assert!(!tree.append(Record { key: 7, parent: 7, order: 0 }));
    assert!(tree.get(7).is_none());
}
