use keyed_tree::json::JsonItem;
use keyed_tree::json::Record;
use keyed_tree::tree::Tree;

#[test]
fn json_record_fields() {
    let r = Record { key: 12, order: 0, parent: 340 };
    assert_eq!(r.to_json(), "{\"key\":12,\"order\":0,\"parent\":340}");
}

#[test]
fn json_negative_order() {
    let r = Record { key: 1, order: -57, parent: 0 };
    assert_eq!(r.to_json(), "{\"key\":1,\"order\":-57,\"parent\":0}");
}

// A leaf's serialized form has no children field at all.
#[test]
fn json_leaf_omits_children() {
    let mut tree = Tree::<Record>::new();
    assert!(tree.append(Record { key: 1, parent: 0, order: 0 }));
    let s = tree.to_json();
    assert_eq!(s, "{\"node\":{\"key\":1,\"order\":0,\"parent\":0}}");
    assert!(!s.contains("children"));
}

// A node with children carries them under a children field, in sibling order.
#[test]
fn json_children_in_sibling_order() {
    let mut tree = Tree::<Record>::new();
    assert!(tree.append(Record { key: 1, parent: 0, order: 0 }));
    assert!(tree.append(Record { key: 2, parent: 1, order: 1 }));
    assert!(tree.append(Record { key: 3, parent: 1, order: 0 }));
    let s = tree.to_json();
    assert_eq!(
        s,
        "{\"node\":{\"key\":1,\"order\":0,\"parent\":0},\"children\":[\
         {\"node\":{\"key\":3,\"order\":0,\"parent\":1}},\
         {\"node\":{\"key\":2,\"order\":1,\"parent\":1}}]}"
    );
}

#[test]
fn json_empty_tree_is_null() {
    let tree = Tree::<Record>::new();
    assert_eq!(tree.to_json(), "null");
}

#[test]
fn json_nested_children() {
    let mut tree = Tree::<Record>::new();
    assert!(tree.append(Record { key: 1, parent: 0, order: 0 }));
    assert!(tree.append(Record { key: 2, parent: 1, order: 0 }));
    assert!(tree.append(Record { key: 3, parent: 2, order: 0 }));
    let s = tree.to_json();
    assert_eq!(
        s,
        "{\"node\":{\"key\":1,\"order\":0,\"parent\":0},\"children\":[\
         {\"node\":{\"key\":2,\"order\":0,\"parent\":1},\"children\":[\
         {\"node\":{\"key\":3,\"order\":0,\"parent\":2}}]}]}"
    );
}
