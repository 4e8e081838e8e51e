use splay_tree::Entry;
use splay_tree::SplayNode;
use splay_tree::SplayTree;

fn root_node<K: splay_tree::OrderedKey, V>(tree: &SplayTree<K, V>) -> &SplayNode<K, V> {
    tree.node_at(tree.root_index().unwrap()).unwrap()
}

#[test]
fn test_new_empty() {
    let tree: SplayTree<i32, String> = SplayTree::new();
    assert!(tree.root_index().is_none());
    assert!(!tree.is_allocated());
}

#[test]
fn test_insert_into_empty_tree() {
    let mut tree: SplayTree<i32, String> = SplayTree::new();
    tree.insert(Entry::from((10, "ten".to_string())));
    assert!(tree.root_index().is_some());
    let root = root_node(&tree);
    assert_eq!(root.key(), &10);
    assert_eq!(root.entry().value(), "ten");
    assert!(root.parent().is_none());
}

#[test]
fn test_insert_multiple_and_get() {
    let mut tree: SplayTree<i32, String> = SplayTree::new();
    tree.insert(Entry::from((10, "ten".to_string())));
    tree.insert(Entry::from((5, "five".to_string())));
    tree.insert(Entry::from((15, "fifteen".to_string())));
    tree.insert(Entry::from((3, "three".to_string())));
    tree.insert(Entry::from((7, "seven".to_string())));

    assert_eq!(tree.get(10).unwrap().value(), "ten");
    assert_eq!(root_node(&tree).key(), &10);

    assert_eq!(tree.get(3).unwrap().value(), "three");
    assert_eq!(root_node(&tree).key(), &3);

    assert!(tree.get(100).is_none());
    assert_eq!(root_node(&tree).key(), &15);
}

#[test]
fn test_insert_duplicate_updates_value() {
    let mut tree: SplayTree<i32, String> = SplayTree::new();
    tree.insert(Entry::from((10, "ten_v1".to_string())));
    assert_eq!(tree.get(10).unwrap().value(), "ten_v1");

    tree.insert(Entry::from((10, "ten_v2".to_string())));
    assert_eq!(tree.get(10).unwrap().value(), "ten_v2");
    // Length should be 1 if duplicates update
    assert_eq!(tree.arena_len(), 1);
    assert_eq!(root_node(&tree).key(), &10);
}

#[test]
fn test_delete_leaf() {
    let mut tree: SplayTree<i32, String> = SplayTree::new();
    tree.insert(Entry::from((10, "ten".to_string())));
    tree.insert(Entry::from((5, "five".to_string())));

    let deleted = tree.delete(10);
    assert!(deleted.is_some());
    assert_eq!(deleted.unwrap().key(), &10);
    assert!(tree.get(10).is_none());
    assert!(tree.root_index().is_some());
    assert_eq!(root_node(&tree).key(), &5);
}

#[test]
fn test_delete_node_with_one_child() {
    let mut tree: SplayTree<i32, String> = SplayTree::new();
    tree.insert(Entry::from((10, "ten".to_string())));
    tree.insert(Entry::from((5, "five".to_string())));
    tree.insert(Entry::from((3, "three".to_string())));

    let deleted = tree.delete(5);
    assert_eq!(deleted.as_ref().unwrap().key(), &5);
    assert!(tree.get(5).is_none());
    assert_eq!(root_node(&tree).key(), &3);
    assert_eq!(tree.node_at(root_node(&tree).right().unwrap()).unwrap().key(), &10);
}

#[test]
fn test_delete_node_with_two_children() {
    let mut tree: SplayTree<i32, String> = SplayTree::new();
    tree.insert(Entry::from((10, "ten".to_string())));
    tree.insert(Entry::from((5, "five".to_string())));
    tree.insert(Entry::from((15, "fifteen".to_string())));
    tree.insert(Entry::from((3, "three".to_string())));
    tree.insert(Entry::from((7, "seven".to_string())));
    tree.insert(Entry::from((12, "twelve".to_string())));
    tree.insert(Entry::from((17, "seventeen".to_string())));

    assert_eq!(tree.get(10).unwrap().key(), &10);

    let deleted = tree.delete(10);
    assert_eq!(deleted.as_ref().unwrap().key(), &10);
    assert!(tree.get(10).is_none());

    let root_key = root_node(&tree).key();
    assert_eq!(root_key, &7);

    let root_right_child_key = tree.node_at(root_node(&tree).right().unwrap()).unwrap().key();
    assert_eq!(root_right_child_key, &15);
}

#[test]
fn test_delete_root() {
    let mut tree: SplayTree<i32, String> = SplayTree::new();
    tree.insert(Entry::from((10, "ten".to_string())));
    tree.insert(Entry::from((5, "five".to_string())));
    tree.insert(Entry::from((15, "fifteen".to_string())));

    let deleted = tree.delete(15);
    assert_eq!(deleted.as_ref().unwrap().key(), &15);
    assert!(tree.get(15).is_none());
    assert_eq!(root_node(&tree).key(), &10);
}

#[test]
fn test_delete_non_existent() {
    let mut tree: SplayTree<i32, String> = SplayTree::new();
    tree.insert(Entry::from((10, "ten".to_string())));
    tree.insert(Entry::from((5, "five".to_string())));

    assert!(tree.delete(100).is_none());
    assert_eq!(root_node(&tree).key(), &10);
}

#[test]
fn test_min_max_pred_succ_after_various_ops() {
    let mut tree: SplayTree<i32, &str> = SplayTree::new();
    let entries = [(10, "a"), (20, "b"), (30, "c"), (5, "d"), (15, "e"), (25, "f"), (35, "g"), (1, "h"), (8, "i")];
    for (k, v) in entries {
        tree.insert(Entry::from((k, v)));
    }

    assert_eq!(tree.min().unwrap().key(), &1);
    assert_eq!(root_node(&tree).key(), &1);

    assert_eq!(tree.max().unwrap().key(), &35);
    assert_eq!(root_node(&tree).key(), &35);

    assert_eq!(tree.pred(20).unwrap().key(), &15);
    assert_eq!(root_node(&tree).key(), &15);

    assert_eq!(tree.successor(20).unwrap().key(), &25);
    assert_eq!(root_node(&tree).key(), &25);

    assert!(tree.pred(1).is_none());
    assert_eq!(root_node(&tree).key(), &1);

    assert!(tree.successor(35).is_none());
    assert_eq!(root_node(&tree).key(), &35);

    assert_eq!(tree.pred(22).unwrap().key(), &20);
    assert_eq!(root_node(&tree).key(), &20);

    assert_eq!(tree.successor(22).unwrap().key(), &25);
    assert_eq!(root_node(&tree).key(), &25);

    assert_eq!(tree.delete(20).unwrap().key(), &20);
    assert_eq!(root_node(&tree).key(), &15);

    assert_eq!(tree.delete(15).unwrap().key(), &15);
    assert_eq!(root_node(&tree).key(), &8);

    assert_eq!(tree.successor(8).unwrap().key(), &10);
    assert_eq!(root_node(&tree).key(), &10);
}
