use splay_tree::ChildType;
use splay_tree::NodeConfig;
use splay_tree::Entry;
use splay_tree::KeyOrder;
use splay_tree::OrderedKey;
use splay_tree::SplayNode;
use splay_tree::SplayTree;

fn root_key<K: OrderedKey + Copy, V>(tree: &SplayTree<K, V>) -> K {
    *tree.node_at(tree.root_index().unwrap()).unwrap().key()
}

fn root_right_key<K: OrderedKey + Copy, V>(tree: &SplayTree<K, V>) -> K {
    let root = tree.node_at(tree.root_index().unwrap()).unwrap();
    *tree.node_at(root.right().unwrap()).unwrap().key()
}

fn tree_of(keys: &[i32]) -> SplayTree<i32, i32> {
    let mut tree = SplayTree::new();
    for &k in keys {
        tree.insert(Entry::from((k, k * 10)));
    }
    tree
}

#[test]
fn delete_raises_the_predecessor_by_double_rotations() {
    // The largest smaller key lies two levels down the left subtree: it
    // becomes the root.
    let mut tree = tree_of(&[10, 4, 8, 2, 1, 13]);
    assert_eq!(tree.delete(13).unwrap().key(), &13);
    assert_eq!(root_key(&tree), 10);
    // One level down: the left subtree's top stays the root, with the
    // largest smaller key as its right child.
    let mut tree = tree_of(&[1, 9, 6, 11, 18, 10]);
    assert_eq!(tree.delete(18).unwrap().value(), &180);
    assert_eq!(root_key(&tree), 10);
    assert_eq!(root_right_key(&tree), 11);
    // Three levels down: two double rotations leave it one level down.
    let mut tree = tree_of(&[17, 10, 11, 8, 14, 2]);
    assert_eq!(tree.delete(14).unwrap().key(), &14);
    assert_eq!(root_key(&tree), 2);
    assert_eq!(root_right_key(&tree), 11);
    for k in [17, 10, 11, 8, 2] {
        assert_eq!(tree.get(k).unwrap().value(), &(k * 10));
    }
    assert!(tree.get(14).is_none());
}

#[test]
fn insert_then_get_returns_the_entry() {
    for (k, v) in [(0, 0), (-7, 3), (i32::MAX, i32::MIN), (i32::MIN, 42)] {
        let mut tree: SplayTree<i32, i32> = SplayTree::new();
        let inserted = tree.insert(Entry::from((k, v))).unwrap();
        assert_eq!(inserted.key(), &k);
        assert_eq!(inserted.value(), &v);
        let got = tree.get(k).unwrap();
        assert_eq!(got.key(), &k);
        assert_eq!(got.value(), &v);
    }
}

#[test]
fn later_inserts_win_for_every_key() {
    let pairs = [(4, 1), (9, 2), (4, 3), (-2, 4), (9, 5), (0, 6), (4, 7), (13, 8)];
    let mut tree: SplayTree<i32, i32> = SplayTree::new();
    for (k, v) in pairs {
        tree.insert(Entry::from((k, v)));
    }
    for (k, v) in [(4, 7), (9, 5), (-2, 4), (0, 6), (13, 8)] {
        let got = tree.get(k).unwrap();
        assert_eq!(got.key(), &k);
        assert_eq!(got.value(), &v);
        assert_eq!(root_key(&tree), k);
    }
    // Updates reuse the node: one arena slot per distinct key.
    assert_eq!(tree.arena_len(), 5);
}

#[test]
fn insert_delete_get() {
    let mut tree: SplayTree<i32, i32> = SplayTree::new();
    tree.insert(Entry::from((17, 170)));
    let deleted = tree.delete(17).unwrap();
    assert_eq!(deleted.key(), &17);
    assert_eq!(deleted.value(), &170);
    assert!(tree.get(17).is_none());
    assert!(tree.root_index().is_none());
    // The deleted node stays in the arena, unlinked.
    assert_eq!(tree.arena_len(), 1);
    assert!(tree.is_allocated());
}

#[test]
fn delete_of_an_absent_key_changes_no_entry() {
    let mut tree = tree_of(&[8, 3, 11, 6, 1]);
    assert!(tree.delete(7).is_none());
    assert!(tree.delete(100).is_none());
    assert!(tree.delete(-5).is_none());
    for k in [8, 3, 11, 6, 1] {
        assert_eq!(tree.get(k).unwrap().value(), &(k * 10));
    }
}

#[test]
fn missed_lookup_splays_the_largest_smaller_key() {
    let mut tree = tree_of(&[10, 20, 30, 40, 50]);
    assert!(tree.get(35).is_none());
    assert_eq!(root_key(&tree), 30);
    assert_eq!(root_right_key(&tree), 40);
    // With no smaller key, the smallest key is splayed.
    assert!(tree.get(5).is_none());
    assert_eq!(root_key(&tree), 10);
    assert!(tree.get(55).is_none());
    assert_eq!(root_key(&tree), 50);
    assert!(tree.get(25).is_none());
    assert_eq!(root_key(&tree), 20);
}

#[test]
fn min_and_max_follow_the_inserted_keys() {
    let keys = [42, -3, 17, 99, 0, -50, 64];
    let mut tree = tree_of(&keys);
    assert_eq!(tree.min().unwrap().key(), &-50);
    assert_eq!(tree.min().unwrap().value(), &-500);
    assert_eq!(root_key(&tree), -50);
    assert_eq!(tree.max().unwrap().key(), &99);
    assert_eq!(root_key(&tree), 99);
    tree.delete(99);
    tree.delete(-50);
    assert_eq!(tree.max().unwrap().key(), &64);
    assert_eq!(tree.min().unwrap().key(), &-3);
}

#[test]
fn pred_and_successor_walk_the_sorted_keys() {
    let keys = [31, 7, 58, 2, 19, 44, 73, 11];
    let mut sorted = keys.to_vec();
    sorted.sort();
    let mut tree = tree_of(&keys);
    for i in 0..sorted.len() {
        let k = sorted[i];
        match tree.pred(k) {
            Some(e) => {
                assert!(i > 0);
                assert_eq!(e.key(), &sorted[i - 1]);
                assert_eq!(e.value(), &(sorted[i - 1] * 10));
            },
            None => assert_eq!(i, 0),
        }
        match tree.successor(k) {
            Some(e) => {
                assert!(i + 1 < sorted.len());
                assert_eq!(e.key(), &sorted[i + 1]);
            },
            None => assert_eq!(i + 1, sorted.len()),
        }
    }
    assert_eq!(tree.pred(30).unwrap().key(), &19);
    assert_eq!(root_key(&tree), 19);
    assert_eq!(tree.successor(30).unwrap().key(), &31);
    assert_eq!(root_key(&tree), 31);
    assert!(tree.pred(-1000).is_none());
    assert!(tree.successor(1000).is_none());
}

#[test]
fn operations_on_an_empty_tree() {
    let mut tree: SplayTree<u64, String> = SplayTree::default();
    assert!(tree.get(1).is_none());
    assert!(tree.pred(1).is_none());
    assert!(tree.successor(1).is_none());
    assert!(tree.min().is_none());
    assert!(tree.max().is_none());
    assert!(tree.delete(1).is_none());
    assert!(!tree.is_allocated());
    assert_eq!(tree.arena_len(), 0);
    assert!(tree.node_at(0).is_none());
}

#[test]
fn emptied_tree_accepts_new_entries() {
    let mut tree = tree_of(&[5, 1, 9]);
    for k in [1, 5, 9] {
        assert!(tree.delete(k).is_some());
    }
    assert!(tree.root_index().is_none());
    assert!(tree.min().is_none());
    tree.insert(Entry::from((4, 40)));
    assert_eq!(root_key(&tree), 4);
    assert_eq!(tree.arena_len(), 4);
    assert_eq!(tree.get(4).unwrap().value(), &40);
    assert!(tree.get(5).is_none());
}

#[test]
fn root_slot_holds_the_root_entry() {
    let mut tree = tree_of(&[3, 8, 1]);
    tree.get(8);
    let idx = tree.root_index().unwrap();
    let node = tree.node_at(idx).unwrap();
    assert_eq!(node.key(), &8);
    assert_eq!(node.entry().value(), &80);
    assert!(node.parent().is_none());
    let left = tree.node_at(node.left().unwrap()).unwrap();
    assert_eq!(left.parent(), Some(idx));
    assert!(tree.node_at(tree.arena_len()).is_none());
}

#[test]
fn keys_of_other_integer_types() {
    let mut tree: SplayTree<u8, char> = SplayTree::new();
    for (k, v) in [(200u8, 'a'), (0, 'b'), (255, 'c'), (100, 'd')] {
        tree.insert(Entry::from((k, v)));
    }
    assert_eq!(tree.min().unwrap().key(), &0);
    assert_eq!(tree.max().unwrap().key(), &255);
    assert_eq!(tree.pred(200).unwrap().value(), &'d');
    let mut wide: SplayTree<i64, ()> = SplayTree::new();
    wide.insert(Entry::from((i64::MIN, ())));
    wide.insert(Entry::from((i64::MAX, ())));
    assert_eq!(wide.successor(0).unwrap().key(), &i64::MAX);
    assert_eq!(wide.pred(0).unwrap().key(), &i64::MIN);
}

#[test]
fn key_comparison_and_entries() {
    assert_eq!(3i32.compare(&5), KeyOrder::Less);
    assert_eq!(5i32.compare(&5), KeyOrder::Equal);
    assert_eq!((-1i32).compare(&-9), KeyOrder::Greater);
    assert_eq!(usize::MAX.compare(&0), KeyOrder::Greater);
    assert_eq!(7u16.clone_key(), 7u16);
    let e: Entry<&str, usize> = ("usa", 245).into();
    assert_eq!(e.key(), &"usa");
    assert_eq!(e.value(), &245);
    let node = SplayNode::new(Entry::from((245, "usa")));
    assert_eq!(node.key(), &245);
    assert!(node.left().is_none() && node.right().is_none() && node.parent().is_none());
}

#[test]
fn delete_undoes_an_insert_of_a_new_key() {
    let keys = [12, 4, 30, 9, 21];
    let mut tree = tree_of(&keys);
    tree.insert(Entry::from((15, 999)));
    assert_eq!(tree.get(15).unwrap().value(), &999);
    let deleted = tree.delete(15).unwrap();
    assert_eq!(deleted.value(), &999);
    assert!(tree.get(15).is_none());
    for k in keys {
        assert_eq!(tree.get(k).unwrap().value(), &(k * 10));
    }
}

#[test]
fn splay_configurations_print() {
    assert_eq!(format!("{:?}", NodeConfig::Zig(ChildType::Left)), "Zig(Left)");
    assert_eq!(format!("{:?}", NodeConfig::ZigZig(ChildType::Right)), "ZigZig(Right)");
    assert_eq!(format!("{:?}", NodeConfig::ZigZag(ChildType::Left)), "ZigZag(Left)");
}
