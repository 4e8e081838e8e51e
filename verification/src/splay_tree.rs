//! A splay tree is a binary search tree that moves every accessed node to
//! the root by a sequence of rotations (splaying). Nodes live in a growable
//! arena and refer to each other by slot index.
use vstd::prelude::*;
use crate::key::OrderedKey;
use crate::key::KeyOrder;
use crate::shape::Shape;
use crate::shape::lemma_sub_snoc;
use crate::shape::lemma_sub_prefix_node;
use crate::shape::lemma_sub_idxs;
use crate::shape::lemma_sub_replace;
use crate::shape::lemma_replace_snoc;
use crate::shape::lemma_replace_replace;
use crate::shape::lemma_replace_idxs;
use crate::shape::lemma_replace_ordered;
use crate::shape::lemma_replace_same_map;
use crate::shape::lemma_sub_ordered;
use crate::shape::lemma_rot_right;
use crate::shape::lemma_rot_left;
use crate::shape::lemma_node_idxs;
use crate::shape::lemma_empty_iff_leaf;
use crate::shape::lemma_search_stop;
use crate::shape::lemma_search_gap;
use crate::shape::lemma_node_split;
use crate::shape::lemma_rightmost;
use crate::shape::lemma_leftmost;
use crate::shape::lemma_top_entry;
use crate::shape::lemma_dom_bounds;
use crate::shape::lemma_ordered_weaken;
use crate::shape::lemma_replace_insert_map;
use crate::shape::strictly_between;
use crate::shape::pred_shape;
use crate::shape::succ_shape;
use crate::shape::insert_shape;
use crate::shape::delete_shape;
use crate::shape::lookup_shape;
use crate::shape::lookup_path;
use crate::shape::last_turn;
use crate::shape::lemma_last_turn_bound;
use crate::shape::lemma_search_below;
use crate::shape::lemma_splay_pairs;
use crate::shape::lemma_rightmost_all_right;
use crate::shape::lemma_sub_map;
use crate::shape::lemma_replace_leaf_map;
use crate::shape::lemma_replace_keeps_top;
use crate::shape::lemma_bounds_right_spine;
use crate::neighbours::adjacent;
use crate::neighbours::is_predecessor;
use crate::neighbours::is_successor;
use crate::neighbours::is_max;
use crate::neighbours::is_min;
use crate::shape::lemma_parent_at_snoc;
use crate::node::Entry;
use crate::node::SplayNode;
use crate::node::linked;
use crate::node::tree_ok;
use crate::node::lemma_linked_sub;
use crate::node::lemma_linked_frame;
use crate::node::lemma_linked_reparent;
use crate::node::lemma_linked_replace;
use crate::node::lemma_linked_idxs;
use crate::node::lemma_linked_holds;
use crate::node::holds;

verus! {

broadcast use {crate::node::lemma_entry_view, crate::node::lemma_node_view};

/// Indicates whether a given node is a left or right child of its parent.
#[derive(Debug)]
pub enum ChildType {
    Left,
    Right,
}

/// The three configurations that dictate the number, order and nature of
/// the rotations performed during a splay step.
#[derive(Debug)]
pub enum NodeConfig {
    /// A child of the root.
    Zig(ChildType),
    /// A left child of a left child, or a right child of a right child.
    ZigZig(ChildType),
    /// A left child of a right child, or a right child of a left child.
    ZigZag(ChildType),
}

/// A splay tree whose nodes live in an arena and refer to each other by slot.
pub struct SplayTree<K, V> {
    /// A growable container of all the nodes in the tree.
    elements: Option<Vec<SplayNode<K, V>>>,
    /// The slot of the root; none while the tree is empty.
    root: Option<usize>,
    /// The shape that the arena holds.
    shape: Ghost<Shape<K, V>>,
}

/// The slots that a rotation at `x` lifting its child `y` rewrites: `x`,
/// `y`, `b` (the child of `y` that moves over to `x`) and the parent of `x`;
/// those present are distinct slots of the arena.
pub open spec fn rotation_slots_ok<K, V>(n: Seq<SplayNode<K, V>>, x: usize, y: usize, b: Option<usize>) -> bool {
    let p = n[x as int]@.3;
    &&& x < n.len()
    &&& y < n.len()
    &&& y != x
    &&& b is Some ==> b.unwrap() < n.len() && b.unwrap() != x && b.unwrap() != y
    &&& p is Some ==> p.unwrap() < n.len() && p.unwrap() != x && p.unwrap() != y && p != b
}

/// A rotation to the right can be made at slot `x`: it has a left child.
pub open spec fn rotatable_right<K, V>(n: Seq<SplayNode<K, V>>, x: usize) -> bool {
    &&& x < n.len()
    &&& n[x as int]@.1 is Some
    &&& rotation_slots_ok(n, x, n[x as int]@.1.unwrap(), n[n[x as int]@.1.unwrap() as int]@.2)
}

/// A rotation to the left can be made at slot `y`: it has a right child.
pub open spec fn rotatable_left<K, V>(n: Seq<SplayNode<K, V>>, y: usize) -> bool {
    &&& y < n.len()
    &&& n[y as int]@.2 is Some
    &&& rotation_slots_ok(n, y, n[y as int]@.2.unwrap(), n[n[y as int]@.2.unwrap() as int]@.1)
}

/// The parent `p` of the rotated node, if any, links to `c` in place of
/// `x`: in its left slot if that held `x`, else in its right slot.
pub open spec fn relinked_parent<K, V>(
    n0: Seq<SplayNode<K, V>>,
    n1: Seq<SplayNode<K, V>>,
    p: Option<usize>,
    x: usize,
    c: usize,
) -> bool {
    p is Some ==> {
        let q = p.unwrap() as int;
        n1[q]@ == if n0[q]@.1 == Some(x) {
            (n0[q]@.0, Some(c), n0[q]@.2, n0[q]@.3)
        } else {
            (n0[q]@.0, n0[q]@.1, Some(c), n0[q]@.3)
        }
    }
}

/// `n1` is `n0` after a rotation to the right at slot `x`, whose left child
/// is `y` and whose parent is `p`: `y` takes `p` as parent and `x` as right
/// child; `p` links to `y` where it linked to `x`; `x` takes the right child
/// `b` of `y` as left child and `y` as parent; `b` takes `x` as parent. All
/// entries and every other slot are unchanged.
pub open spec fn rotated_right<K, V>(n0: Seq<SplayNode<K, V>>, n1: Seq<SplayNode<K, V>>, x: usize) -> bool {
    let y = n0[x as int]@.1.unwrap();
    let b = n0[y as int]@.2;
    let p = n0[x as int]@.3;
    &&& n1.len() == n0.len()
    &&& n1[y as int]@ == (n0[y as int]@.0, n0[y as int]@.1, Some(x), p)
    &&& n1[x as int]@ == (n0[x as int]@.0, b, n0[x as int]@.2, Some(y))
    &&& b is Some ==> n1[b.unwrap() as int]@ == (
        n0[b.unwrap() as int]@.0,
        n0[b.unwrap() as int]@.1,
        n0[b.unwrap() as int]@.2,
        Some(x),
    )
    &&& relinked_parent(n0, n1, p, x, y)
    &&& forall|j: int|
        0 <= j < n0.len() && j != x && j != y && (b is Some ==> j != b.unwrap()) && (p is Some ==> j
            != p.unwrap()) ==> #[trigger] n1[j] == n0[j]
}

/// `n1` is `n0` after a rotation to the left at slot `y`, whose right child
/// is `x` and whose parent is `p`: `x` takes `p` as parent and `y` as left
/// child; `p` links to `x` where it linked to `y`; `y` takes the left child
/// `b` of `x` as right child and `x` as parent; `b` takes `y` as parent. All
/// entries and every other slot are unchanged.
pub open spec fn rotated_left<K, V>(n0: Seq<SplayNode<K, V>>, n1: Seq<SplayNode<K, V>>, y: usize) -> bool {
    let x = n0[y as int]@.2.unwrap();
    let b = n0[x as int]@.1;
    let p = n0[y as int]@.3;
    &&& n1.len() == n0.len()
    &&& n1[x as int]@ == (n0[x as int]@.0, Some(y), n0[x as int]@.2, p)
    &&& n1[y as int]@ == (n0[y as int]@.0, n0[y as int]@.1, b, Some(x))
    &&& b is Some ==> n1[b.unwrap() as int]@ == (
        n0[b.unwrap() as int]@.0,
        n0[b.unwrap() as int]@.1,
        n0[b.unwrap() as int]@.2,
        Some(y),
    )
    &&& relinked_parent(n0, n1, p, y, x)
    &&& forall|j: int|
        0 <= j < n0.len() && j != x && j != y && (b is Some ==> j != b.unwrap()) && (p is Some ==> j
            != p.unwrap()) ==> #[trigger] n1[j] == n0[j]
}

/// Facts about a node, its parent and the direction between them, read off
/// a linked shape.
proof fn lemma_parent_facts<K: OrderedKey, V>(
    nodes: Seq<SplayNode<K, V>>,
    t: Shape<K, V>,
    p: Seq<bool>,
)
    requires
        linked(nodes, t, None),
        t.distinct(),
        t.sub(p) is Node,
        p.len() > 0,
    ensures
        t.sub(p.drop_last()) is Node,
        t.sub(p.drop_last()).child(p.last()) == t.sub(p),
        nodes[t.sub(p)->idx as int].parent == Some(t.sub(p.drop_last())->idx),
        t.sub(p.drop_last())->idx < nodes.len(),
        p.last() ==> nodes[t.sub(p.drop_last())->idx as int].right == Some(t.sub(p)->idx),
        p.last() ==> nodes[t.sub(p.drop_last())->idx as int].left != Some(t.sub(p)->idx),
        !p.last() ==> nodes[t.sub(p.drop_last())->idx as int].left == Some(t.sub(p)->idx),
        !p.last() ==> nodes[t.sub(p.drop_last())->idx as int].right != Some(t.sub(p)->idx),
        !t.sub(p).idxs().contains(t.sub(p.drop_last())->idx),
        t.idxs().contains(t.sub(p.drop_last())->idx),
{
    let q = p.drop_last();
    let d = p.last();
    assert(p =~= q.push(d));
    lemma_sub_snoc(t, q, d);
    lemma_sub_prefix_node(t, p);
    lemma_linked_sub(nodes, t, None, p);
    lemma_linked_sub(nodes, t, None, q);
    lemma_sub_idxs(t, q);
    let pn = t.sub(q);
    lemma_node_idxs(pn);
    lemma_node_idxs(t.sub(p));
    let o = pn.child(!d);
    if o is Node {
        lemma_node_idxs(o);
    }
}

impl<K: OrderedKey, V> SplayTree<K, V> {
    /// Rotation to the right at node `x`, whose left child `y` must exist:
    /// `y` takes the place of `x`, and `x` becomes the right child of `y`.
    /// `x` may be the root, in which case it has no parent.
    fn rotate_right(nodes: &mut Vec<SplayNode<K, V>>, x_idx: usize)
        requires
            rotatable_right(old(nodes)@, x_idx),
        ensures
            rotated_right(old(nodes)@, final(nodes)@, x_idx),
    {
        let ghost n0 = nodes@;
        let y_idx = nodes[x_idx].left.unwrap();
        let beta_idx = nodes[y_idx].right;

        nodes[y_idx].parent = nodes[x_idx].parent;
        if let Some(p_idx) = nodes[x_idx].parent {
            if nodes[p_idx].left == Some(x_idx) {
                nodes[p_idx].left = Some(y_idx);
            } else {
                nodes[p_idx].right = Some(y_idx);
            }
        }
        nodes[x_idx].left = beta_idx;
        if let Some(b_idx) = beta_idx {
            nodes[b_idx].parent = Some(x_idx);
        }

        nodes[y_idx].right = Some(x_idx);
        nodes[x_idx].parent = Some(y_idx);

        proof {
            let n2 = nodes@;
            assert forall|j: int|
                0 <= j < n0.len() && j != x_idx && j != y_idx && (beta_idx is Some ==> j != beta_idx.unwrap())
                    && (n0[x_idx as int]@.3 is Some ==> j != n0[x_idx as int]@.3.unwrap()) implies #[trigger] n2[j]
                    == n0[j] by {}
        }
    }

    /// Rotation to the left at node `y`, whose right child `x` must exist:
    /// `x` takes the place of `y`, and `y` becomes the left child of `x`.
    /// `y` may be the root, in which case it has no parent.
    fn rotate_left(nodes: &mut Vec<SplayNode<K, V>>, y_idx: usize)
        requires
            rotatable_left(old(nodes)@, y_idx),
        ensures
            rotated_left(old(nodes)@, final(nodes)@, y_idx),
    {
        let ghost n0 = nodes@;
        let x_idx = nodes[y_idx].right.unwrap();
        let beta_idx = nodes[x_idx].left;

        nodes[x_idx].parent = nodes[y_idx].parent;
        if let Some(p_idx) = nodes[y_idx].parent {
            if nodes[p_idx].left == Some(y_idx) {
                nodes[p_idx].left = Some(x_idx);
            } else {
                nodes[p_idx].right = Some(x_idx);
            }
        }
        nodes[y_idx].right = beta_idx;
        if let Some(b_idx) = beta_idx {
            nodes[b_idx].parent = Some(y_idx);
        }

        nodes[x_idx].left = Some(y_idx);
        nodes[y_idx].parent = Some(x_idx);

        proof {
            let n2 = nodes@;
            assert forall|j: int|
                0 <= j < n0.len() && j != x_idx && j != y_idx && (beta_idx is Some ==> j != beta_idx.unwrap())
                    && (n0[y_idx as int]@.3 is Some ==> j != n0[y_idx as int]@.3.unwrap()) implies #[trigger] n2[j]
                    == n0[j] by {}
        }
    }
}

/// In a whole tree, a node with a left child can be rotated to the right.
proof fn lemma_rotate_right_ok<K: OrderedKey, V>(n0: Seq<SplayNode<K, V>>, t: Shape<K, V>, p: Seq<bool>, x_idx: usize)
    requires
        tree_ok(n0, t),
        t.sub(p) is Node,
        t.sub(p)->idx == x_idx,
        (*t.sub(p)->left) is Node,
    ensures
        rotatable_right(n0, x_idx),
{
    let s = t.sub(p);
    let l = *s->left;
    let b = *l->right;
    lemma_linked_sub(n0, t, None, p);
    lemma_sub_idxs(t, p);
    lemma_linked_idxs(n0, t, None);
    lemma_node_idxs(s);
    lemma_node_idxs(l);
    if b is Node {
        lemma_node_idxs(b);
    }
    if p.len() > 0 {
        lemma_parent_facts(n0, t, p);
    }
    assert(linked(n0, s, t.parent_at(p, None)));
    assert(linked(n0, l, Some(x_idx)));
    assert(linked(n0, b, Some(l->idx)));
    assert(s.distinct());
    assert(l.distinct());
}

/// A right rotation in a whole tree rotates its shape at the node's path,
/// keeping the order, the slots and the entries.
proof fn lemma_rotate_right_shape<K: OrderedKey, V>(
    n0: Seq<SplayNode<K, V>>,
    n2: Seq<SplayNode<K, V>>,
    t: Shape<K, V>,
    p: Seq<bool>,
    x_idx: usize,
)
    requires
        tree_ok(n0, t),
        t.sub(p) is Node,
        t.sub(p)->idx == x_idx,
        (*t.sub(p)->left) is Node,
        rotated_right(n0, n2, x_idx),
    ensures
        tree_ok(n2, t.replace(p, t.sub(p).rot_right())),
        t.replace(p, t.sub(p).rot_right()).to_map() == t.to_map(),
        t.replace(p, t.sub(p).rot_right()).idxs() == t.idxs(),
        n2.len() == n0.len(),
        forall|j: int| 0 <= j < n0.len() && !t.idxs().contains(j as usize) ==> n2[j] == n0[j],
        forall|j: int| 0 <= j < n0.len() ==> n2[j].entry == n0[j].entry,
{
    let s = t.sub(p);
    let l = *s->left;
    let a = *l->left;
    let b = *l->right;
    let c = *s->right;
    lemma_linked_sub(n0, t, None, p);
    lemma_sub_idxs(t, p);
    lemma_linked_idxs(n0, t, None);
    lemma_node_idxs(s);
    lemma_node_idxs(l);
    if b is Node {
        lemma_node_idxs(b);
    }
    if p.len() > 0 {
        lemma_parent_facts(n0, t, p);
    }
    assert(linked(n0, s, t.parent_at(p, None)));
    assert(linked(n0, l, Some(x_idx)));
    assert(linked(n0, b, Some(l->idx)));
    assert(s.distinct());
    assert(l.distinct());
    let y_idx = l->idx;
    let beta_idx = b.link();
    let s2 = s.rot_right();
    let inner = *s2->right;
    let par = t.parent_at(p, None);
    lemma_node_idxs(s2);
    lemma_node_idxs(inner);
    assert(forall|j: int|
        0 <= j < n0.len() && j != x_idx && j != y_idx && Some(j as usize) != beta_idx
            && Some(j as usize) != par ==> n2[j] == n0[j]);
    assert forall|j: usize| #[trigger] a.idxs().contains(j) implies j < n2.len() && n2[j as int]
        == n0[j as int] by {
        assert(l.idxs().contains(j));
        assert(s.idxs().contains(j));
        assert(t.idxs().contains(j));
        assert(j != x_idx);
        assert(j != y_idx);
        assert(Some(j) != beta_idx);
        assert(Some(j) != par);
    }
    assert forall|j: usize| #[trigger] c.idxs().contains(j) implies j < n2.len() && n2[j as int]
        == n0[j as int] by {
        assert(s.idxs().contains(j));
        assert(t.idxs().contains(j));
        assert(j != x_idx);
        assert(j != y_idx);
        assert(Some(j) != beta_idx);
        assert(Some(j) != par);
    }
    assert forall|j: usize| #[trigger] b.idxs().contains(j) && Some(j) != b.link() implies j < n2.len()
        && n2[j as int] == n0[j as int] by {
        assert(l.idxs().contains(j));
        assert(s.idxs().contains(j));
        assert(t.idxs().contains(j));
        assert(j != x_idx);
        assert(j != y_idx);
        assert(Some(j) != par);
    }
    lemma_linked_frame(n0, n2, a, Some(y_idx));
    lemma_linked_frame(n0, n2, c, Some(x_idx));
    lemma_linked_reparent(n0, n2, b, Some(y_idx), Some(x_idx));
    assert(linked(n2, inner, Some(y_idx)));
    assert(linked(n2, s2, par));
    assert forall|j: usize| #[trigger]
        t.idxs().contains(j) && !t.sub(p).idxs().contains(j) && Some(j) != t.parent_at(p, None)
            implies j < n2.len() && n2[j as int] == n0[j as int] by {}
    lemma_linked_replace(n0, n2, t, None, p, s2);
    lemma_sub_ordered(t, p, None, None);
    let bd = t.bounds_at(p, None, None);
    lemma_rot_right(s, bd.0, bd.1);
    lemma_replace_ordered(t, p, s2, None, None);
    lemma_replace_idxs(t, p, s2);
    lemma_replace_same_map(t, p, s2);
    assert forall|j: int| 0 <= j < n0.len() implies #[trigger] n2[j].entry == n0[j].entry by {
        assert(n0[x_idx as int]@.1 == Some(y_idx));
        assert(n0[y_idx as int]@.2 == beta_idx);
        assert(n0[x_idx as int]@.3 == par);
        if beta_idx is Some && j == beta_idx.unwrap() {
            assert(n2[j]@.0 == n0[j]@.0);
        } else if par is Some && j == par.unwrap() && j != x_idx && j != y_idx {
            assert(relinked_parent(n0, n2, par, x_idx, y_idx));
            assert(n2[j]@.0 == n0[j]@.0);
        } else if j == x_idx || j == y_idx {
            assert(n2[j]@.0 == n0[j]@.0);
        }
        assert(n2[j].entry.key == n0[j].entry.key);
        assert(n2[j].entry.value == n0[j].entry.value);
    }
}

/// In a whole tree, a node with a right child can be rotated to the left.
proof fn lemma_rotate_left_ok<K: OrderedKey, V>(n0: Seq<SplayNode<K, V>>, t: Shape<K, V>, p: Seq<bool>, y_idx: usize)
    requires
        tree_ok(n0, t),
        t.sub(p) is Node,
        t.sub(p)->idx == y_idx,
        (*t.sub(p)->right) is Node,
    ensures
        rotatable_left(n0, y_idx),
{
    let s = t.sub(p);
    let r = *s->right;
    let a = *s->left;
    let b = *r->left;
    let c = *r->right;
    lemma_linked_sub(n0, t, None, p);
    lemma_sub_idxs(t, p);
    lemma_linked_idxs(n0, t, None);
    lemma_node_idxs(s);
    lemma_node_idxs(r);
    if b is Node {
        lemma_node_idxs(b);
    }
    if p.len() > 0 {
        lemma_parent_facts(n0, t, p);
    }
    assert(linked(n0, s, t.parent_at(p, None)));
    assert(linked(n0, r, Some(y_idx)));
    assert(linked(n0, b, Some(r->idx)));
    assert(s.distinct());
    assert(r.distinct());
}

/// A left rotation in a whole tree rotates its shape at the node's path,
/// keeping the order, the slots and the entries.
proof fn lemma_rotate_left_shape<K: OrderedKey, V>(
    n0: Seq<SplayNode<K, V>>,
    n2: Seq<SplayNode<K, V>>,
    t: Shape<K, V>,
    p: Seq<bool>,
    y_idx: usize,
)
    requires
        tree_ok(n0, t),
        t.sub(p) is Node,
        t.sub(p)->idx == y_idx,
        (*t.sub(p)->right) is Node,
        rotated_left(n0, n2, y_idx),
    ensures
        tree_ok(n2, t.replace(p, t.sub(p).rot_left())),
        t.replace(p, t.sub(p).rot_left()).to_map() == t.to_map(),
        t.replace(p, t.sub(p).rot_left()).idxs() == t.idxs(),
        n2.len() == n0.len(),
        forall|j: int| 0 <= j < n0.len() && !t.idxs().contains(j as usize) ==> n2[j] == n0[j],
        forall|j: int| 0 <= j < n0.len() ==> n2[j].entry == n0[j].entry,
{
    let s = t.sub(p);
    let r = *s->right;
    let a = *s->left;
    let b = *r->left;
    let c = *r->right;
    lemma_linked_sub(n0, t, None, p);
    lemma_sub_idxs(t, p);
    lemma_linked_idxs(n0, t, None);
    lemma_node_idxs(s);
    lemma_node_idxs(r);
    if b is Node {
        lemma_node_idxs(b);
    }
    if p.len() > 0 {
        lemma_parent_facts(n0, t, p);
    }
    assert(linked(n0, s, t.parent_at(p, None)));
    assert(linked(n0, r, Some(y_idx)));
    assert(linked(n0, b, Some(r->idx)));
    assert(s.distinct());
    assert(r.distinct());
    let x_idx = r->idx;
    let beta_idx = b.link();
    let s2 = s.rot_left();
    let inner = *s2->left;
    let par = t.parent_at(p, None);
    lemma_node_idxs(s2);
    lemma_node_idxs(inner);
    assert(forall|j: int|
        0 <= j < n0.len() && j != x_idx && j != y_idx && Some(j as usize) != beta_idx
            && Some(j as usize) != par ==> n2[j] == n0[j]);
    assert forall|j: usize| #[trigger] a.idxs().contains(j) implies j < n2.len() && n2[j as int]
        == n0[j as int] by {
        assert(t.idxs().contains(j));
    }
    assert forall|j: usize| #[trigger] c.idxs().contains(j) implies j < n2.len() && n2[j as int]
        == n0[j as int] by {
        assert(r.idxs().contains(j));
        assert(t.idxs().contains(j));
    }
    assert forall|j: usize| #[trigger] b.idxs().contains(j) && Some(j) != b.link() implies j < n2.len()
        && n2[j as int] == n0[j as int] by {
        assert(r.idxs().contains(j));
        assert(t.idxs().contains(j));
    }
    lemma_linked_frame(n0, n2, a, Some(y_idx));
    lemma_linked_frame(n0, n2, c, Some(x_idx));
    lemma_linked_reparent(n0, n2, b, Some(x_idx), Some(y_idx));
    assert(linked(n2, inner, Some(x_idx)));
    assert(linked(n2, s2, par));
    assert forall|j: usize| #[trigger]
        t.idxs().contains(j) && !t.sub(p).idxs().contains(j) && Some(j) != t.parent_at(p, None)
            implies j < n2.len() && n2[j as int] == n0[j as int] by {}
    lemma_linked_replace(n0, n2, t, None, p, s2);
    lemma_sub_ordered(t, p, None, None);
    let bd = t.bounds_at(p, None, None);
    lemma_rot_left(s, bd.0, bd.1);
    lemma_replace_ordered(t, p, s2, None, None);
    lemma_replace_idxs(t, p, s2);
    lemma_replace_same_map(t, p, s2);
    assert forall|j: int| 0 <= j < n0.len() implies #[trigger] n2[j].entry == n0[j].entry by {
        assert(n0[y_idx as int]@.2 == Some(x_idx));
        assert(n0[x_idx as int]@.1 == beta_idx);
        assert(n0[y_idx as int]@.3 == par);
        if beta_idx is Some && j == beta_idx.unwrap() {
            assert(n2[j]@.0 == n0[j]@.0);
        } else if par is Some && j == par.unwrap() && j != x_idx && j != y_idx {
            assert(relinked_parent(n0, n2, par, y_idx, x_idx));
            assert(n2[j]@.0 == n0[j]@.0);
        } else if j == x_idx || j == y_idx {
            assert(n2[j]@.0 == n0[j]@.0);
        }
        assert(n2[j].entry.key == n0[j].entry.key);
        assert(n2[j].entry.value == n0[j].entry.value);
    }
}

impl<K: OrderedKey, V> SplayTree<K, V> {
    /// Moves the target node to the root of the tree using a series of
    /// rotations. Without an arena, or with a slot outside it, nothing
    /// changes; a parentless target is only made the root.
    fn splay(
        &mut self,
        target: usize,
        Ghost(t): Ghost<Shape<K, V>>,
        Ghost(path): Ghost<Seq<bool>>,
    ) -> (res: Ghost<Shape<K, V>>)
        requires
            old(self).elements is Some && target < old(self).elements.unwrap().len() ==> {
                &&& tree_ok(old(self).elements.unwrap()@, t)
                &&& t.sub(path) is Node
                &&& t.sub(path)->idx == target
            },
        ensures
            old(self).elements is None || target >= old(self).elements.unwrap().len() ==> {
                &&& *final(self) == *old(self)
                &&& res@ == t
            },
            old(self).elements is Some && tree_ok(old(self).elements.unwrap()@, t) && t.sub(path) is Node
                && t.sub(path)->idx == target ==> {
                &&& final(self).elements is Some
                &&& tree_ok(final(self).elements.unwrap()@, res@)
                &&& res@ == t.splay_at(path)
                &&& res@ is Node
                &&& res@->idx == target
                &&& res@->key == t.sub(path)->key
                &&& res@->value == t.sub(path)->value
                &&& res@.to_map() == t.to_map()
                &&& res@.idxs() == t.idxs()
                &&& final(self).root == Some(target)
                &&& final(self).shape == old(self).shape
                &&& final(self).elements.unwrap()@.len() == old(self).elements.unwrap()@.len()
                &&& forall|j: int|
                    0 <= j < old(self).elements.unwrap()@.len() && !t.idxs().contains(j as usize)
                        ==> final(self).elements.unwrap()@[j] == old(self).elements.unwrap()@[j]
                &&& forall|j: int|
                    0 <= j < old(self).elements.unwrap()@.len() ==> final(self).elements.unwrap()@[j].entry == old(self).elements.unwrap()@[j].entry
            },
    {
        if self.elements.is_none() {
            return Ghost(t);
        }
        let elements_ref_check = self.elements.as_ref().unwrap();
        if elements_ref_check.len() == 0 {
            return Ghost(t);
        }
        proof {
            if tree_ok(elements_ref_check@, t) && t.sub(path) is Node && t.sub(path)->idx == target {
                lemma_linked_sub(elements_ref_check@, t, None, path);
                if path.len() > 0 {
                    lemma_parent_facts(elements_ref_check@, t, path);
                }
            }
        }
        // A target outside the arena cannot be splayed; a target without a
        // parent is the root already.
        if target >= elements_ref_check.len() || elements_ref_check[target].parent.is_none() {
            if target < elements_ref_check.len() && elements_ref_check[target].parent.is_none() {
                self.root = Some(target);
            }
            return Ghost(t);
        }
        let mut nodes = self.elements.take().unwrap();
        let ghost p1 = path.subrange(0, (path.len() % 2) as int);
        let t1 = Self::splay_pairs(&mut nodes, target, Ghost(t), Ghost(path));
        let ghost cur = t1@;
        let ghost mut fin = cur;
        proof {
            lemma_linked_sub(nodes@, cur, None, p1);
            if p1.len() > 0 {
                lemma_parent_facts(nodes@, cur, p1);
            }
            lemma_splay_pairs(t, path);
        }
        if nodes[target].parent.is_some() {
            // Zig: the target is a child of the root.
            let parent_idx = nodes[target].parent.unwrap();
            let target_is_left_child_of_parent = nodes[parent_idx].left == Some(target);
            let ghost q = Seq::<bool>::empty();
            proof {
                assert(p1.len() == 1);
                assert(p1.drop_last() =~= q);
                assert(p1[0] == path[0]);
                assert(cur.sub(q) == cur);
            }
            if target_is_left_child_of_parent {
                proof {
                    lemma_rotate_right_ok(nodes@, cur, q, parent_idx);
                }
                let ghost nb = nodes@;
                Self::rotate_right(&mut nodes, parent_idx);
                proof {
                    lemma_rotate_right_shape(nb, nodes@, cur, q, parent_idx);
                }
                proof {
                    fin = cur.rot_right();
                    assert(cur.replace(q, cur.rot_right()) == fin);
                }
            } else {
                proof {
                    lemma_rotate_left_ok(nodes@, cur, q, parent_idx);
                }
                let ghost nb = nodes@;
                Self::rotate_left(&mut nodes, parent_idx);
                proof {
                    lemma_rotate_left_shape(nb, nodes@, cur, q, parent_idx);
                }
                proof {
                    fin = cur.rot_left();
                    assert(cur.replace(q, cur.rot_left()) == fin);
                }
            }
        } else {
            proof {
                assert(p1.len() == 0);
                assert(cur.sub(p1) == cur);
            }
        }
        self.root = Some(target);
        self.elements = Some(nodes);
        Ghost(fin)
    }

    /// The zig-zig and zig-zag steps of a splay: the target rises two levels
    /// at a time while it has a grandparent, and ends as the root or as a
    /// child of the root.
    fn splay_pairs(
        nodes: &mut Vec<SplayNode<K, V>>,
        target: usize,
        Ghost(t): Ghost<Shape<K, V>>,
        Ghost(path): Ghost<Seq<bool>>,
    ) -> (res: Ghost<Shape<K, V>>)
        requires
            tree_ok(old(nodes)@, t),
            t.sub(path) is Node,
            t.sub(path)->idx == target,
        ensures
            tree_ok(final(nodes)@, res@),
            res@ == t.pairs_at(path),
            res@.sub(path.subrange(0, (path.len() % 2) as int)) is Node,
            res@.sub(path.subrange(0, (path.len() % 2) as int))->idx == target,
            res@.sub(path.subrange(0, (path.len() % 2) as int))->key == t.sub(path)->key,
            res@.sub(path.subrange(0, (path.len() % 2) as int))->value == t.sub(path)->value,
            res@.to_map() == t.to_map(),
            res@.idxs() == t.idxs(),
            final(nodes)@.len() == old(nodes)@.len(),
            forall|j: int|
                0 <= j < old(nodes)@.len() && !t.idxs().contains(j as usize) ==> final(nodes)@[j]
                    == old(nodes)@[j],
            forall|j: int|
                0 <= j < old(nodes)@.len() ==> final(nodes)@[j].entry == old(nodes)@[j].entry,
    {
        let ghost n0 = nodes@;
        let ghost mut cur = t;
        let ghost mut p = path;
        proof {
            lemma_linked_sub(n0, t, None, path);
            assert(path.subrange(0, path.len() as int) =~= path);
        }
        loop
            invariant
                tree_ok(nodes@, cur),
                cur.pairs_at(p) == t.pairs_at(path),
                p.len() <= path.len(),
                p == path.subrange(0, p.len() as int),
                p.len() % 2 == path.len() % 2,
                cur.sub(p) is Node,
                cur.sub(p)->idx == target,
                target < nodes@.len(),
                cur.sub(p)->key == t.sub(path)->key,
                cur.sub(p)->value == t.sub(path)->value,
                cur.to_map() == t.to_map(),
                cur.idxs() == t.idxs(),
                nodes@.len() == n0.len(),
                forall|j: int|
                    0 <= j < n0.len() && !t.idxs().contains(j as usize) ==> nodes@[j] == n0[j],
                forall|j: int| 0 <= j < n0.len() ==> nodes@[j].entry == n0[j].entry,
            ensures
                p.len() < 2,
            decreases p.len(),
        {
            proof {
                lemma_linked_sub(nodes@, cur, None, p);
                if p.len() > 0 {
                    lemma_parent_facts(nodes@, cur, p);
                }
            }
            if nodes[target].parent.is_none() {
                break;
            }
            let ghost q = p.drop_last();
            let ghost pn = cur.sub(q);
            let parent_idx = nodes[target].parent.unwrap();
            let grand_parent_idx_opt = nodes[parent_idx].parent;
            let target_is_left_child_of_parent = nodes[parent_idx].left == Some(target);
            proof {
                lemma_linked_sub(nodes@, cur, None, q);
                assert(p =~= q.push(p.last()));
                lemma_sub_snoc(cur, q, p.last());
                if q.len() > 0 {
                    lemma_parent_facts(nodes@, cur, q);
                }
            }
            if grand_parent_idx_opt.is_none() {
                proof {
                    assert(q.len() == 0);
                }
                break;
            }
            let ghost g = q.drop_last();
            let ghost gn = cur.sub(g);
            let grand_parent_idx = grand_parent_idx_opt.unwrap();
            let parent_is_left_child_of_grandparent = nodes[grand_parent_idx].left == Some(
                parent_idx,
            );
            let ghost old_cur = cur;
            proof {
                assert(q =~= g.push(q.last()));
                lemma_sub_snoc(cur, g, q.last());
                if g.len() > 0 {
                    lemma_sub_prefix_node(cur, g);
                }
                assert(g =~= p.subrange(0, p.len() - 2));
                assert(q.last() == p[p.len() - 2]);
                assert(p.last() == p[p.len() - 1]);
            }
            if parent_is_left_child_of_grandparent {
                if target_is_left_child_of_parent {
                    // ZigZig (Left-Left)
                    proof {
                        lemma_rotate_right_ok(nodes@, cur, g, grand_parent_idx);
                    }
                    let ghost nb = nodes@;
                    Self::rotate_right(nodes, grand_parent_idx);
                    proof {
                        lemma_rotate_right_shape(nb, nodes@, cur, g, grand_parent_idx);
                    }
                    let ghost cur2 = cur.replace(g, gn.rot_right());
                    proof {
                        lemma_sub_replace(cur, g, gn.rot_right());
                    }
                    proof {
                        lemma_rotate_right_ok(nodes@, cur2, g, parent_idx);
                    }
                    let ghost nb = nodes@;
                    Self::rotate_right(nodes, parent_idx);
                    proof {
                        lemma_rotate_right_shape(nb, nodes@, cur2, g, parent_idx);
                    }
                    proof {
                        if g.len() > 0 {
                            lemma_sub_prefix_node(cur2, g);
                        }
                        lemma_sub_replace(cur2, g, cur2.sub(g).rot_right());
                        cur = cur2.replace(g, cur2.sub(g).rot_right());
                    }
                } else {
                    // ZigZag (Left-Right)
                    proof {
                        lemma_rotate_left_ok(nodes@, cur, q, parent_idx);
                    }
                    let ghost nb = nodes@;
                    Self::rotate_left(nodes, parent_idx);
                    proof {
                        lemma_rotate_left_shape(nb, nodes@, cur, q, parent_idx);
                    }
                    let ghost cur2 = cur.replace(q, pn.rot_left());
                    proof {
                        lemma_replace_snoc(cur, g, false, pn.rot_left());
                        lemma_sub_replace(cur, g, gn.with_child(false, pn.rot_left()));
                    }
                    proof {
                        lemma_rotate_right_ok(nodes@, cur2, g, grand_parent_idx);
                    }
                    let ghost nb = nodes@;
                    Self::rotate_right(nodes, grand_parent_idx);
                    proof {
                        lemma_rotate_right_shape(nb, nodes@, cur2, g, grand_parent_idx);
                    }
                    proof {
                        if g.len() > 0 {
                            lemma_sub_prefix_node(cur2, g);
                        }
                        lemma_sub_replace(cur2, g, cur2.sub(g).rot_right());
                        cur = cur2.replace(g, cur2.sub(g).rot_right());
                    }
                }
            } else {
                if target_is_left_child_of_parent {
                    // ZigZag (Right-Left)
                    proof {
                        lemma_rotate_right_ok(nodes@, cur, q, parent_idx);
                    }
                    let ghost nb = nodes@;
                    Self::rotate_right(nodes, parent_idx);
                    proof {
                        lemma_rotate_right_shape(nb, nodes@, cur, q, parent_idx);
                    }
                    let ghost cur2 = cur.replace(q, pn.rot_right());
                    proof {
                        lemma_replace_snoc(cur, g, true, pn.rot_right());
                        lemma_sub_replace(cur, g, gn.with_child(true, pn.rot_right()));
                    }
                    proof {
                        lemma_rotate_left_ok(nodes@, cur2, g, grand_parent_idx);
                    }
                    let ghost nb = nodes@;
                    Self::rotate_left(nodes, grand_parent_idx);
                    proof {
                        lemma_rotate_left_shape(nb, nodes@, cur2, g, grand_parent_idx);
                    }
                    proof {
                        if g.len() > 0 {
                            lemma_sub_prefix_node(cur2, g);
                        }
                        lemma_sub_replace(cur2, g, cur2.sub(g).rot_left());
                        cur = cur2.replace(g, cur2.sub(g).rot_left());
                    }
                } else {
                    // ZigZig (Right-Right)
                    proof {
                        lemma_rotate_left_ok(nodes@, cur, g, grand_parent_idx);
                    }
                    let ghost nb = nodes@;
                    Self::rotate_left(nodes, grand_parent_idx);
                    proof {
                        lemma_rotate_left_shape(nb, nodes@, cur, g, grand_parent_idx);
                    }
                    let ghost cur2 = cur.replace(g, gn.rot_left());
                    proof {
                        lemma_sub_replace(cur, g, gn.rot_left());
                    }
                    proof {
                        lemma_rotate_left_ok(nodes@, cur2, g, parent_idx);
                    }
                    let ghost nb = nodes@;
                    Self::rotate_left(nodes, parent_idx);
                    proof {
                        lemma_rotate_left_shape(nb, nodes@, cur2, g, parent_idx);
                    }
                    proof {
                        if g.len() > 0 {
                            lemma_sub_prefix_node(cur2, g);
                        }
                        lemma_sub_replace(cur2, g, cur2.sub(g).rot_left());
                        cur = cur2.replace(g, cur2.sub(g).rot_left());
                    }
                }
            }
            proof {
                let d1 = q.last();
                let d2 = p.last();
                if d1 {
                    assert(q =~= g.push(true));
                } else {
                    assert(q =~= g.push(false));
                }
                if !d1 && !d2 {
                    lemma_replace_replace(old_cur, g, gn.rot_right(), gn.rot_right().rot_right());
                } else if !d1 && d2 {
                    lemma_replace_snoc(old_cur, g, false, pn.rot_left());
                    lemma_replace_replace(
                        old_cur,
                        g,
                        gn.with_child(false, pn.rot_left()),
                        gn.with_child(false, pn.rot_left()).rot_right(),
                    );
                } else if d1 && !d2 {
                    lemma_replace_snoc(old_cur, g, true, pn.rot_right());
                    lemma_replace_replace(
                        old_cur,
                        g,
                        gn.with_child(true, pn.rot_right()),
                        gn.with_child(true, pn.rot_right()).rot_left(),
                    );
                } else {
                    lemma_replace_replace(old_cur, g, gn.rot_left(), gn.rot_left().rot_left());
                }
                assert(cur == old_cur.replace(g, gn.zig_step(d1, d2)));
                assert(g =~= path.subrange(0, g.len() as int));
                p = g;
            }
            proof {
                lemma_linked_sub(nodes@, cur, None, p);
            }
        }
        proof {
            assert(p =~= path.subrange(0, (path.len() % 2) as int));
        }
        Ghost(cur)
    }
}

/// Which child of its parent the node in slot `cur` is, by the parent's
/// links: none for no node, no parent, or a parent that does not link back.
pub(crate) open spec fn child_type_of<K, V>(nodes: Seq<SplayNode<K, V>>, cur: Option<usize>) -> Option<ChildType> {
    match cur {
        None => None,
        Some(c) => match nodes[c as int].parent {
            None => None,
            Some(p) => if nodes[p as int].left == Some(c) {
                Some(ChildType::Left)
            } else if nodes[p as int].right == Some(c) {
                Some(ChildType::Right)
            } else {
                None
            },
        },
    }
}

/// The lowest node on the way from the top to the node at path `p`, that
/// node included, that is a child of its parent in direction `d`: for
/// `d == true` the lowest right child, for `d == false` the lowest left child.
pub open spec fn turn_node<K, V>(t: Shape<K, V>, p: Seq<bool>, d: bool) -> Option<usize> {
    match last_turn(p, d) {
        None => None,
        Some(j) => Some(t.sub(p.subrange(0, j + 1))->idx),
    }
}

impl<K: OrderedKey, V> SplayTree<K, V> {
    /// Searches for the location of the entry with the provided key starting
    /// at the specified location, the top of the subtree `s` (linked below
    /// `par`). If such an entry exists, returns its slot; if not, the slot of
    /// the last node visited on the search path. Returns `None` only if the
    /// subtree is empty. The arena is only read.
    fn get_helper(
        nodes: &Vec<SplayNode<K, V>>,
        start: Option<usize>,
        key: &K,
        Ghost(s): Ghost<Shape<K, V>>,
        Ghost(par): Ghost<Option<usize>>,
    ) -> (r: Option<usize>)
        requires
            linked(nodes@, s, par),
            start == s.link(),
        ensures
            s is Leaf ==> r is None,
            s is Node ==> r == Some(s.sub(s.search_path(key.rank()))->idx),
    {
        let ghost rk = key.rank();
        let mut current_idx_opt = start;
        let mut last_visited_idx_opt: Option<usize> = None;
        let ghost mut p: Seq<bool> = Seq::empty();
        while current_idx_opt.is_some()
            invariant
                linked(nodes@, s, par),
                rk == key.rank(),
                s is Leaf ==> current_idx_opt is None && last_visited_idx_opt is None,
                current_idx_opt matches Some(c) ==> {
                    &&& s.sub(p) is Node
                    &&& s.sub(p)->idx == c
                    &&& s.search_path(rk) == p + s.sub(p).search_path(rk)
                },
                s is Node && current_idx_opt is None ==> last_visited_idx_opt == Some(
                    s.sub(s.search_path(rk))->idx,
                ),
            decreases
                match current_idx_opt {
                    Some(_) => s.sub(p).height(),
                    None => 0,
                },
        {
            let current_idx = current_idx_opt.unwrap();
            last_visited_idx_opt = Some(current_idx);
            let ghost node = s.sub(p);
            proof {
                lemma_linked_sub(nodes@, s, par, p);
                lemma_sub_snoc(s, p, false);
                lemma_sub_snoc(s, p, true);
            }
            let node_key = &nodes[current_idx].entry.key;
            let left_child = nodes[current_idx].left;
            let right_child = nodes[current_idx].right;

            match key.compare(node_key) {
                KeyOrder::Less => {
                    current_idx_opt = left_child;
                    proof {
                        if (*node->left) is Node {
                            assert(s.search_path(rk) =~= p.push(false) + node->left.search_path(rk));
                            p = p.push(false);
                        } else {
                            assert(s.search_path(rk) =~= p);
                        }
                    }
                },
                KeyOrder::Greater => {
                    current_idx_opt = right_child;
                    proof {
                        if (*node->right) is Node {
                            assert(s.search_path(rk) =~= p.push(true) + node->right.search_path(rk));
                            p = p.push(true);
                        } else {
                            assert(s.search_path(rk) =~= p);
                        }
                    }
                },
                KeyOrder::Equal => {
                    proof {
                        assert(s.search_path(rk) =~= p);
                    }
                    return Some(current_idx);
                },
            }
        }
        last_visited_idx_opt
    }

    /// Searches for the location of the entry with the largest key value in
    /// the subtree `s` at `start` (linked below `par`): the end of its right
    /// spine.
    fn max_helper(
        nodes: &Vec<SplayNode<K, V>>,
        start: Option<usize>,
        Ghost(s): Ghost<Shape<K, V>>,
        Ghost(par): Ghost<Option<usize>>,
    ) -> (r: Option<usize>)
        requires
            linked(nodes@, s, par),
            start == s.link(),
        ensures
            s is Leaf ==> r is None,
            s is Node ==> r == Some(s.sub(s.rightmost())->idx),
    {
        let mut current_idx_opt = start;
        let mut max_idx_opt: Option<usize> = None;
        let ghost mut q: Seq<bool> = Seq::empty();
        while current_idx_opt.is_some()
            invariant
                linked(nodes@, s, par),
                s is Leaf ==> current_idx_opt is None && max_idx_opt is None,
                current_idx_opt matches Some(c) ==> {
                    &&& s.sub(q) is Node
                    &&& s.sub(q)->idx == c
                    &&& s.rightmost() == q + s.sub(q).rightmost()
                },
                s is Node && current_idx_opt is None ==> max_idx_opt == Some(s.sub(s.rightmost())->idx),
            decreases
                match current_idx_opt {
                    Some(_) => s.sub(q).height(),
                    None => 0,
                },
        {
            let current_idx = current_idx_opt.unwrap();
            max_idx_opt = Some(current_idx);
            let ghost node = s.sub(q);
            proof {
                lemma_linked_sub(nodes@, s, par, q);
                lemma_sub_snoc(s, q, true);
            }
            current_idx_opt = nodes[current_idx].right;
            proof {
                if (*node->right) is Node {
                    assert(s.rightmost() =~= q.push(true) + node->right.rightmost());
                    q = q.push(true);
                } else {
                    assert(s.rightmost() =~= q);
                }
            }
        }
        max_idx_opt
    }

    /// Searches for the location of the entry with the smallest key value in
    /// the subtree `s` at `start` (linked below `par`): the end of its left
    /// spine.
    fn min_helper(
        nodes: &Vec<SplayNode<K, V>>,
        start: Option<usize>,
        Ghost(s): Ghost<Shape<K, V>>,
        Ghost(par): Ghost<Option<usize>>,
    ) -> (r: Option<usize>)
        requires
            linked(nodes@, s, par),
            start == s.link(),
        ensures
            s is Leaf ==> r is None,
            s is Node ==> r == Some(s.sub(s.leftmost())->idx),
    {
        let mut current_idx_opt = start;
        let mut min_idx_opt: Option<usize> = None;
        let ghost mut q: Seq<bool> = Seq::empty();
        while current_idx_opt.is_some()
            invariant
                linked(nodes@, s, par),
                s is Leaf ==> current_idx_opt is None && min_idx_opt is None,
                current_idx_opt matches Some(c) ==> {
                    &&& s.sub(q) is Node
                    &&& s.sub(q)->idx == c
                    &&& s.leftmost() == q + s.sub(q).leftmost()
                },
                s is Node && current_idx_opt is None ==> min_idx_opt == Some(s.sub(s.leftmost())->idx),
            decreases
                match current_idx_opt {
                    Some(_) => s.sub(q).height(),
                    None => 0,
                },
        {
            let current_idx = current_idx_opt.unwrap();
            min_idx_opt = Some(current_idx);
            let ghost node = s.sub(q);
            proof {
                lemma_linked_sub(nodes@, s, par, q);
                lemma_sub_snoc(s, q, false);
            }
            current_idx_opt = nodes[current_idx].left;
            proof {
                if (*node->left) is Node {
                    assert(s.leftmost() =~= q.push(false) + node->left.leftmost());
                    q = q.push(false);
                } else {
                    assert(s.leftmost() =~= q);
                }
            }
        }
        min_idx_opt
    }

    /// Is this node a left child or a right child of its parent?
    fn child_type(nodes: &Vec<SplayNode<K, V>>, cur: Option<usize>) -> (r: Option<ChildType>)
        requires
            cur is Some ==> cur.unwrap() < nodes@.len() && (nodes@[cur.unwrap() as int].parent is Some
                ==> nodes@[cur.unwrap() as int].parent.unwrap() < nodes@.len()),
        ensures
            r == child_type_of(nodes@, cur),
    {
        match cur {
            None => None,
            Some(cur_idx) => {
                match nodes[cur_idx].parent {
                    None => None,
                    Some(parent_idx) => {
                        if nodes[parent_idx].left == Some(cur_idx) {
                            Some(ChildType::Left)
                        } else if nodes[parent_idx].right == Some(cur_idx) {
                            Some(ChildType::Right)
                        } else {
                            None
                        }
                    },
                }
            },
        }
    }

    /// Searches for the lowest ancestor node that is a right child of its
    /// parent, starting with `start` itself; `lra` stands for lowest right
    /// ancestor. Its parent is the predecessor of `start` when `start` has no
    /// left child.
    fn lra(
        nodes: &Vec<SplayNode<K, V>>,
        start: Option<usize>,
        Ghost(t): Ghost<Shape<K, V>>,
        Ghost(p): Ghost<Seq<bool>>,
    ) -> (r: Option<usize>)
        requires
            linked(nodes@, t, None),
            t.distinct(),
            start is Some ==> t.sub(p) is Node && start == t.sub(p).link(),
        ensures
            start is None ==> r is None,
            start is Some ==> r == turn_node(t, p, true),
        decreases p.len(),
    {
        match start {
            None => None,
            Some(cur_idx) => {
                proof {
                    Self::lemma_turn_step(nodes@, t, p);
                }
                match Self::child_type(nodes, Some(cur_idx)) {
                    Some(ChildType::Left) => Self::lra(nodes, nodes[cur_idx].parent, Ghost(t), Ghost(p.drop_last())),
                    Some(ChildType::Right) => Some(cur_idx),
                    None => None,
                }
            },
        }
    }

    /// Searches for the lowest ancestor node that is a left child of its
    /// parent, starting with `start` itself; `lla` stands for lowest left
    /// ancestor. Its parent is the successor of `start` when `start` has no
    /// right child.
    #[allow(dead_code)]
    fn lla(
        nodes: &Vec<SplayNode<K, V>>,
        start: Option<usize>,
        Ghost(t): Ghost<Shape<K, V>>,
        Ghost(p): Ghost<Seq<bool>>,
    ) -> (r: Option<usize>)
        requires
            linked(nodes@, t, None),
            t.distinct(),
            start is Some ==> t.sub(p) is Node && start == t.sub(p).link(),
        ensures
            start is None ==> r is None,
            start is Some ==> r == turn_node(t, p, false),
        decreases p.len(),
    {
        match start {
            None => None,
            Some(cur_idx) => {
                proof {
                    Self::lemma_turn_step(nodes@, t, p);
                }
                match Self::child_type(nodes, Some(cur_idx)) {
                    Some(ChildType::Right) => Self::lla(nodes, nodes[cur_idx].parent, Ghost(t), Ghost(p.drop_last())),
                    Some(ChildType::Left) => Some(cur_idx),
                    None => None,
                }
            },
        }
    }

    /// One step of `lra` and `lla`: at the top no turn is left; a step in
    /// direction `d` is the last turn in that direction; any other step
    /// leaves the lowest turn to the parent.
    proof fn lemma_turn_step(nodes: Seq<SplayNode<K, V>>, t: Shape<K, V>, p: Seq<bool>)
        requires
            linked(nodes, t, None),
            t.distinct(),
            t.sub(p) is Node,
        ensures
            t.sub(p)->idx < nodes.len(),
            p.len() == 0 ==> child_type_of(nodes, Some(t.sub(p)->idx)) is None,
            p.len() > 0 ==> t.sub(p.drop_last())->idx < nodes.len(),
            p.len() > 0 && p.last() ==> child_type_of(nodes, Some(t.sub(p)->idx)) == Some(ChildType::Right),
            p.len() > 0 && !p.last() ==> child_type_of(nodes, Some(t.sub(p)->idx)) == Some(ChildType::Left),
            p.len() == 0 ==> turn_node(t, p, true) is None && turn_node(t, p, false) is None,
            p.len() > 0 ==> nodes[t.sub(p)->idx as int].parent == Some(t.sub(p.drop_last())->idx),
            p.len() > 0 ==> t.sub(p.drop_last()) is Node,
            p.len() > 0 ==> turn_node(t, p, p.last()) == Some(t.sub(p)->idx),
            p.len() > 0 ==> turn_node(t, p, !p.last()) == turn_node(t, p.drop_last(), !p.last()),
    {
        lemma_linked_sub(nodes, t, None, p);
        if p.len() > 0 {
            lemma_parent_facts(nodes, t, p);
            assert(p.subrange(0, p.len() - 1 + 1) =~= p);
            let d = !p.last();
            lemma_last_turn_bound(p.drop_last(), d);
            if let Some(j) = last_turn(p.drop_last(), d) {
                assert(p.subrange(0, j + 1) =~= p.drop_last().subrange(0, j + 1));
            }
        }
    }
}

} // verus!

verus! {

/// After splaying the node where a search for `k` stopped: the root is the
/// predecessor of `k` if it lies below `k`; otherwise the predecessor, if any,
/// is the largest key of the left subtree.
proof fn lemma_pred_at_root<K: OrderedKey, V>(t: Shape<K, V>, k: K)
    requires
        t is Node,
        t.ordered(None, None),
        adjacent(t.to_map(), t->key, k),
        forall|x: K| #[trigger] t.to_map().dom().contains(x) && x.rank() == k.rank() ==> t->key.rank()
            == k.rank(),
    ensures
        t->key.rank() < k.rank() ==> is_predecessor(t.to_map(), k, t->key),
        t->key.rank() >= k.rank() && (*t->left) is Leaf ==> forall|x: K| #[trigger]
            t.to_map().dom().contains(x) ==> x.rank() >= k.rank(),
        t->key.rank() >= k.rank() && (*t->left) is Node ==> {
            let m = t->left.sub(t->left.rightmost());
            &&& is_predecessor(t.to_map(), k, m->key)
            &&& t.to_map()[m->key] == m->value
        },
{
    let l = *t->left;
    let s = t->key;
    lemma_node_split(t, None, None);
    if s.rank() >= k.rank() {
        if l is Leaf {
            lemma_empty_iff_leaf(l);
        } else {
            assert(l.ordered(None, Some(s.rank())));
            lemma_rightmost(l, None, Some(s.rank()));
            let m = l.sub(l.rightmost());
            assert(t.to_map().dom().contains(m->key));
            if m->key.rank() >= k.rank() {
                assert(m->key.rank() < s.rank());
                assert(t.to_map().dom().contains(m->key));
                if m->key.rank() == k.rank() {
                    assert(s.rank() == k.rank());
                }
                assert(strictly_between(s.rank(), k.rank(), m->key.rank()));
            }
        }
    }
}

/// The mirror image of `lemma_pred_at_root` for successors.
proof fn lemma_succ_at_root<K: OrderedKey, V>(t: Shape<K, V>, k: K)
    requires
        t is Node,
        t.ordered(None, None),
        adjacent(t.to_map(), t->key, k),
        forall|x: K| #[trigger] t.to_map().dom().contains(x) && x.rank() == k.rank() ==> t->key.rank()
            == k.rank(),
    ensures
        t->key.rank() > k.rank() ==> is_successor(t.to_map(), k, t->key),
        t->key.rank() <= k.rank() && (*t->right) is Leaf ==> forall|x: K| #[trigger]
            t.to_map().dom().contains(x) ==> x.rank() <= k.rank(),
        t->key.rank() <= k.rank() && (*t->right) is Node ==> {
            let m = t->right.sub(t->right.leftmost());
            &&& is_successor(t.to_map(), k, m->key)
            &&& t.to_map()[m->key] == m->value
        },
{
    let r = *t->right;
    let s = t->key;
    lemma_node_split(t, None, None);
    if s.rank() <= k.rank() {
        if r is Leaf {
            lemma_empty_iff_leaf(r);
        } else {
            assert(r.ordered(Some(s.rank()), None));
            lemma_leftmost(r, Some(s.rank()), None);
            let m = r.sub(r.leftmost());
            assert(t.to_map().dom().contains(m->key));
            if m->key.rank() <= k.rank() {
                assert(m->key.rank() > s.rank());
                if m->key.rank() == k.rank() {
                    assert(s.rank() == k.rank());
                }
                assert(strictly_between(s.rank(), k.rank(), m->key.rank()));
            }
        }
    }
}

impl<K, V> View for SplayTree<K, V> {
    type V = Map<K, V>;

    /// The entries of the tree, by key.
    closed spec fn view(&self) -> Map<K, V> {
        self.shape@.to_map()
    }
}

impl<K: OrderedKey, V> SplayTree<K, V> {
    /// The arena holds the shape, and the root field names its top node.
    pub closed spec fn wf(&self) -> bool {
        match self.elements {
            None => self.root is None && self.shape@ is Leaf,
            Some(nodes) => tree_ok(nodes@, self.shape@) && self.root == self.shape@.link(),
        }
    }

    /// The key at the root, if the tree is not empty.
    pub closed spec fn root_key(&self) -> Option<K> {
        match self.shape@ {
            Shape::Leaf => None,
            Shape::Node { key, .. } => Some(key),
        }
    }

    /// The shape of the tree: its nodes with their arena slots, keys and values.
    pub closed spec fn structure(&self) -> Shape<K, V> {
        self.shape@
    }

    /// The arena: every node ever allocated, linked or not.
    pub closed spec fn arena(&self) -> Seq<SplayNode<K, V>> {
        match self.elements {
            None => Seq::empty(),
            Some(nodes) => nodes@,
        }
    }

    /// The arena has been allocated.
    pub closed spec fn allocated(&self) -> bool {
        self.elements is Some
    }

    /// What a well-formed tree is: the arena holds its structure, with the
    /// root parentless; no slot is used twice; the keys are in search-tree
    /// order; the entries are those of the structure; the root key is the key
    /// at the top of the structure.
    pub proof fn lemma_well_formed(&self)
        requires
            self.wf(),
        ensures
            holds(self.arena(), self.structure(), None),
            self.structure().distinct(),
            self.structure().ordered(None, None),
            self@ == self.structure().to_map(),
            self.structure() is Leaf ==> self.root_key() is None,
            self.structure() is Node ==> self.root_key() == Some(self.structure()->key),
            !self.allocated() ==> self.structure() is Leaf,
    {
        if self.elements is Some {
            lemma_linked_holds(self.arena(), self.structure(), None);
        }
    }

    /// Create a new, empty splay tree. No arena is allocated yet.
    pub fn new() -> (tree: Self)
        ensures
            tree.wf(),
            tree@ == Map::<K, V>::empty(),
            tree.root_key() is None,
            !tree.allocated(),
            tree.arena().len() == 0,
    {
        let tree = SplayTree { elements: None, root: None, shape: Ghost(Shape::Leaf) };
        proof {
            lemma_empty_iff_leaf(tree.shape@);
        }
        tree
    }

    /// Whether the arena has been allocated (by a first insertion).
    pub fn is_allocated(&self) -> (b: bool)
        ensures
            b == self.allocated(),
    {
        self.elements.is_some()
    }

    /// The number of nodes in the arena, linked or not.
    pub fn arena_len(&self) -> (n: usize)
        ensures
            n == self.arena().len(),
    {
        match &self.elements {
            None => 0,
            Some(nodes) => nodes.len(),
        }
    }

    /// The slot of the root; it holds the root key and its value.
    pub fn root_index(&self) -> (r: Option<usize>)
        requires
            self.wf(),
        ensures
            r == self.structure().link(),
            r is Some <==> self.root_key() is Some,
            r matches Some(i) ==> i < self.arena().len() && self.arena()[i as int]@.0 == (
                self.root_key()->0,
                self@[self.root_key()->0],
            ),
            r matches Some(i) ==> self.arena()[i as int]@.3 is None,
    {
        proof {
            if self.shape@ is Node {
                lemma_top_entry(self.shape@);
                assert(linked(self.arena(), self.shape@, None));
            }
        }
        self.root
    }

    /// The node in slot `idx`, if the arena has such a slot.
    pub fn node_at(&self, idx: usize) -> (r: Option<&SplayNode<K, V>>)
        ensures
            idx < self.arena().len() ==> r == Some(&self.arena()[idx as int]),
            idx >= self.arena().len() ==> r is None,
    {
        match &self.elements {
            None => None,
            Some(nodes) => if idx < nodes.len() {
                Some(&nodes[idx])
            } else {
                None
            },
        }
    }
}


/// Read operations. They do not change the entries, but splay the node they
/// reach to the root.
impl<K: OrderedKey, V> SplayTree<K, V> {
    /// Retrieves the entry with the provided key, if it exists in the tree,
    /// and splays its node to the root. When the key is absent, the node of
    /// the largest key below it is splayed to the root instead, or, with no
    /// such key, the node of the smallest key.
    pub fn get(&mut self, k: K) -> (r: Option<&Entry<K, V>>)
        requires
            old(self).wf(),
        ensures
            final(self).wf(),
            final(self)@ == old(self)@,
            r matches Some(e) ==> old(self)@.dom().contains(k) && e@ == (k, old(self)@[k]),
            r is None ==> !old(self)@.dom().contains(k),
            old(self)@.dom().contains(k) ==> final(self).root_key() == Some(k),
            !old(self)@.dom().contains(k) && (exists|x: K| #[trigger] old(self)@.dom().contains(x) && x.rank()
                < k.rank()) ==> (final(self).root_key() matches Some(p) && is_predecessor(old(self)@, k, p)),
            !old(self)@.dom().contains(k) && !(exists|x: K| #[trigger] old(self)@.dom().contains(x)
                && x.rank() < k.rank()) ==> (final(self).root_key() matches Some(s) ==> is_min(old(self)@, s)),
            (final(self).root_key() is None) == (old(self)@ == Map::<K, V>::empty()),
            final(self).structure() == lookup_shape(old(self).structure(), k),
            final(self).arena().len() == old(self).arena().len(),
            final(self).allocated() == old(self).allocated(),
    {
        proof {
            lemma_empty_iff_leaf(self.shape@);
        }
        if self.elements.is_none() || self.root.is_none() {
            return None;
        }
        let ghost t = self.shape@;
        let ghost rk = k.rank();
        let ghost sp = t.search_path(rk);
        let ghost lp = lookup_path(t, rk);
        let idx_to_splay_opt = Self::get_helper(
            self.elements.as_ref().unwrap(),
            self.root,
            &k,
            Ghost(t),
            Ghost(None),
        );
        if let Some(stop_idx) = idx_to_splay_opt {
            let nodes = self.elements.as_ref().unwrap();
            proof {
                lemma_search_stop(t, rk, None, None);
                lemma_linked_sub(nodes@, t, None, sp);
                if t.sub(sp)->key.rank() > rk {
                    lemma_search_below(t, rk, None, None);
                }
            }
            // A search that stops above the key left the largest key below
            // it at its last step to the right: that node is the parent of
            // the lowest right child on the way down.
            let idx_to_splay = if nodes[stop_idx].key().compare(&k) == KeyOrder::Greater {
                match Self::lra(nodes, Some(stop_idx), Ghost(t), Ghost(sp)) {
                    Some(right_child) => {
                        proof {
                            let j = last_turn(sp, true)->0;
                            lemma_last_turn_bound(sp, true);
                            let a = sp.subrange(0, j + 1);
                            let b = sp.subrange(j + 1, sp.len() as int);
                            assert(sp =~= a + b);
                            crate::shape::lemma_sub_append(t, a, b);
                            if t.sub(a) is Leaf {
                                crate::shape::lemma_sub_leaf::<K, V>(b);
                            }
                            lemma_parent_facts(nodes@, t, a);
                            lemma_linked_sub(nodes@, t, None, a);
                            assert(a.drop_last() =~= sp.subrange(0, j));
                        }
                        nodes[right_child].parent.unwrap()
                    },
                    None => stop_idx,
                }
            } else {
                stop_idx
            };
            let t2 = self.splay(idx_to_splay, Ghost(t), Ghost(lp));
            self.shape = t2;
            let current_nodes = self.elements.as_ref().unwrap();
            let current_root_idx = self.root.unwrap();
            proof {
                lemma_empty_iff_leaf(t2@);
                lemma_top_entry(t2@);
                assert(linked(current_nodes@, t2@, None));
                if t.to_map().dom().contains(k) {
                    assert(t2@->key.rank() == k.rank());
                    K::lemma_rank_injective(t2@->key, k);
                } else {
                    if t.sub(sp)->key.rank() == rk {
                        K::lemma_rank_injective(t.sub(sp)->key, k);
                    }
                    if t.sub(sp)->key.rank() < rk {
                        assert(is_predecessor(t.to_map(), k, t.sub(sp)->key));
                    }
                }
            }
            if current_nodes[current_root_idx].key().compare(&k) == KeyOrder::Equal {
                proof {
                    K::lemma_rank_injective(t2@->key, k);
                }
                Some(&current_nodes[current_root_idx].entry)
            } else {
                None
            }
        } else {
            None
        }
    }

    /// Retrieves the entry with the largest key in the tree, and splays it
    /// to the root.
    pub fn max(&mut self) -> (r: Option<&Entry<K, V>>)
        requires
            old(self).wf(),
        ensures
            final(self).wf(),
            final(self)@ == old(self)@,
            r is None <==> old(self)@ == Map::<K, V>::empty(),
            r matches Some(e) ==> is_max(old(self)@, e@.0) && e@.1 == old(self)@[e@.0]
                && final(self).root_key() == Some(e@.0),
            r is None ==> final(self).root_key() is None,
            final(self).structure() == old(self).structure().splay_at(old(self).structure().rightmost()),
            final(self).arena().len() == old(self).arena().len(),
            final(self).allocated() == old(self).allocated(),
    {
        proof {
            lemma_empty_iff_leaf(self.shape@);
        }
        if self.elements.is_none() || self.root.is_none() {
            return None;
        }
        let ghost t = self.shape@;
        proof {
            assert(t.sub(Seq::<bool>::empty()) == t);
            assert(Seq::<bool>::empty() + t.rightmost() =~= t.rightmost());
            lemma_rightmost(t, None, None);
        }
        match Self::max_helper(
            self.elements.as_ref().unwrap(),
            self.root,
            Ghost(t),
            Ghost(None),
        ) {
            Some(max_idx) => {
                let t2 = self.splay(max_idx, Ghost(t), Ghost(t.rightmost()));
                self.shape = t2;
                proof {
                    lemma_top_entry(t2@);
                    assert(linked(self.elements.unwrap()@, t2@, None));
                }
                Some(&self.elements.as_ref().unwrap()[self.root.unwrap()].entry)
            },
            None => None,
        }
    }

    /// Retrieves the entry with the smallest key in the tree, and splays it
    /// to the root.
    pub fn min(&mut self) -> (r: Option<&Entry<K, V>>)
        requires
            old(self).wf(),
        ensures
            final(self).wf(),
            final(self)@ == old(self)@,
            r is None <==> old(self)@ == Map::<K, V>::empty(),
            r matches Some(e) ==> is_min(old(self)@, e@.0) && e@.1 == old(self)@[e@.0]
                && final(self).root_key() == Some(e@.0),
            r is None ==> final(self).root_key() is None,
            final(self).structure() == old(self).structure().splay_at(old(self).structure().leftmost()),
            final(self).arena().len() == old(self).arena().len(),
            final(self).allocated() == old(self).allocated(),
    {
        proof {
            lemma_empty_iff_leaf(self.shape@);
        }
        if self.elements.is_none() || self.root.is_none() {
            return None;
        }
        let ghost t = self.shape@;
        proof {
            assert(t.sub(Seq::<bool>::empty()) == t);
            assert(Seq::<bool>::empty() + t.leftmost() =~= t.leftmost());
            lemma_leftmost(t, None, None);
        }
        match Self::min_helper(
            self.elements.as_ref().unwrap(),
            self.root,
            Ghost(t),
            Ghost(None),
        ) {
            Some(min_idx) => {
                let t2 = self.splay(min_idx, Ghost(t), Ghost(t.leftmost()));
                self.shape = t2;
                proof {
                    lemma_top_entry(t2@);
                    assert(linked(self.elements.unwrap()@, t2@, None));
                }
                Some(&self.elements.as_ref().unwrap()[self.root.unwrap()].entry)
            },
            None => None,
        }
    }
}


/// Neighbour queries.
impl<K: OrderedKey, V> SplayTree<K, V> {
    /// Retrieves the entry with the largest key smaller than the provided
    /// key, if it exists, and splays it to the root. None exists when the
    /// given key is at most the smallest key of the tree.
    pub fn pred(&mut self, k: K) -> (r: Option<&Entry<K, V>>)
        requires
            old(self).wf(),
        ensures
            final(self).wf(),
            final(self)@ == old(self)@,
            r matches Some(e) ==> is_predecessor(old(self)@, k, e@.0) && e@.1 == old(self)@[e@.0]
                && final(self).root_key() == Some(e@.0),
            r is None ==> forall|x: K| #[trigger] old(self)@.dom().contains(x) ==> x.rank() >= k.rank(),
            r is None ==> (final(self).root_key() matches Some(s) ==> adjacent(old(self)@, s, k)),
            (final(self).root_key() is None) == (old(self)@ == Map::<K, V>::empty()),
            final(self).structure() == pred_shape(old(self).structure(), k),
            final(self).arena().len() == old(self).arena().len(),
            final(self).allocated() == old(self).allocated(),
    {
        proof {
            lemma_empty_iff_leaf(self.shape@);
        }
        if self.elements.is_none() || self.root.is_none() {
            return None;
        }
        let ghost t = self.shape@;
        let ghost sp = t.search_path(k.rank());
        let idx_from_get_helper_opt = Self::get_helper(
            self.elements.as_ref().unwrap(),
            self.root,
            &k,
            Ghost(t),
            Ghost(None),
        );
        if let Some(idx_from_get_helper) = idx_from_get_helper_opt {
            proof {
                lemma_search_stop(t, k.rank(), None, None);
            }
            let t2 = self.splay(idx_from_get_helper, Ghost(t), Ghost(sp));
            self.shape = t2;
            let ghost tt = t2@;
            let nodes_after_splay = self.elements.as_ref().unwrap();
            let current_root_idx = self.root.unwrap();
            proof {
                lemma_empty_iff_leaf(tt);
                lemma_top_entry(tt);
                assert(linked(nodes_after_splay@, tt, None));
                assert forall|x: K| #[trigger]
                    tt.to_map().dom().contains(x) && x.rank() == k.rank() implies tt->key.rank()
                    == k.rank() by {
                    assert(t.to_map().dom().contains(x));
                }
                lemma_pred_at_root(tt, k);
                assert(tt.sub(seq![false]) == *tt->left) by {
                    crate::shape::lemma_sub_cons(tt, false, Seq::<bool>::empty());
                    assert(seq![false] + Seq::<bool>::empty() =~= seq![false]);
                }
                if (*tt->left) is Node {
                    let l = *tt->left;
                    crate::shape::lemma_sub_append(tt, seq![false], l.rightmost());
                    assert(l.ordered(None, Some(tt->key.rank())));
                    lemma_rightmost(l, None, Some(tt->key.rank()));
                    lemma_node_idxs(tt);
                    lemma_sub_idxs(l, l.rightmost());
                    assert(tt.distinct());
                }
            }
            let root_key_ref = nodes_after_splay[current_root_idx].key();
            let pred_idx_opt = if root_key_ref.compare(&k) == KeyOrder::Less {
                Some(current_root_idx)
            } else {
                Self::max_helper(
                    nodes_after_splay,
                    nodes_after_splay[current_root_idx].left,
                    Ghost(*tt->left),
                    Ghost(Some(current_root_idx)),
                )
            };
            match pred_idx_opt {
                Some(pred_idx) => {
                    if pred_idx == current_root_idx && nodes_after_splay[pred_idx].key().compare(&k)
                        != KeyOrder::Less {
                        return None;
                    }
                    let ghost path = if tt->key.rank() < k.rank() {
                        Seq::<bool>::empty()
                    } else {
                        seq![false] + tt->left.rightmost()
                    };
                    proof {
                        if tt->key.rank() >= k.rank() {
                            let l = *tt->left;
                            lemma_node_idxs(tt);
                            lemma_sub_idxs(l, l.rightmost());
                        }
                    }
                    let t3 = self.splay(pred_idx, Ghost(tt), Ghost(path));
                    self.shape = t3;
                    proof {
                        lemma_top_entry(t3@);
                        assert(linked(self.elements.unwrap()@, t3@, None));
                    }
                    Some(&self.elements.as_ref().unwrap()[self.root.unwrap()].entry)
                },
                None => None,
            }
        } else {
            None
        }
    }

    /// Retrieves the entry with the smallest key larger than the provided
    /// key, if it exists, and splays it to the root. None exists when the
    /// given key is at least the largest key of the tree.
    pub fn successor(&mut self, k: K) -> (r: Option<&Entry<K, V>>)
        requires
            old(self).wf(),
        ensures
            final(self).wf(),
            final(self)@ == old(self)@,
            r matches Some(e) ==> is_successor(old(self)@, k, e@.0) && e@.1 == old(self)@[e@.0]
                && final(self).root_key() == Some(e@.0),
            r is None ==> forall|x: K| #[trigger] old(self)@.dom().contains(x) ==> x.rank() <= k.rank(),
            r is None ==> (final(self).root_key() matches Some(s) ==> adjacent(old(self)@, s, k)),
            (final(self).root_key() is None) == (old(self)@ == Map::<K, V>::empty()),
            final(self).structure() == succ_shape(old(self).structure(), k),
            final(self).arena().len() == old(self).arena().len(),
            final(self).allocated() == old(self).allocated(),
    {
        proof {
            lemma_empty_iff_leaf(self.shape@);
        }
        if self.elements.is_none() || self.root.is_none() {
            return None;
        }
        let ghost t = self.shape@;
        let ghost sp = t.search_path(k.rank());
        let idx_from_get_helper_opt = Self::get_helper(
            self.elements.as_ref().unwrap(),
            self.root,
            &k,
            Ghost(t),
            Ghost(None),
        );
        if let Some(idx_from_get_helper) = idx_from_get_helper_opt {
            proof {
                lemma_search_stop(t, k.rank(), None, None);
            }
            let t2 = self.splay(idx_from_get_helper, Ghost(t), Ghost(sp));
            self.shape = t2;
            let ghost tt = t2@;
            let nodes_after_splay = self.elements.as_ref().unwrap();
            let current_root_idx = self.root.unwrap();
            proof {
                lemma_empty_iff_leaf(tt);
                lemma_top_entry(tt);
                assert(linked(nodes_after_splay@, tt, None));
                assert forall|x: K| #[trigger]
                    tt.to_map().dom().contains(x) && x.rank() == k.rank() implies tt->key.rank()
                    == k.rank() by {
                    assert(t.to_map().dom().contains(x));
                }
                lemma_succ_at_root(tt, k);
                assert(tt.sub(seq![true]) == *tt->right) by {
                    crate::shape::lemma_sub_cons(tt, true, Seq::<bool>::empty());
                    assert(seq![true] + Seq::<bool>::empty() =~= seq![true]);
                }
                if (*tt->right) is Node {
                    let r = *tt->right;
                    crate::shape::lemma_sub_append(tt, seq![true], r.leftmost());
                    assert(r.ordered(Some(tt->key.rank()), None));
                    lemma_leftmost(r, Some(tt->key.rank()), None);
                    lemma_node_idxs(tt);
                    lemma_sub_idxs(r, r.leftmost());
                    assert(tt.distinct());
                }
            }
            let root_key_ref = nodes_after_splay[current_root_idx].key();
            let succ_idx_opt = if root_key_ref.compare(&k) == KeyOrder::Greater {
                Some(current_root_idx)
            } else {
                Self::min_helper(
                    nodes_after_splay,
                    nodes_after_splay[current_root_idx].right,
                    Ghost(*tt->right),
                    Ghost(Some(current_root_idx)),
                )
            };
            match succ_idx_opt {
                Some(succ_idx) => {
                    if succ_idx == current_root_idx && nodes_after_splay[succ_idx].key().compare(&k)
                        != KeyOrder::Greater {
                        return None;
                    }
                    let ghost path = if tt->key.rank() > k.rank() {
                        Seq::<bool>::empty()
                    } else {
                        seq![true] + tt->right.leftmost()
                    };
                    proof {
                        if tt->key.rank() <= k.rank() {
                            let r = *tt->right;
                            lemma_node_idxs(tt);
                            lemma_sub_idxs(r, r.leftmost());
                        }
                    }
                    let t3 = self.splay(succ_idx, Ghost(tt), Ghost(path));
                    self.shape = t3;
                    proof {
                        lemma_top_entry(t3@);
                        assert(linked(self.elements.unwrap()@, t3@, None));
                    }
                    Some(&self.elements.as_ref().unwrap()[self.root.unwrap()].entry)
                },
                None => None,
            }
        } else {
            None
        }
    }
}


/// Write operations. They change the structure of the tree.
impl<K: OrderedKey, V: Clone> SplayTree<K, V> {
    /// Adds a new entry into the splay tree. If the key already exists, its
    /// value is updated. The inserted or updated node is splayed to the root.
    pub fn insert(&mut self, e: Entry<K, V>) -> (r: Option<&Entry<K, V>>)
        requires
            old(self).wf(),
        ensures
            final(self).wf(),
            final(self)@ == old(self)@.insert(e@.0, e@.1),
            r matches Some(x) && x@ == e@,
            final(self).root_key() == Some(e@.0),
            final(self).structure() == insert_shape(
                old(self).structure(),
                e@.0,
                e@.1,
                old(self).arena().len() as usize,
            ),
            final(self).arena().len() == old(self).arena().len() + if old(self)@.dom().contains(e@.0) {
                0int
            } else {
                1int
            },
            final(self).allocated(),
    {
        let ghost ev = e@;
        if self.elements.is_none() {
            self.elements = Some(Vec::new());
        }
        if self.root.is_none() {
            // The tree is empty: the new node becomes the root.
            let mut nodes = self.elements.take().unwrap();
            let ghost n0 = nodes@;
            let new_node = SplayNode::new(e);
            nodes.push(new_node);
            let new_node_idx = nodes.len() - 1;
            self.root = Some(new_node_idx);
            self.elements = Some(nodes);
            self.shape = Ghost(
                Shape::Node {
                    left: Box::new(Shape::Leaf),
                    idx: new_node_idx,
                    key: ev.0,
                    value: ev.1,
                    right: Box::new(Shape::Leaf),
                },
            );
            proof {
                let t = self.shape@;
                assert(Shape::<K, V>::Leaf.idxs() =~= Set::<usize>::empty());
                assert(Shape::<K, V>::Leaf.to_map() =~= Map::<K, V>::empty());
                assert(t.idxs() =~= set![new_node_idx]);
                assert(t.to_map() =~= Map::<K, V>::empty().insert(ev.0, ev.1));
                assert(linked(self.elements.unwrap()@, Shape::<K, V>::Leaf, Some(new_node_idx)));
                assert(Shape::<K, V>::Leaf.ordered(None, Some(ev.0.rank())));
                assert(Shape::<K, V>::Leaf.ordered(Some(ev.0.rank()), None));
                assert(linked(self.elements.unwrap()@, t, None));
                assert(Shape::<K, V>::Leaf.distinct());
                assert(t.distinct());
                assert(t.ordered(None, None));
            }
            return Some(&self.elements.as_ref().unwrap()[self.root.unwrap()].entry);
        }
        // The tree is not empty.

        let ghost t = self.shape@;
        let ghost rk = e.key.rank();
        let mut current_idx = self.root.unwrap();
        let mut parent_idx_for_search_phase = current_idx;
        let ghost mut p: Seq<bool> = Seq::empty();
        proof {
            assert(t.search_path(rk) =~= p + t.sub(p).search_path(rk));
        }
        // Phase 1: find the insertion point or the existing node.
        loop
            invariant
                self.wf(),
                self.shape@ == t,
                self.elements is Some,
                rk == e.key.rank(),
                t.sub(p) is Node,
                t.sub(p)->idx == current_idx,
                t.search_path(rk) == p + t.sub(p).search_path(rk),
            ensures
                parent_idx_for_search_phase == t.sub(t.search_path(rk))->idx,
            decreases t.sub(p).height(),
        {
            let nodes_ro = self.elements.as_ref().unwrap();
            let ghost node = t.sub(p);
            proof {
                lemma_linked_sub(nodes_ro@, t, None, p);
                lemma_sub_snoc(t, p, false);
                lemma_sub_snoc(t, p, true);
            }
            let current_node_key_ref = nodes_ro[current_idx].key();
            parent_idx_for_search_phase = current_idx;

            match e.key.compare(current_node_key_ref) {
                KeyOrder::Less => {
                    if let Some(left_child_idx) = nodes_ro[current_idx].left {
                        current_idx = left_child_idx;
                        proof {
                            assert(t.search_path(rk) =~= p.push(false) + node->left.search_path(rk));
                            p = p.push(false);
                        }
                    } else {
                        proof {
                            assert(t.search_path(rk) =~= p);
                        }
                        break ;
                    }
                },
                KeyOrder::Greater => {
                    if let Some(right_child_idx) = nodes_ro[current_idx].right {
                        current_idx = right_child_idx;
                        proof {
                            assert(t.search_path(rk) =~= p.push(true) + node->right.search_path(rk));
                            p = p.push(true);
                        }
                    } else {
                        proof {
                            assert(t.search_path(rk) =~= p);
                        }
                        break ;
                    }
                },
                KeyOrder::Equal => {
                    proof {
                        assert(t.search_path(rk) =~= p);
                    }
                    break ;
                },
            }
        }

        // Phase 2: modify the tree and determine the node to splay.
        let ghost sp = t.search_path(rk);
        let ghost stop = t.sub(sp);
        let ghost mut t2 = t;
        let ghost mut path2 = sp;
        let idx_to_splay;
        let mut nodes = self.elements.take().unwrap();
        let ghost n0 = nodes@;
        proof {
            lemma_search_stop(t, rk, None, None);
            lemma_linked_sub(n0, t, None, sp);
            lemma_linked_idxs(n0, t, None);
            lemma_sub_idxs(t, sp);
            lemma_sub_ordered(t, sp, None, None);
            lemma_node_idxs(stop);
            if sp.len() > 0 {
                lemma_parent_facts(n0, t, sp);
                lemma_sub_prefix_node(t, sp);
            }
        }
        let pi = parent_idx_for_search_phase;
        let order = e.key.compare(nodes[pi].key());
        if order == KeyOrder::Equal {
            // The key exists: update its value.
            nodes[pi].entry.value = e.value;
            idx_to_splay = pi;
            proof {
                K::lemma_rank_injective(stop->key, ev.0);
                let n2 = nodes@;
                let s2 = Shape::Node {
                    left: stop->left,
                    idx: pi,
                    key: stop->key,
                    value: ev.1,
                    right: stop->right,
                };
                assert(stop.distinct());
                lemma_linked_frame(n0, n2, *stop->left, Some(pi));
                lemma_linked_frame(n0, n2, *stop->right, Some(pi));
                assert(linked(n2, s2, t.parent_at(sp, None)));
                lemma_linked_replace(n0, n2, t, None, sp, s2);
                let bd = t.bounds_at(sp, None, None);
                assert(s2.ordered(bd.0, bd.1));
                assert(Shape::<K, V>::Leaf.distinct());
                assert(s2.distinct());
                lemma_replace_ordered(t, sp, s2, None, None);
                assert(s2.idxs() =~= stop.idxs());
                lemma_replace_idxs(t, sp, s2);
                assert(s2.to_map() =~= stop.to_map().insert(ev.0, ev.1));
                lemma_replace_insert_map(t, sp, s2, ev.0, ev.1, None, None);
                lemma_sub_replace(t, sp, s2);
                t2 = t.replace(sp, s2);
                path2 = sp;
            }
        } else {
            // The key is new: hang a new node below the node where the search stopped.
            let ghost d = order == KeyOrder::Greater;
            let new_splay_node = SplayNode::new(e);
            nodes.push(new_splay_node);
            let new_node_idx = nodes.len() - 1;
            nodes[new_node_idx].parent = Some(pi);

            if order == KeyOrder::Less {
                nodes[pi].left = Some(new_node_idx);
            } else {
                nodes[pi].right = Some(new_node_idx);
            }
            idx_to_splay = new_node_idx;
            proof {
                lemma_search_gap(t, rk, None, None);
                let n2 = nodes@;
                let q = sp.push(d);
                let s2 = Shape::Node {
                    left: Box::new(Shape::Leaf),
                    idx: new_node_idx,
                    key: ev.0,
                    value: ev.1,
                    right: Box::new(Shape::Leaf),
                };
                assert(q.drop_last() =~= sp);
                assert(q.last() == d);
                lemma_parent_at_snoc(t, sp, d, None);
                assert(!t.idxs().contains(new_node_idx));
                assert(Shape::<K, V>::Leaf.idxs() =~= Set::<usize>::empty());
                assert(Shape::<K, V>::Leaf.to_map() =~= Map::<K, V>::empty());
                assert(Shape::<K, V>::Leaf.ordered(None, None));
                assert(new_node_idx < n2.len());
                assert(pi < n0.len());
                assert(n2[new_node_idx as int].parent == Some(pi));
                assert(n2[new_node_idx as int].left is None);
                assert(n2[new_node_idx as int].right is None);
                assert(n2[new_node_idx as int].entry@ == ev);
                assert(n2[new_node_idx as int].entry == (Entry { key: ev.0, value: ev.1 }));
                assert(t.parent_at(q, None) == Some(pi));
                assert(linked(n2, Shape::<K, V>::Leaf, Some(new_node_idx)));
                assert(linked(n2, s2, t.parent_at(q, None)));
                let bd = t.bounds_at(q, None, None);
                assert(Shape::<K, V>::Leaf.ordered(bd.0, Some(ev.0.rank())));
                assert(Shape::<K, V>::Leaf.ordered(Some(ev.0.rank()), bd.1));
                assert(s2.ordered(bd.0, bd.1));
                assert(Shape::<K, V>::Leaf.distinct());
                assert(s2.distinct());
                assert(t.sub(q).idxs() =~= Set::<usize>::empty());
                lemma_linked_replace(n0, n2, t, None, q, s2);
                lemma_replace_ordered(t, q, s2, None, None);
                assert(s2.idxs() =~= set![new_node_idx]);
                lemma_replace_idxs(t, q, s2);
                assert(t.sub(q).to_map() =~= Map::<K, V>::empty());
                assert(s2.to_map() =~= t.sub(q).to_map().insert(ev.0, ev.1));
                lemma_replace_insert_map(t, q, s2, ev.0, ev.1, None, None);
                lemma_sub_replace(t, q, s2);
                t2 = t.replace(q, s2);
                path2 = q;
            }
        }
        self.elements = Some(nodes);
        let t3 = self.splay(idx_to_splay, Ghost(t2), Ghost(path2));
        self.shape = t3;
        proof {
            lemma_top_entry(t3@);
            assert(linked(self.elements.unwrap()@, t3@, None));
        }
        Some(&self.elements.as_ref().unwrap()[self.root.unwrap()].entry)
    }

    /// Removes the entry with the provided key from the splay tree, and
    /// returns a copy of it. The node where the search stops is splayed to the
    /// root first. When the key is found there, its left subtree takes its
    /// place: the largest key of that subtree rises by zig-zig steps while it
    /// has a grandparent, which leaves it at the root or as the root's right
    /// child, and the right subtree becomes its right child. With no left
    /// subtree, the right subtree takes its place.
    pub fn delete(&mut self, k: K) -> (r: Option<Entry<K, V>>)
        requires
            old(self).wf(),
        ensures
            final(self).wf(),
            final(self)@ == old(self)@.remove(k),
            r is Some <==> old(self)@.dom().contains(k),
            r matches Some(e) ==> e@.0 == k && cloned::<V>(old(self)@[k], e@.1),
            r is None ==> (final(self).root_key() matches Some(s) ==> adjacent(old(self)@, s, k)),
            r is Some && (exists|x: K| #[trigger] old(self)@.dom().contains(x) && x.rank() < k.rank())
                ==> final(self).structure() is Node && (is_predecessor(old(self)@, k, final(self).structure()->key)
                || (*final(self).structure()->right) is Node && is_predecessor(
                old(self)@,
                k,
                final(self).structure()->right->key,
            )),
            (final(self).root_key() is None) == (final(self)@ == Map::<K, V>::empty()),
            final(self).structure() == delete_shape(old(self).structure(), k),
            final(self).arena().len() == old(self).arena().len(),
            final(self).allocated() == old(self).allocated(),
    {
        proof {
            lemma_empty_iff_leaf(self.shape@);
        }
        if self.elements.is_none() || self.root.is_none() {
            return None;
        }
        let ghost t = self.shape@;
        let ghost sp = t.search_path(k.rank());
        let target_idx_from_get_helper_opt = Self::get_helper(
            self.elements.as_ref().unwrap(),
            self.root,
            &k,
            Ghost(t),
            Ghost(None),
        );
        let target_idx_from_get_helper = match target_idx_from_get_helper_opt {
            Some(idx) => idx,
            None => return None,
        };
        proof {
            lemma_search_stop(t, k.rank(), None, None);
        }
        let t2 = self.splay(target_idx_from_get_helper, Ghost(t), Ghost(sp));
        self.shape = t2;
        let ghost tt = t2@;
        let root_idx_after_splay = self.root.unwrap();
        proof {
            lemma_empty_iff_leaf(tt);
            lemma_top_entry(tt);
            assert(linked(self.elements.unwrap()@, tt, None));
        }
        let key_matches = self.elements.as_ref().unwrap()[root_idx_after_splay].key().compare(&k)
            == KeyOrder::Equal;
        if !key_matches {
            proof {
                if t.to_map().dom().contains(k) {
                    assert(tt->key.rank() == k.rank());
                }
            }
            return None;
        }
        proof {
            K::lemma_rank_injective(tt->key, k);
        }
        let deleted_entry = {
            let root_entry = &self.elements.as_ref().unwrap()[root_idx_after_splay].entry;
            Entry { key: root_entry.key.clone_key(), value: root_entry.value.clone() }
        };

        let ghost l = *tt->left;
        let ghost rt = *tt->right;
        let mut nodes = self.elements.take().unwrap();
        let ghost n0 = nodes@;
        proof {
            lemma_node_split(tt, None, None);
            lemma_node_idxs(tt);
            lemma_linked_idxs(n0, tt, None);
            assert(tt.distinct());
            assert(linked(n0, l, Some(root_idx_after_splay)));
            assert(linked(n0, rt, Some(root_idx_after_splay)));
            assert(l.ordered(None, Some(k.rank())));
            assert(rt.ordered(Some(k.rank()), None));
            if l is Node {
                lemma_node_idxs(l);
            }
            if rt is Node {
                lemma_node_idxs(rt);
            }
        }
        let left_subtree_root_idx = nodes[root_idx_after_splay].left.take();
        let right_subtree_root_idx = nodes[root_idx_after_splay].right.take();

        if let Some(l_idx) = left_subtree_root_idx {
            nodes[l_idx].parent = None;
            self.root = Some(l_idx);
            let ghost n1 = nodes@;
            proof {
                lemma_linked_reparent(n0, n1, l, Some(root_idx_after_splay), None);
                assert forall|j: usize| #[trigger] rt.idxs().contains(j) implies j < n1.len() && n1[j as int]
                    == n0[j as int] by {
                    assert(tt.idxs().contains(j));
                }
                lemma_linked_frame(n0, n1, rt, Some(root_idx_after_splay));
                lemma_ordered_weaken(l, None, Some(k.rank()), None, None);
                assert(l.sub(Seq::<bool>::empty()) == l);
                assert(Seq::<bool>::empty() + l.rightmost() =~= l.rightmost());
                lemma_rightmost(l, None, Some(k.rank()));
            }
            let max_in_left_idx = Self::max_helper(&nodes, Some(l_idx), Ghost(l), Ghost(None)).expect(
                "Left subtree was not empty, so max must exist.",
            );
            let ghost rm = l.rightmost();
            let ghost qm = rm.subrange(0, (rm.len() % 2) as int);
            let ghost km = l.sub(rm)->key;
            let tp = Self::splay_pairs(&mut nodes, max_in_left_idx, Ghost(l), Ghost(rm));
            let ghost ts = tp@;
            let ghost n2 = nodes@;
            let ghost qr = qm.push(true);
            proof {
                assert(rm.len() % 2 == 0 || rm.len() % 2 == 1);
                lemma_linked_sub(n2, ts, None, qm);
                if qm.len() > 0 {
                    assert(qm =~= seq![true]) by {
                        lemma_rightmost_all_right(l);
                        assert(qm[0] == rm[0]);
                    }
                    lemma_parent_facts(n2, ts, qm);
                    assert(qm.drop_last() =~= Seq::<bool>::empty());
                }
                lemma_sub_snoc(ts, qm, true);
                lemma_sub_ordered(ts, qr, None, None);
                lemma_sub_map(ts, qr);
                if ts.sub(qr) is Node {
                    lemma_top_entry(ts.sub(qr));
                    assert(ts.to_map().dom().contains(ts.sub(qr)->key));
                    assert(l.to_map().dom().contains(ts.sub(qr)->key));
                    lemma_bounds_right_spine(ts, qm, None);
                    assert(false);
                }
                assert forall|j: usize| #[trigger] rt.idxs().contains(j) implies j < n2.len() && n2[j as int]
                    == n1[j as int] by {
                    assert(tt.idxs().contains(j));
                    assert(!l.idxs().contains(j));
                }
                lemma_linked_frame(n1, n2, rt, Some(root_idx_after_splay));
            }
            // The largest key is the new root, or the root's right child.
            let new_root = match nodes[max_in_left_idx].parent {
                None => max_in_left_idx,
                Some(top_idx) => top_idx,
            };
            self.root = Some(new_root);
            nodes[max_in_left_idx].right = right_subtree_root_idx;
            if let Some(r_idx) = right_subtree_root_idx {
                nodes[r_idx].parent = Some(max_in_left_idx);
            }
            self.elements = Some(nodes);
            let ghost fin = ts.replace(qr, rt);
            proof {
                let n3 = self.elements.unwrap()@;
                lemma_replace_snoc(ts, qm, true, rt);
                lemma_replace_keeps_top(ts, qr, rt);
                assert(ts.parent_at(qr, None) == Some(max_in_left_idx)) by {
                    assert(qr.drop_last() =~= qm);
                }
                assert forall|j: usize| #[trigger]
                    rt.idxs().contains(j) && Some(j) != rt.link() implies j < n3.len() && n3[j as int]
                    == n2[j as int] by {
                    assert(tt.idxs().contains(j));
                    assert(!l.idxs().contains(j));
                }
                lemma_linked_reparent(n2, n3, rt, Some(root_idx_after_splay), Some(max_in_left_idx));
                lemma_node_idxs(ts.sub(qm));
                assert forall|j: usize| #[trigger]
                    ts.idxs().contains(j) && !ts.sub(qr).idxs().contains(j) && Some(j) != ts.parent_at(
                        qr,
                        None,
                    ) implies j < n3.len() && n3[j as int] == n2[j as int] by {
                    assert(l.idxs().contains(j));
                    assert(!rt.idxs().contains(j));
                    lemma_linked_idxs(n2, ts, None);
                }
                assert(qr.drop_last() =~= qm);
                lemma_linked_replace(n2, n3, ts, None, qr, rt);
                lemma_replace_idxs(ts, qr, rt);
                assert(rt.idxs().disjoint(ts.idxs().difference(ts.sub(qr).idxs())));
                lemma_ordered_weaken(rt, Some(k.rank()), None, Some(km.rank()), None);
                lemma_bounds_right_spine(ts, qm, None);
                lemma_replace_ordered(ts, qr, rt, None, None);
                lemma_dom_bounds(rt, Some(k.rank()), None);
                lemma_dom_bounds(l, None, Some(k.rank()));
                lemma_replace_leaf_map(ts, qr, rt);
                assert(tt.to_map() == l.to_map().union_prefer_right(rt.to_map()).insert(k, tt->value));
                assert(fin.to_map() =~= tt.to_map().remove(k));
                lemma_empty_iff_leaf(fin);
                assert(new_root == fin->idx);
                lemma_node_split(tt, None, None);
                assert(is_predecessor(tt.to_map(), k, km));
                if qm.len() == 0 {
                    assert(fin->key == km);
                } else {
                    assert(qm =~= seq![true]);
                    assert(qm.drop_first() =~= Seq::<bool>::empty());
                    assert(ts.sub(qm) == *ts->right);
                    assert(fin == ts.replace(qm, ts.sub(qm).with_child(true, rt)));
                    let x = ts.sub(qm).with_child(true, rt);
                    assert(ts is Node);
                    assert(qm[0]);
                    assert((*ts->right).replace(qm.drop_first(), x) == x);
                    assert(*fin->right == x);
                    assert(ts.sub(qm)->key == km);
                    assert(ts.sub(qm).with_child(true, rt)->key == km);
                    assert(fin->right->key == km);
                }
            }
            self.shape = Ghost(fin);
        } else {
            self.root = right_subtree_root_idx;
            if let Some(r_idx) = right_subtree_root_idx {
                nodes[r_idx].parent = None;
            }
            self.elements = Some(nodes);
            proof {
                let n1 = self.elements.unwrap()@;
                assert forall|j: usize| #[trigger]
                    rt.idxs().contains(j) && Some(j) != rt.link() implies j < n1.len() && n1[j as int]
                    == n0[j as int] by {
                    assert(tt.idxs().contains(j));
                }
                lemma_linked_reparent(n0, n1, rt, Some(root_idx_after_splay), None);
                lemma_ordered_weaken(rt, Some(k.rank()), None, None, None);
                lemma_empty_iff_leaf(l);
                lemma_dom_bounds(rt, Some(k.rank()), None);
                assert(tt.to_map() == l.to_map().union_prefer_right(rt.to_map()).insert(k, tt->value));
                assert(rt.to_map() =~= tt.to_map().remove(k));
                lemma_empty_iff_leaf(rt);
            }
            self.shape = Ghost(rt);
        }

        Some(deleted_entry)
    }
}


impl<K: OrderedKey, V> Default for SplayTree<K, V> {
    /// An empty tree, as `new` makes it.
    fn default() -> (tree: Self)
        ensures
            tree.wf(),
            tree@ == Map::<K, V>::empty(),
            tree.root_key() is None,
            !tree.allocated(),
    {
        Self::new()
    }
}

} // verus!
