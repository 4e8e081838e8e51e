//! Laws that relate the operations of the splay tree, stated over the map of
//! entries that their contracts speak of, and over the shapes that the
//! rotations produce.
use vstd::prelude::*;
use crate::key::OrderedKey;
use crate::shape::strictly_between;
use crate::neighbours::adjacent;
use crate::neighbours::is_max;
use crate::neighbours::is_min;
use crate::neighbours::is_predecessor;
use crate::neighbours::is_successor;
use crate::shape::Shape;
use crate::node::SplayNode;
use crate::splay_tree::rotatable_right;
use crate::splay_tree::rotatable_left;
use crate::splay_tree::rotated_right;
use crate::splay_tree::rotated_left;
use crate::splay_tree::relinked_parent;
use crate::shape::lemma_sub_prefix_node;
use crate::shape::lemma_sub_replace;
use crate::shape::lemma_replace_replace;
use crate::shape::lemma_replace_own;

verus! {

broadcast use {crate::node::lemma_entry_view, crate::node::lemma_node_view};

/// A lookup right after inserting `(k, v)` finds `k` with the value `v`.
pub proof fn law_get_after_insert<K: OrderedKey, V>(m: Map<K, V>, k: K, v: V)
    ensures
        m.insert(k, v).dom().contains(k),
        m.insert(k, v)[k] == v,
{
}

/// Inserting `(k, v)` leaves the entry of every other key as it was.
pub proof fn law_insert_keeps_other_keys<K: OrderedKey, V>(m: Map<K, V>, k: K, v: V, j: K)
    requires
        j.rank() != k.rank(),
    ensures
        m.insert(k, v).dom().contains(j) == m.dom().contains(j),
        m.dom().contains(j) ==> m.insert(k, v)[j] == m[j],
{
}

/// Inserting the same key twice keeps only the second value.
pub proof fn law_insert_twice<K: OrderedKey, V>(m: Map<K, V>, k: K, v1: V, v2: V)
    ensures
        m.insert(k, v1).insert(k, v2) == m.insert(k, v2),
{
    assert(m.insert(k, v1).insert(k, v2) =~= m.insert(k, v2));
}

/// After deleting `k`, a lookup of `k` finds nothing.
pub proof fn law_get_after_delete<K: OrderedKey, V>(m: Map<K, V>, k: K)
    ensures
        !m.remove(k).dom().contains(k),
{
}

/// Deleting `k` leaves the entry of every other key as it was.
pub proof fn law_delete_keeps_other_keys<K: OrderedKey, V>(m: Map<K, V>, k: K, j: K)
    requires
        j.rank() != k.rank(),
    ensures
        m.remove(k).dom().contains(j) == m.dom().contains(j),
        m.dom().contains(j) ==> m.remove(k)[j] == m[j],
{
}

/// Deleting a key that is absent changes no entry.
pub proof fn law_delete_absent<K: OrderedKey, V>(m: Map<K, V>, k: K)
    requires
        !m.dom().contains(k),
    ensures
        m.remove(k) == m,
{
    assert(m.remove(k) =~= m);
}

/// Deleting a key right after inserting it restores the entries, when the
/// key was absent before.
pub proof fn law_delete_undoes_insert<K: OrderedKey, V>(m: Map<K, V>, k: K, v: V)
    requires
        !m.dom().contains(k),
    ensures
        m.insert(k, v).remove(k) == m,
{
    assert(m.insert(k, v).remove(k) =~= m);
}

/// The predecessor of a key is unique.
pub proof fn law_predecessor_unique<K: OrderedKey, V>(m: Map<K, V>, k: K, p1: K, p2: K)
    requires
        is_predecessor(m, k, p1),
        is_predecessor(m, k, p2),
    ensures
        p1 == p2,
{
    K::lemma_rank_injective(p1, p2);
}

/// The successor of a key is unique.
pub proof fn law_successor_unique<K: OrderedKey, V>(m: Map<K, V>, k: K, s1: K, s2: K)
    requires
        is_successor(m, k, s1),
        is_successor(m, k, s2),
    ensures
        s1 == s2,
{
    K::lemma_rank_injective(s1, s2);
}

/// The largest and the smallest key are unique.
pub proof fn law_extremes_unique<K: OrderedKey, V>(m: Map<K, V>, a: K, b: K)
    ensures
        is_max(m, a) && is_max(m, b) ==> a == b,
        is_min(m, a) && is_min(m, b) ==> a == b,
{
    if (is_max(m, a) && is_max(m, b)) || (is_min(m, a) && is_min(m, b)) {
        K::lemma_rank_injective(a, b);
    }
}

/// For two keys of the map with no key between them, the smaller is the
/// predecessor of the larger and the larger is the successor of the smaller.
pub proof fn law_pred_succ_consecutive<K: OrderedKey, V>(m: Map<K, V>, a: K, b: K)
    requires
        m.dom().contains(a),
        m.dom().contains(b),
        a.rank() < b.rank(),
        forall|x: K| #[trigger] m.dom().contains(x) ==> !(a.rank() < x.rank() && x.rank() < b.rank()),
    ensures
        is_predecessor(m, b, a),
        is_successor(m, a, b),
{
}

/// The successor of a key of the map has that key as its predecessor.
pub proof fn law_pred_of_successor<K: OrderedKey, V>(m: Map<K, V>, k: K, s: K)
    requires
        m.dom().contains(k),
        is_successor(m, k, s),
    ensures
        is_predecessor(m, s, k),
{
}

/// The predecessor of a key of the map has that key as its successor.
pub proof fn law_successor_of_pred<K: OrderedKey, V>(m: Map<K, V>, k: K, p: K)
    requires
        m.dom().contains(k),
        is_predecessor(m, k, p),
    ensures
        is_successor(m, p, k),
{
}

/// The smallest key has no predecessor and the largest key no successor.
pub proof fn law_no_pred_of_min<K: OrderedKey, V>(m: Map<K, V>, a: K, b: K)
    ensures
        is_min(m, a) ==> forall|x: K| #[trigger] m.dom().contains(x) ==> x.rank() >= a.rank(),
        is_max(m, b) ==> forall|x: K| #[trigger] m.dom().contains(x) ==> x.rank() <= b.rank(),
        is_min(m, a) ==> forall|p: K| !is_predecessor(m, a, p),
        is_max(m, b) ==> forall|s: K| !is_successor(m, b, s),
{
}

/// The root left by an unsuccessful search for `k` is the key itself, the
/// predecessor of `k`, or its successor.
pub proof fn law_adjacent_is_neighbour<K: OrderedKey, V>(m: Map<K, V>, s: K, k: K)
    requires
        adjacent(m, s, k),
    ensures
        s.rank() == k.rank() || is_predecessor(m, k, s) || is_successor(m, k, s),
{
    if s.rank() < k.rank() {
        assert forall|x: K| #[trigger] m.dom().contains(x) && x.rank() < k.rank() implies x.rank() <= s.rank() by {
            assert(!strictly_between(s.rank(), k.rank(), x.rank()));
        }
    } else if s.rank() > k.rank() {
        assert forall|x: K| #[trigger] m.dom().contains(x) && x.rank() > k.rank() implies x.rank() >= s.rank() by {
            assert(!strictly_between(s.rank(), k.rank(), x.rank()));
        }
    }
}

/// The smallest key of the map is at most its largest key.
pub proof fn law_min_at_most_max<K: OrderedKey, V>(m: Map<K, V>, a: K, b: K)
    requires
        is_min(m, a),
        is_max(m, b),
    ensures
        a.rank() <= b.rank(),
{
}

/// Inserting a key keeps or lowers the smallest key, and keeps or raises the
/// largest key, to the inserted key when it goes beyond.
pub proof fn law_extremes_after_insert<K: OrderedKey, V>(m: Map<K, V>, k: K, v: V, a: K, b: K)
    requires
        is_min(m, a),
        is_max(m, b),
    ensures
        is_min(m.insert(k, v), if k.rank() < a.rank() { k } else { a }),
        is_max(m.insert(k, v), if k.rank() > b.rank() { k } else { b }),
{
}

/// A tree with one entry has that key as its smallest and largest key.
pub proof fn law_extremes_of_one_entry<K: OrderedKey, V>(k: K, v: V)
    ensures
        is_min(Map::<K, V>::empty().insert(k, v), k),
        is_max(Map::<K, V>::empty().insert(k, v), k),
{
    let m = Map::<K, V>::empty().insert(k, v);
    assert forall|x: K| #[trigger] m.dom().contains(x) implies x == k by {}
}

/// A rotation to the left at a node undoes a rotation to the right there,
/// anywhere in the tree: the node's left child rises, then sinks back.
pub proof fn law_rotations_undo<K, V>(t: Shape<K, V>, p: Seq<bool>)
    requires
        t.sub(p) is Node,
        (*t.sub(p)->left) is Node,
    ensures
        ({
            let t1 = t.replace(p, t.sub(p).rot_right());
            t1.replace(p, t1.sub(p).rot_left()) == t
        }),
{
    if p.len() > 0 {
        lemma_sub_prefix_node(t, p);
    }
    let s = t.sub(p);
    let t1 = t.replace(p, s.rot_right());
    lemma_sub_replace(t, p, s.rot_right());
    assert(s.rot_right().rot_left() == s);
    lemma_replace_replace(t, p, s.rot_right(), s);
    lemma_replace_own(t, p);
}

/// On an arena whose links around a rotation agree (the left child `y` of
/// `x` has `x` as parent, the right child of `y`, if any, has `y` as parent,
/// and the parent of `x`, if any, holds `x` on its left, or on its right with
/// `y` not on its left), a rotation to the left at `y` undoes a rotation to
/// the right at `x`: every entry and every link is back.
pub proof fn law_rotate_left_undoes_rotate_right<K, V>(
    n0: Seq<SplayNode<K, V>>,
    n1: Seq<SplayNode<K, V>>,
    n2: Seq<SplayNode<K, V>>,
    x: usize,
    y: usize,
)
    requires
        rotatable_right(n0, x),
        n0[x as int]@.1 == Some(y),
        n0[y as int]@.3 == Some(x),
        n0[y as int]@.2 is Some ==> n0[n0[y as int]@.2.unwrap() as int]@.3 == Some(y),
        n0[x as int]@.3 is Some ==> n0[n0[x as int]@.3.unwrap() as int]@.1 == Some(x) || (n0[n0[
            x as int]@.3.unwrap() as int]@.2 == Some(x) && n0[n0[x as int]@.3.unwrap() as int]@.1 != Some(
            y,
        )),
        rotated_right(n0, n1, x),
        rotated_left(n1, n2, y),
    ensures
        rotatable_left(n1, y),
        n2 == n0,
{
    let b = n0[y as int]@.2;
    let p = n0[x as int]@.3;
    assert(n1[y as int]@.2 == Some(x));
    assert(n1[x as int]@.1 == b);
    assert(n1[y as int]@.3 == p);
    assert(relinked_parent(n0, n1, p, x, y));
    assert(relinked_parent(n1, n2, p, y, x));
    assert forall|j: int| 0 <= j < n0.len() implies #[trigger] n2[j] == n0[j] by {
        if j == x || j == y || (b is Some && j == b.unwrap()) || (p is Some && j == p.unwrap()) {
            if j == x {
                assert(n2[j]@ == n0[j]@);
            } else if j == y {
                assert(n2[j]@ == n0[j]@);
            } else if b is Some && j == b.unwrap() {
                assert(n1[j]@ == (n0[j]@.0, n0[j]@.1, n0[j]@.2, Some(x)));
                assert(n2[j]@ == n0[j]@);
            } else {
                let q = p.unwrap() as int;
                assert(j == q);
                if n0[q]@.1 == Some(x) {
                    assert(n1[q]@ == (n0[q]@.0, Some(y), n0[q]@.2, n0[q]@.3));
                } else {
                    assert(n1[q]@ == (n0[q]@.0, n0[q]@.1, Some(y), n0[q]@.3));
                    assert(n1[q]@.1 != Some(y));
                }
                assert(n2[j]@ == n0[j]@);
            }
            assert(n2[j].entry.key == n0[j].entry.key);
            assert(n2[j].entry.value == n0[j].entry.value);
            assert(n2[j].entry == n0[j].entry);
        }
    }
    assert(n2 =~= n0);
}

/// The node with left subtree `l`, slot, key and value `e`, and right
/// subtree `r`.
pub open spec fn node_with<K, V>(l: Shape<K, V>, e: (usize, K, V), r: Shape<K, V>) -> Shape<K, V> {
    Shape::Node { left: Box::new(l), idx: e.0, key: e.1, value: e.2, right: Box::new(r) }
}

/// Two more steps below `g`: the prefix before them is `g`.
proof fn lemma_step_path(g: Seq<bool>, d1: bool, d2: bool)
    ensures
        ({
            let p = g + seq![d1, d2];
            &&& p.len() == g.len() + 2
            &&& p.subrange(0, p.len() - 2) == g
            &&& p[p.len() - 2] == d1
            &&& p[p.len() - 1] == d2
        }),
{
    let p = g + seq![d1, d2];
    assert(p.subrange(0, p.len() - 2) =~= g);
}

/// Splaying the top, or leaving out the closing step of a path shorter than
/// two steps, changes nothing.
pub proof fn law_splay_short_paths<K, V>(t: Shape<K, V>, p: Seq<bool>)
    ensures
        p.len() == 0 ==> t.splay_at(p) == t,
        p.len() < 2 ==> t.pairs_at(p) == t,
{
}

/// Zig: a left child of the top rises over it,
/// `x(y(a, b), c)` becomes `y(a, x(b, c))`; and a right child likewise,
/// `x(a, y(b, c))` becomes `y(x(a, b), c)`.
pub proof fn law_splay_zig<K, V>(a: Shape<K, V>, b: Shape<K, V>, c: Shape<K, V>, ex: (usize, K, V), ey: (usize, K, V))
    ensures
        node_with(node_with(a, ey, b), ex, c).splay_at(seq![false]) == node_with(a, ey, node_with(b, ex, c)),
        node_with(a, ex, node_with(b, ey, c)).splay_at(seq![true]) == node_with(node_with(a, ex, b), ey, c),
{
}

/// Zig-zig on the right, at any depth `g`: the grandparent rotates first,
/// then the parent; `g(a, p(b, x(c, d)))` becomes `x(p(g(a, b), c), d)`.
pub proof fn law_splay_zig_zig_right<K, V>(
    t: Shape<K, V>,
    g: Seq<bool>,
    a: Shape<K, V>,
    b: Shape<K, V>,
    c: Shape<K, V>,
    d: Shape<K, V>,
    eg: (usize, K, V),
    ep: (usize, K, V),
    ex: (usize, K, V),
)
    requires
        t.sub(g) == node_with(a, eg, node_with(b, ep, node_with(c, ex, d))),
    ensures
        t.splay_at(g + seq![true, true]) == t.replace(g, node_with(node_with(node_with(a, eg, b), ep, c), ex, d)).splay_at(g),
        t.pairs_at(g + seq![true, true]) == t.replace(g, node_with(node_with(node_with(a, eg, b), ep, c), ex, d)).pairs_at(g),
{
    lemma_step_path(g, true, true);
    assert(t.sub(g).zig_step(true, true) == node_with(node_with(node_with(a, eg, b), ep, c), ex, d));
}

/// Zig-zig on the left, at any depth `g`: the grandparent rotates first,
/// then the parent; `g(p(x(a, b), c), d)` becomes `x(a, p(b, g(c, d)))`.
pub proof fn law_splay_zig_zig_left<K, V>(
    t: Shape<K, V>,
    g: Seq<bool>,
    a: Shape<K, V>,
    b: Shape<K, V>,
    c: Shape<K, V>,
    d: Shape<K, V>,
    eg: (usize, K, V),
    ep: (usize, K, V),
    ex: (usize, K, V),
)
    requires
        t.sub(g) == node_with(node_with(node_with(a, ex, b), ep, c), eg, d),
    ensures
        t.splay_at(g + seq![false, false]) == t.replace(g, node_with(a, ex, node_with(b, ep, node_with(c, eg, d)))).splay_at(g),
        t.pairs_at(g + seq![false, false]) == t.replace(g, node_with(a, ex, node_with(b, ep, node_with(c, eg, d)))).pairs_at(g),
{
    lemma_step_path(g, false, false);
    assert(t.sub(g).zig_step(false, false) == node_with(a, ex, node_with(b, ep, node_with(c, eg, d))));
}

/// Zig-zag, the right child of a left child, at any depth `g`: it rises
/// between them; `g(p(a, x(b, c)), d)` becomes `x(p(a, b), g(c, d))`.
pub proof fn law_splay_zig_zag_left_right<K, V>(
    t: Shape<K, V>,
    g: Seq<bool>,
    a: Shape<K, V>,
    b: Shape<K, V>,
    c: Shape<K, V>,
    d: Shape<K, V>,
    eg: (usize, K, V),
    ep: (usize, K, V),
    ex: (usize, K, V),
)
    requires
        t.sub(g) == node_with(node_with(a, ep, node_with(b, ex, c)), eg, d),
    ensures
        t.splay_at(g + seq![false, true]) == t.replace(g, node_with(node_with(a, ep, b), ex, node_with(c, eg, d))).splay_at(g),
        t.pairs_at(g + seq![false, true]) == t.replace(g, node_with(node_with(a, ep, b), ex, node_with(c, eg, d))).pairs_at(g),
{
    lemma_step_path(g, false, true);
    assert(t.sub(g).zig_step(false, true) == node_with(node_with(a, ep, b), ex, node_with(c, eg, d)));
}

/// Zig-zag, the left child of a right child, at any depth `g`: it rises
/// between them; `g(a, p(x(b, c), d))` becomes `x(g(a, b), p(c, d))`.
pub proof fn law_splay_zig_zag_right_left<K, V>(
    t: Shape<K, V>,
    g: Seq<bool>,
    a: Shape<K, V>,
    b: Shape<K, V>,
    c: Shape<K, V>,
    d: Shape<K, V>,
    eg: (usize, K, V),
    ep: (usize, K, V),
    ex: (usize, K, V),
)
    requires
        t.sub(g) == node_with(a, eg, node_with(node_with(b, ex, c), ep, d)),
    ensures
        t.splay_at(g + seq![true, false]) == t.replace(g, node_with(node_with(a, eg, b), ex, node_with(c, ep, d))).splay_at(g),
        t.pairs_at(g + seq![true, false]) == t.replace(g, node_with(node_with(a, eg, b), ex, node_with(c, ep, d))).pairs_at(g),
{
    lemma_step_path(g, true, false);
    assert(t.sub(g).zig_step(true, false) == node_with(node_with(a, eg, b), ex, node_with(c, ep, d)));
}

} // verus!
