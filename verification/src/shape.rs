//! The mathematical shape of a splay tree: a binary tree whose nodes carry
//! the arena slot of the node, its key and its value. Paths are sequences of
//! directions, `false` for the left child and `true` for the right child.
use vstd::prelude::*;
use crate::key::OrderedKey;

verus! {

broadcast use vstd::map_lib::group_map_union;

/// A binary tree of entries, each tagged with the arena slot that holds it.
pub enum Shape<K, V> {
    Leaf,
    Node { left: Box<Shape<K, V>>, idx: usize, key: K, value: V, right: Box<Shape<K, V>> },
}

/// `r` lies above the (optional) lower bound.
pub open spec fn above(lo: Option<int>, r: int) -> bool {
    match lo {
        Some(l) => l < r,
        None => true,
    }
}

/// `r` lies below the (optional) upper bound.
pub open spec fn below(r: int, hi: Option<int>) -> bool {
    match hi {
        Some(h) => r < h,
        None => true,
    }
}

/// `x` lies strictly between `a` and `b`, in either order.
pub open spec fn strictly_between(a: int, b: int, x: int) -> bool {
    (a < x && x < b) || (b < x && x < a)
}

impl<K, V> Shape<K, V> {
    /// The slot of the top node, if any.
    pub open spec fn link(self) -> Option<usize> {
        match self {
            Shape::Leaf => None,
            Shape::Node { idx, .. } => Some(idx),
        }
    }

    /// The child in direction `d`.
    pub open spec fn child(self, d: bool) -> Shape<K, V> {
        match self {
            Shape::Leaf => Shape::Leaf,
            Shape::Node { left, right, .. } => if d {
                *right
            } else {
                *left
            },
        }
    }

    /// The same node with its child in direction `d` replaced by `s`.
    pub open spec fn with_child(self, d: bool, s: Shape<K, V>) -> Shape<K, V> {
        match self {
            Shape::Leaf => Shape::Leaf,
            Shape::Node { left, idx, key, value, right } => if d {
                Shape::Node { left, idx, key, value, right: Box::new(s) }
            } else {
                Shape::Node { left: Box::new(s), idx, key, value, right }
            },
        }
    }

    /// The subtree found by following path `p`.
    pub open spec fn sub(self, p: Seq<bool>) -> Shape<K, V>
        decreases p.len(),
    {
        if p.len() == 0 {
            self
        } else {
            match self {
                Shape::Leaf => Shape::Leaf,
                Shape::Node { left, right, .. } => if p[0] {
                    right.sub(p.drop_first())
                } else {
                    left.sub(p.drop_first())
                },
            }
        }
    }

    /// This tree with the subtree at path `p` replaced by `s`.
    pub open spec fn replace(self, p: Seq<bool>, s: Shape<K, V>) -> Shape<K, V>
        decreases p.len(),
    {
        if p.len() == 0 {
            s
        } else {
            match self {
                Shape::Leaf => Shape::Leaf,
                Shape::Node { left, idx, key, value, right } => if p[0] {
                    Shape::Node {
                        left,
                        idx,
                        key,
                        value,
                        right: Box::new(right.replace(p.drop_first(), s)),
                    }
                } else {
                    Shape::Node {
                        left: Box::new(left.replace(p.drop_first(), s)),
                        idx,
                        key,
                        value,
                        right,
                    }
                },
            }
        }
    }

    /// The slot of the parent of the position at path `p`; `top` for the top position.
    pub open spec fn parent_at(self, p: Seq<bool>, top: Option<usize>) -> Option<usize> {
        if p.len() == 0 {
            top
        } else {
            self.sub(p.drop_last()).link()
        }
    }

    /// The position at path `p` is the top or the child of a node.
    pub open spec fn position(self, p: Seq<bool>) -> bool {
        p.len() == 0 || self.sub(p.drop_last()) is Node
    }

    /// The arena slots used by the tree.
    pub open spec fn idxs(self) -> Set<usize>
        decreases self,
    {
        match self {
            Shape::Leaf => Set::empty(),
            Shape::Node { left, idx, right, .. } => left.idxs().union(right.idxs()).insert(idx),
        }
    }

    /// No slot is used twice.
    pub open spec fn distinct(self) -> bool
        decreases self,
    {
        match self {
            Shape::Leaf => true,
            Shape::Node { left, idx, right, .. } => {
                &&& left.distinct()
                &&& right.distinct()
                &&& left.idxs().disjoint(right.idxs())
                &&& !left.idxs().contains(idx)
                &&& !right.idxs().contains(idx)
            },
        }
    }

    /// The entries of the tree as a map.
    pub open spec fn to_map(self) -> Map<K, V>
        decreases self,
    {
        match self {
            Shape::Leaf => Map::empty(),
            Shape::Node { left, key, value, right, .. } => left.to_map().union_prefer_right(
                right.to_map(),
            ).insert(key, value),
        }
    }

    /// Turns `Node(Node(a, y, b), x, c)` into `Node(a, y, Node(b, x, c))`.
    pub open spec fn rot_right(self) -> Shape<K, V> {
        match self {
            Shape::Node { left, idx, key, value, right } => match *left {
                Shape::Node { left: a, idx: yi, key: yk, value: yv, right: b } => Shape::Node {
                    left: a,
                    idx: yi,
                    key: yk,
                    value: yv,
                    right: Box::new(Shape::Node { left: b, idx, key, value, right }),
                },
                Shape::Leaf => self,
            },
            Shape::Leaf => self,
        }
    }

    /// Turns `Node(a, y, Node(b, x, c))` into `Node(Node(a, y, b), x, c)`.
    pub open spec fn rot_left(self) -> Shape<K, V> {
        match self {
            Shape::Node { left, idx, key, value, right } => match *right {
                Shape::Node { left: b, idx: xi, key: xk, value: xv, right: c } => Shape::Node {
                    left: Box::new(Shape::Node { left, idx, key, value, right: b }),
                    idx: xi,
                    key: xk,
                    value: xv,
                    right: c,
                },
                Shape::Leaf => self,
            },
            Shape::Leaf => self,
        }
    }

    /// One splay step at a grandparent whose child in direction `d1` is the
    /// parent and whose grandchild in direction `d1`, `d2` is the node being
    /// splayed: zig-zig when both directions agree, zig-zag otherwise.
    pub open spec fn zig_step(self, d1: bool, d2: bool) -> Shape<K, V> {
        if !d1 && !d2 {
            self.rot_right().rot_right()
        } else if !d1 && d2 {
            self.with_child(false, self.child(false).rot_left()).rot_right()
        } else if d1 && !d2 {
            self.with_child(true, self.child(true).rot_right()).rot_left()
        } else {
            self.rot_left().rot_left()
        }
    }

    /// Splaying the node at path `p`: zig-zig and zig-zag steps from the
    /// bottom while the node has a grandparent, then a zig step if it is a
    /// child of the top.
    pub open spec fn splay_at(self, p: Seq<bool>) -> Shape<K, V>
        decreases p.len(),
    {
        if p.len() == 0 {
            self
        } else if p.len() == 1 {
            if p[0] {
                self.rot_left()
            } else {
                self.rot_right()
            }
        } else {
            let g = p.subrange(0, p.len() - 2);
            self.replace(g, self.sub(g).zig_step(p[p.len() - 2], p[p.len() - 1])).splay_at(g)
        }
    }

    /// The zig-zig and zig-zag steps of splaying the node at path `p`, without
    /// the closing zig step: the node rises two levels at a time while it has
    /// a grandparent, and ends at depth `p.len() % 2`.
    pub open spec fn pairs_at(self, p: Seq<bool>) -> Shape<K, V>
        decreases p.len(),
    {
        if p.len() < 2 {
            self
        } else {
            let g = p.subrange(0, p.len() - 2);
            self.replace(g, self.sub(g).zig_step(p[p.len() - 2], p[p.len() - 1])).pairs_at(g)
        }
    }

    /// The path from the top to the node of largest key (right spine).
    pub open spec fn rightmost(self) -> Seq<bool>
        decreases self,
    {
        match self {
            Shape::Leaf => Seq::empty(),
            Shape::Node { right, .. } => match *right {
                Shape::Leaf => Seq::empty(),
                Shape::Node { .. } => seq![true] + right.rightmost(),
            },
        }
    }

    /// The path from the top to the node of smallest key (left spine).
    pub open spec fn leftmost(self) -> Seq<bool>
        decreases self,
    {
        match self {
            Shape::Leaf => Seq::empty(),
            Shape::Node { left, .. } => match *left {
                Shape::Leaf => Seq::empty(),
                Shape::Node { .. } => seq![false] + left.leftmost(),
            },
        }
    }

    /// The number of nodes on the longest path down from the top.
    pub open spec fn height(self) -> nat
        decreases self,
    {
        match self {
            Shape::Leaf => 0,
            Shape::Node { left, right, .. } => {
                let hl = left.height();
                let hr = right.height();
                1 + if hl < hr {
                    hr
                } else {
                    hl
                }
            },
        }
    }
}

impl<K: OrderedKey, V> Shape<K, V> {
    /// Binary-search-tree order: every key lies between the bounds, left keys
    /// below the node's key and right keys above it.
    pub open spec fn ordered(self, lo: Option<int>, hi: Option<int>) -> bool
        decreases self,
    {
        match self {
            Shape::Leaf => true,
            Shape::Node { left, key, right, .. } => {
                &&& above(lo, key.rank())
                &&& below(key.rank(), hi)
                &&& left.ordered(lo, Some(key.rank()))
                &&& right.ordered(Some(key.rank()), hi)
            },
        }
    }

    /// The bounds that the order imposes on the position at path `p`.
    pub open spec fn bounds_at(self, p: Seq<bool>, lo: Option<int>, hi: Option<int>) -> (
        Option<int>,
        Option<int>,
    )
        decreases p.len(),
    {
        if p.len() == 0 {
            (lo, hi)
        } else {
            match self {
                Shape::Leaf => (lo, hi),
                Shape::Node { left, key, right, .. } => if p[0] {
                    right.bounds_at(p.drop_first(), Some(key.rank()), hi)
                } else {
                    left.bounds_at(p.drop_first(), lo, Some(key.rank()))
                },
            }
        }
    }

    /// The path of the node at which a search for rank `r` stops: the node
    /// holding `r`, or the last node before the search falls off the tree.
    pub open spec fn search_path(self, r: int) -> Seq<bool>
        decreases self,
    {
        match self {
            Shape::Leaf => Seq::empty(),
            Shape::Node { left, key, right, .. } => if r < key.rank() {
                match *left {
                    Shape::Leaf => Seq::empty(),
                    Shape::Node { .. } => seq![false] + left.search_path(r),
                }
            } else if r > key.rank() {
                match *right {
                    Shape::Leaf => Seq::empty(),
                    Shape::Node { .. } => seq![true] + right.search_path(r),
                }
            } else {
                Seq::empty()
            },
        }
    }
}

// ---------------------------------------------------------------------------
// Shapes after the tree operations
// ---------------------------------------------------------------------------

/// The position of the last step in direction `d` along path `p`, if any.
pub open spec fn last_turn(p: Seq<bool>, d: bool) -> Option<int>
    decreases p.len(),
{
    if p.len() == 0 {
        None
    } else if p.last() == d {
        Some(p.len() - 1)
    } else {
        last_turn(p.drop_last(), d)
    }
}

/// The path of the node that a lookup of rank `r` splays: the node where the
/// search stops, unless its key lies above `r`; then the node that the search
/// left by its last step to the right, if there is one (it holds the largest
/// key below `r`).
pub open spec fn lookup_path<K: OrderedKey, V>(t: Shape<K, V>, r: int) -> Seq<bool> {
    let sp = t.search_path(r);
    if t.sub(sp)->key.rank() > r {
        match last_turn(sp, true) {
            Some(j) => sp.subrange(0, j),
            None => sp,
        }
    } else {
        sp
    }
}

/// The shape after a lookup of `k`: the node of `lookup_path` is splayed to
/// the top.
pub open spec fn lookup_shape<K: OrderedKey, V>(t: Shape<K, V>, k: K) -> Shape<K, V> {
    t.splay_at(lookup_path(t, k.rank()))
}

/// The shape after a search for `k`: the node where the search stops is
/// splayed to the top.
pub open spec fn splay_search<K: OrderedKey, V>(t: Shape<K, V>, k: K) -> Shape<K, V> {
    t.splay_at(t.search_path(k.rank()))
}

/// The shape after a predecessor query for `k`: after the search, a top
/// below `k` stays; otherwise the largest key of the top's left subtree, if
/// any, is splayed to the top.
pub open spec fn pred_shape<K: OrderedKey, V>(t: Shape<K, V>, k: K) -> Shape<K, V> {
    let t2 = splay_search(t, k);
    match t2 {
        Shape::Leaf => t2,
        Shape::Node { left, key, .. } => if key.rank() < k.rank() || (*left) is Leaf {
            t2
        } else {
            t2.splay_at(seq![false] + left.rightmost())
        },
    }
}

/// The shape after a successor query for `k`: after the search, a top
/// above `k` stays; otherwise the smallest key of the top's right subtree, if
/// any, is splayed to the top.
pub open spec fn succ_shape<K: OrderedKey, V>(t: Shape<K, V>, k: K) -> Shape<K, V> {
    let t2 = splay_search(t, k);
    match t2 {
        Shape::Leaf => t2,
        Shape::Node { right, key, .. } => if key.rank() > k.rank() || (*right) is Leaf {
            t2
        } else {
            t2.splay_at(seq![true] + right.leftmost())
        },
    }
}

/// The shape after inserting `(k, v)` with `n` as the slot for a new node:
/// the value of an existing key is replaced in place, or a new node hangs
/// where the search for `k` fell off the tree; that node is splayed to the top.
pub open spec fn insert_shape<K: OrderedKey, V>(t: Shape<K, V>, k: K, v: V, n: usize) -> Shape<K, V> {
    match t {
        Shape::Leaf => Shape::Node {
            left: Box::new(Shape::Leaf),
            idx: n,
            key: k,
            value: v,
            right: Box::new(Shape::Leaf),
        },
        Shape::Node { .. } => {
            let sp = t.search_path(k.rank());
            let stop = t.sub(sp);
            if stop->key.rank() == k.rank() {
                t.replace(
                    sp,
                    Shape::Node {
                        left: stop->left,
                        idx: stop->idx,
                        key: stop->key,
                        value: v,
                        right: stop->right,
                    },
                ).splay_at(sp)
            } else {
                let q = sp.push(k.rank() > stop->key.rank());
                t.replace(
                    q,
                    Shape::Node {
                        left: Box::new(Shape::Leaf),
                        idx: n,
                        key: k,
                        value: v,
                        right: Box::new(Shape::Leaf),
                    },
                ).splay_at(q)
            }
        },
    }
}

/// The shape after deleting `k`: after the search, a top holding `k` is
/// removed, or else nothing changes. With no left subtree, the right subtree
/// takes the place of the top. Otherwise the left subtree does: its largest
/// key rises by zig-zig steps while it has a grandparent, which leaves it at
/// the top or just below it, and the right subtree becomes its right child.
pub open spec fn delete_shape<K: OrderedKey, V>(t: Shape<K, V>, k: K) -> Shape<K, V> {
    let t2 = splay_search(t, k);
    match t2 {
        Shape::Leaf => t2,
        Shape::Node { left, key, right, .. } => if key.rank() != k.rank() {
            t2
        } else if (*left) is Leaf {
            *right
        } else {
            let rm = left.rightmost();
            let l2 = left.pairs_at(rm);
            let qm = rm.subrange(0, (rm.len() % 2) as int);
            l2.replace(qm, l2.sub(qm).with_child(true, *right))
        },
    }
}

// ---------------------------------------------------------------------------
// Paths
// ---------------------------------------------------------------------------

/// Following one more step: `sub(p.push(d)) == sub(p).child(d)`.
pub proof fn lemma_sub_snoc<K, V>(t: Shape<K, V>, p: Seq<bool>, d: bool)
    ensures
        t.sub(p.push(d)) == t.sub(p).child(d),
    decreases p.len(),
{
    if p.len() == 0 {
        assert(p.push(d).drop_first() =~= Seq::<bool>::empty());
    } else {
        assert(p.push(d).drop_first() =~= p.drop_first().push(d));
        match t {
            Shape::Leaf => {},
            Shape::Node { left, right, .. } => {
                lemma_sub_snoc(*left, p.drop_first(), d);
                lemma_sub_snoc(*right, p.drop_first(), d);
            },
        }
    }
}

/// Following a path that starts with `d`.
pub proof fn lemma_sub_cons<K, V>(t: Shape<K, V>, d: bool, p: Seq<bool>)
    ensures
        t.sub(seq![d] + p) == t.child(d).sub(p),
{
    assert((seq![d] + p).drop_first() =~= p);
    assert((seq![d] + p)[0] == d);
    if t is Leaf {
        lemma_sub_leaf::<K, V>(p);
    }
}

/// Nothing hangs below a leaf.
pub proof fn lemma_sub_leaf<K, V>(p: Seq<bool>)
    ensures
        Shape::<K, V>::Leaf.sub(p) == Shape::<K, V>::Leaf,
{
}

/// Paths compose: `sub(p + q) == sub(p).sub(q)`.
pub proof fn lemma_sub_append<K, V>(t: Shape<K, V>, p: Seq<bool>, q: Seq<bool>)
    ensures
        t.sub(p + q) == t.sub(p).sub(q),
    decreases p.len(),
{
    if p.len() == 0 {
        assert(p + q =~= q);
    } else {
        assert((p + q).drop_first() =~= p.drop_first() + q);
        assert((p + q)[0] == p[0]);
        match t {
            Shape::Leaf => {
                lemma_sub_leaf::<K, V>(q);
            },
            Shape::Node { left, right, .. } => {
                lemma_sub_append(*left, p.drop_first(), q);
                lemma_sub_append(*right, p.drop_first(), q);
            },
        }
    }
}

/// The ancestors of a node are nodes.
pub proof fn lemma_sub_prefix_node<K, V>(t: Shape<K, V>, p: Seq<bool>)
    requires
        p.len() > 0,
        t.sub(p) is Node,
    ensures
        t.sub(p.drop_last()) is Node,
{
    assert(p =~= p.drop_last().push(p.last()));
    lemma_sub_snoc(t, p.drop_last(), p.last());
}

/// Reading back a replaced subtree.
pub proof fn lemma_sub_replace<K, V>(t: Shape<K, V>, p: Seq<bool>, s: Shape<K, V>)
    requires
        t.position(p),
    ensures
        t.replace(p, s).sub(p) == s,
    decreases p.len(),
{
    if p.len() > 0 {
        lemma_position_first(t, p);
        lemma_sub_replace(t.child(p[0]), p.drop_first(), s);
    }
}

/// A position below the top is a position in the child.
pub proof fn lemma_position_first<K, V>(t: Shape<K, V>, p: Seq<bool>)
    requires
        p.len() > 0,
        t.position(p),
    ensures
        t is Node,
        t.child(p[0]).position(p.drop_first()),
        p.len() > 1 ==> t.sub(p.drop_last()) == t.child(p[0]).sub(p.drop_first().drop_last()),
{
    if p.len() == 1 {
        assert(p.drop_last() =~= Seq::<bool>::empty());
    } else {
        assert(p.drop_last() =~= seq![p[0]] + p.drop_first().drop_last());
        lemma_sub_cons(t, p[0], p.drop_first().drop_last());
        if t is Leaf {
            lemma_sub_leaf::<K, V>(p.drop_last());
        }
    }
}

/// Replacing one step further down: the parent node gets a new child.
pub proof fn lemma_replace_snoc<K, V>(t: Shape<K, V>, p: Seq<bool>, d: bool, s: Shape<K, V>)
    requires
        t.sub(p) is Node,
    ensures
        t.replace(p.push(d), s) == t.replace(p, t.sub(p).with_child(d, s)),
    decreases p.len(),
{
    if p.len() == 0 {
        assert(p.push(d).drop_first() =~= Seq::<bool>::empty());
        assert(p.push(d)[0] == d);
        assert(t.child(d).replace(p.push(d).drop_first(), s) == s);
        assert(t.replace(p.push(d), s) == t.with_child(d, s));
    } else {
        let q = p.drop_first();
        assert(p.push(d).drop_first() =~= q.push(d));
        assert(p.push(d)[0] == p[0]);
        if t is Leaf {
            lemma_sub_leaf::<K, V>(p);
        } else {
            let c = t.child(p[0]);
            assert(t.sub(p) == c.sub(q));
            lemma_replace_snoc(c, q, d, s);
            assert(t.replace(p.push(d), s) == t.with_child(p[0], c.replace(q.push(d), s)));
            assert(t.replace(p, t.sub(p).with_child(d, s)) == t.with_child(
                p[0],
                c.replace(q, c.sub(q).with_child(d, s)),
            ));
        }
    }
}

/// Replacing twice at the same position keeps the second replacement.
pub proof fn lemma_replace_replace<K, V>(t: Shape<K, V>, p: Seq<bool>, s1: Shape<K, V>, s2: Shape<K, V>)
    requires
        t.position(p),
    ensures
        t.replace(p, s1).replace(p, s2) == t.replace(p, s2),
    decreases p.len(),
{
    if p.len() > 0 {
        lemma_position_first(t, p);
        lemma_replace_replace(t.child(p[0]), p.drop_first(), s1, s2);
    }
}

/// The parent of the position one step further down is the node itself.
pub proof fn lemma_parent_at_snoc<K, V>(t: Shape<K, V>, p: Seq<bool>, d: bool, top: Option<usize>)
    ensures
        t.parent_at(p.push(d), top) == t.sub(p).link(),
{
    assert(p.push(d).drop_last() =~= p);
}

/// Replacing at a path below the top keeps the top node.
pub proof fn lemma_replace_keeps_top<K, V>(t: Shape<K, V>, p: Seq<bool>, s: Shape<K, V>)
    requires
        p.len() > 0,
    ensures
        t.replace(p, s).link() == t.link(),
{
}

// ---------------------------------------------------------------------------
// Slots
// ---------------------------------------------------------------------------

/// The slots of a subtree are slots of the tree, and a subtree of a tree
/// without repeated slots has none either.
pub proof fn lemma_sub_idxs<K, V>(t: Shape<K, V>, p: Seq<bool>)
    ensures
        t.sub(p).idxs().subset_of(t.idxs()),
        t.distinct() ==> t.sub(p).distinct(),
        t.sub(p) matches Shape::Node { idx, .. } ==> t.idxs().contains(idx),
    decreases p.len(),
{
    if p.len() > 0 {
        match t {
            Shape::Leaf => {},
            Shape::Node { left, right, .. } => {
                lemma_sub_idxs(*left, p.drop_first());
                lemma_sub_idxs(*right, p.drop_first());
            },
        }
    }
}

/// The slots of a node: its own, and those of its two subtrees.
pub proof fn lemma_node_idxs<K, V>(t: Shape<K, V>)
    requires
        t is Node,
    ensures
        t.idxs().contains(t->idx),
        forall|j: usize| #[trigger] (*t->left).idxs().contains(j) ==> t.idxs().contains(j),
        forall|j: usize| #[trigger] (*t->right).idxs().contains(j) ==> t.idxs().contains(j),
        forall|j: usize| #[trigger]
            t.idxs().contains(j) ==> j == t->idx || (*t->left).idxs().contains(j) || (
            *t->right).idxs().contains(j),
{
}

/// Slots after a replacement, and freedom from repeats.
pub proof fn lemma_replace_idxs<K, V>(t: Shape<K, V>, p: Seq<bool>, s: Shape<K, V>)
    requires
        t.position(p),
        t.distinct(),
    ensures
        t.replace(p, s).idxs() =~= t.idxs().difference(t.sub(p).idxs()).union(s.idxs()),
        s.distinct() && s.idxs().disjoint(t.idxs().difference(t.sub(p).idxs()))
            ==> t.replace(p, s).distinct(),
    decreases p.len(),
{
    if p.len() > 0 {
        lemma_position_first(t, p);
        match t {
            Shape::Leaf => {},
            Shape::Node { left, idx, right, .. } => {
                let c = t.child(p[0]);
                let o = t.child(!p[0]);
                let q = p.drop_first();
                lemma_replace_idxs(c, q, s);
                lemma_sub_idxs(c, q);
                assert(t.sub(p) == c.sub(q));
                let c2 = c.replace(q, s);
                assert(t.replace(p, s) == t.with_child(p[0], c2));
                assert(c.idxs().disjoint(o.idxs()));
                assert(!c.idxs().contains(idx));
                assert(t.replace(p, s).idxs() =~= c2.idxs().union(o.idxs()).insert(idx));
                assert(t.idxs() =~= c.idxs().union(o.idxs()).insert(idx));
                if s.distinct() && s.idxs().disjoint(t.idxs().difference(t.sub(p).idxs())) {
                    assert(s.idxs().disjoint(c.idxs().difference(c.sub(q).idxs())));
                    assert(c2.idxs().disjoint(o.idxs()));
                    assert(!c2.idxs().contains(idx));
                }
            },
        }
    }
}

// ---------------------------------------------------------------------------
// Order and entries
// ---------------------------------------------------------------------------

/// A tree is empty exactly when its map is.
pub proof fn lemma_empty_iff_leaf<K, V>(t: Shape<K, V>)
    ensures
        (t is Leaf) == (t.to_map() == Map::<K, V>::empty()),
{
    if t is Leaf {
        assert(t.to_map() =~= Map::<K, V>::empty());
    } else {
        assert(t.to_map().dom().contains(t->key));
    }
}

/// Every key of an ordered tree lies between its bounds.
pub proof fn lemma_dom_bounds<K: OrderedKey, V>(t: Shape<K, V>, lo: Option<int>, hi: Option<int>)
    requires
        t.ordered(lo, hi),
    ensures
        forall|x: K| #[trigger]
            t.to_map().dom().contains(x) ==> above(lo, x.rank()) && below(x.rank(), hi),
    decreases t,
{
    match t {
        Shape::Leaf => {
            assert(t.to_map() =~= Map::<K, V>::empty());
        },
        Shape::Node { left, key, value, right, .. } => {
            lemma_dom_bounds(*left, lo, Some(key.rank()));
            lemma_dom_bounds(*right, Some(key.rank()), hi);
            assert forall|x: K| #[trigger]
                t.to_map().dom().contains(x) implies above(lo, x.rank()) && below(x.rank(), hi) by {
                assert(t.to_map() == left.to_map().union_prefer_right(right.to_map()).insert(key, value));
                if x != key {
                    assert(left.to_map().dom().contains(x) || right.to_map().dom().contains(x));
                }
            }
        },
    }
}

/// Loosening the bounds keeps the order.
pub proof fn lemma_ordered_weaken<K: OrderedKey, V>(
    t: Shape<K, V>,
    lo: Option<int>,
    hi: Option<int>,
    lo2: Option<int>,
    hi2: Option<int>,
)
    requires
        t.ordered(lo, hi),
        forall|r: int| above(lo, r) ==> above(lo2, r),
        forall|r: int| below(r, hi) ==> below(r, hi2),
    ensures
        t.ordered(lo2, hi2),
    decreases t,
{
    match t {
        Shape::Leaf => {},
        Shape::Node { left, key, right, .. } => {
            lemma_ordered_weaken(*left, lo, Some(key.rank()), lo2, Some(key.rank()));
            lemma_ordered_weaken(*right, Some(key.rank()), hi, Some(key.rank()), hi2);
        },
    }
}

/// The key and value stored in the top node are an entry of the map.
pub proof fn lemma_top_entry<K, V>(t: Shape<K, V>)
    requires
        t is Node,
    ensures
        t.to_map().dom().contains(t->key),
        t.to_map()[t->key] == t->value,
{
}

/// The keys of an ordered node split into those of its left subtree (below
/// its key), its own key and those of its right subtree (above it).
pub proof fn lemma_node_split<K: OrderedKey, V>(t: Shape<K, V>, lo: Option<int>, hi: Option<int>)
    requires
        t is Node,
        t.ordered(lo, hi),
    ensures
        forall|x: K| #[trigger]
            t.to_map().dom().contains(x) && x.rank() < t->key.rank() ==> (*t->left).to_map().dom().contains(
                x,
            ) && t.to_map()[x] == (*t->left).to_map()[x],
        forall|x: K| #[trigger]
            t.to_map().dom().contains(x) && x.rank() > t->key.rank() ==> (*t->right).to_map().dom().contains(
                x,
            ) && t.to_map()[x] == (*t->right).to_map()[x],
        forall|x: K| #[trigger]
            (*t->left).to_map().dom().contains(x) ==> t.to_map().dom().contains(x) && t.to_map()[x]
                == (*t->left).to_map()[x] && x.rank() < t->key.rank(),
        forall|x: K| #[trigger]
            (*t->right).to_map().dom().contains(x) ==> t.to_map().dom().contains(x) && t.to_map()[x]
                == (*t->right).to_map()[x] && x.rank() > t->key.rank(),
        forall|x: K| #[trigger]
            t.to_map().dom().contains(x) && x.rank() == t->key.rank() ==> x == t->key,
        t.to_map().dom().contains(t->key),
        t.to_map()[t->key] == t->value,
{
    let l = *t->left;
    let r = *t->right;
    let k = t->key;
    let v = t->value;
    assert(t.to_map() == l.to_map().union_prefer_right(r.to_map()).insert(k, v));
    lemma_dom_bounds(l, lo, Some(k.rank()));
    lemma_dom_bounds(r, Some(k.rank()), hi);
    assert forall|x: K| #[trigger] t.to_map().dom().contains(x) && x.rank() < k.rank() implies l.to_map().dom().contains(x)
        && t.to_map()[x] == l.to_map()[x] by {
        if r.to_map().dom().contains(x) {
        }
    }
    assert forall|x: K| #[trigger] t.to_map().dom().contains(x) && x.rank() > k.rank() implies r.to_map().dom().contains(x)
        && t.to_map()[x] == r.to_map()[x] by {
        if l.to_map().dom().contains(x) {
        }
    }
    assert forall|x: K| #[trigger] l.to_map().dom().contains(x) implies t.to_map().dom().contains(x) && t.to_map()[x]
        == l.to_map()[x] && x.rank() < k.rank() by {
        if r.to_map().dom().contains(x) {
        }
    }
    assert forall|x: K| #[trigger] t.to_map().dom().contains(x) && x.rank() == k.rank() implies x == k by {
        if l.to_map().dom().contains(x) {
        }
        if r.to_map().dom().contains(x) {
        }
    }
}

/// A rotation to the right keeps the order, the slots and the entries.
pub proof fn lemma_rot_right<K: OrderedKey, V>(s: Shape<K, V>, lo: Option<int>, hi: Option<int>)
    requires
        s is Node,
        (*s->left) is Node,
        s.ordered(lo, hi),
    ensures
        s.rot_right().ordered(lo, hi),
        s.rot_right().idxs() =~= s.idxs(),
        s.distinct() ==> s.rot_right().distinct(),
        s.rot_right().to_map() =~= s.to_map(),
{
    match s {
        Shape::Node { left, idx: xi, key: kx, value: vx, right: c } => match *left {
            Shape::Node { left: a, idx: yi, key: ky, value: vy, right: b } => {
                let l = *left;
                let inner = Shape::Node { left: b, idx: xi, key: kx, value: vx, right: c };
                let r = Shape::Node { left: a, idx: yi, key: ky, value: vy, right: Box::new(inner) };
                assert(s.rot_right() == r);
                assert(l.ordered(lo, Some(kx.rank())));
                assert(a.ordered(lo, Some(ky.rank())));
                assert(b.ordered(Some(ky.rank()), Some(kx.rank())));
                assert(c.ordered(Some(kx.rank()), hi));
                lemma_ordered_weaken(*b, Some(ky.rank()), Some(kx.rank()), Some(ky.rank()), Some(kx.rank()));
                assert(inner.ordered(Some(ky.rank()), hi));
                assert(r.ordered(lo, hi));
                if s.distinct() {
                    assert(l.distinct());
                    assert(inner.distinct());
                    assert(r.distinct());
                }
                assert(inner.idxs() =~= b.idxs().union(c.idxs()).insert(xi));
                assert(l.idxs() =~= a.idxs().union(b.idxs()).insert(yi));
                assert(r.idxs() =~= a.idxs().union(inner.idxs()).insert(yi));
                assert(s.idxs() =~= l.idxs().union(c.idxs()).insert(xi));
                lemma_dom_bounds(*a, lo, Some(ky.rank()));
                lemma_dom_bounds(*b, Some(ky.rank()), Some(kx.rank()));
                lemma_dom_bounds(*c, Some(kx.rank()), hi);
                assert(inner.to_map() == b.to_map().union_prefer_right(c.to_map()).insert(kx, vx));
                assert(l.to_map() == a.to_map().union_prefer_right(b.to_map()).insert(ky, vy));
                assert(r.to_map() == a.to_map().union_prefer_right(inner.to_map()).insert(ky, vy));
                assert(s.to_map() == l.to_map().union_prefer_right(c.to_map()).insert(kx, vx));
                assert(r.to_map() =~= s.to_map());
            },
            Shape::Leaf => {},
        },
        Shape::Leaf => {},
    }
}

/// A rotation to the left keeps the order, the slots and the entries.
pub proof fn lemma_rot_left<K: OrderedKey, V>(s: Shape<K, V>, lo: Option<int>, hi: Option<int>)
    requires
        s is Node,
        (*s->right) is Node,
        s.ordered(lo, hi),
    ensures
        s.rot_left().ordered(lo, hi),
        s.rot_left().idxs() =~= s.idxs(),
        s.distinct() ==> s.rot_left().distinct(),
        s.rot_left().to_map() =~= s.to_map(),
{
    match s {
        Shape::Node { left: a, idx: yi, key: ky, value: vy, right } => match *right {
            Shape::Node { left: b, idx: xi, key: kx, value: vx, right: c } => {
                let rr = *right;
                let inner = Shape::Node { left: a, idx: yi, key: ky, value: vy, right: b };
                let r = Shape::Node { left: Box::new(inner), idx: xi, key: kx, value: vx, right: c };
                assert(s.rot_left() == r);
                assert(rr.ordered(Some(ky.rank()), hi));
                assert(a.ordered(lo, Some(ky.rank())));
                assert(b.ordered(Some(ky.rank()), Some(kx.rank())));
                assert(c.ordered(Some(kx.rank()), hi));
                assert(inner.ordered(lo, Some(kx.rank())));
                assert(r.ordered(lo, hi));
                if s.distinct() {
                    assert(rr.distinct());
                    assert(inner.distinct());
                    assert(r.distinct());
                }
                assert(inner.idxs() =~= a.idxs().union(b.idxs()).insert(yi));
                assert(rr.idxs() =~= b.idxs().union(c.idxs()).insert(xi));
                assert(r.idxs() =~= inner.idxs().union(c.idxs()).insert(xi));
                assert(s.idxs() =~= a.idxs().union(rr.idxs()).insert(yi));
                lemma_dom_bounds(*a, lo, Some(ky.rank()));
                lemma_dom_bounds(*b, Some(ky.rank()), Some(kx.rank()));
                lemma_dom_bounds(*c, Some(kx.rank()), hi);
                assert(inner.to_map() == a.to_map().union_prefer_right(b.to_map()).insert(ky, vy));
                assert(rr.to_map() == b.to_map().union_prefer_right(c.to_map()).insert(kx, vx));
                assert(r.to_map() == inner.to_map().union_prefer_right(c.to_map()).insert(kx, vx));
                assert(s.to_map() == a.to_map().union_prefer_right(rr.to_map()).insert(ky, vy));
                assert(r.to_map() =~= s.to_map());
            },
            Shape::Leaf => {},
        },
        Shape::Leaf => {},
    }
}

/// The subtree at a path is ordered within the bounds of its position.
pub proof fn lemma_sub_ordered<K: OrderedKey, V>(
    t: Shape<K, V>,
    p: Seq<bool>,
    lo: Option<int>,
    hi: Option<int>,
)
    requires
        t.ordered(lo, hi),
    ensures
        t.sub(p).ordered(t.bounds_at(p, lo, hi).0, t.bounds_at(p, lo, hi).1),
    decreases p.len(),
{
    if p.len() > 0 {
        match t {
            Shape::Leaf => {},
            Shape::Node { left, key, right, .. } => {
                lemma_sub_ordered(*left, p.drop_first(), lo, Some(key.rank()));
                lemma_sub_ordered(*right, p.drop_first(), Some(key.rank()), hi);
            },
        }
    }
}

/// Replacing a subtree by one that is ordered within the same position bounds.
pub proof fn lemma_replace_ordered<K: OrderedKey, V>(
    t: Shape<K, V>,
    p: Seq<bool>,
    s: Shape<K, V>,
    lo: Option<int>,
    hi: Option<int>,
)
    requires
        t.ordered(lo, hi),
        t.position(p),
        s.ordered(t.bounds_at(p, lo, hi).0, t.bounds_at(p, lo, hi).1),
    ensures
        t.replace(p, s).ordered(lo, hi),
    decreases p.len(),
{
    if p.len() > 0 {
        lemma_position_first(t, p);
        match t {
            Shape::Leaf => {},
            Shape::Node { left, key, right, .. } => {
                if p[0] {
                    lemma_replace_ordered(*right, p.drop_first(), s, Some(key.rank()), hi);
                } else {
                    lemma_replace_ordered(*left, p.drop_first(), s, lo, Some(key.rank()));
                }
            },
        }
    }
}

/// Replacing a subtree by one with the same entries keeps the entries.
pub proof fn lemma_replace_same_map<K, V>(t: Shape<K, V>, p: Seq<bool>, s: Shape<K, V>)
    requires
        t.position(p),
        s.to_map() == t.sub(p).to_map(),
    ensures
        t.replace(p, s).to_map() == t.to_map(),
    decreases p.len(),
{
    if p.len() > 0 {
        lemma_position_first(t, p);
        lemma_replace_same_map(t.child(p[0]), p.drop_first(), s);
    } else {
    }
}

/// Replacing a subtree by one with one more (or one changed) entry, keeping
/// the tree ordered, adds that entry to the whole map.
pub proof fn lemma_replace_insert_map<K: OrderedKey, V>(
    t: Shape<K, V>,
    p: Seq<bool>,
    s: Shape<K, V>,
    k: K,
    v: V,
    lo: Option<int>,
    hi: Option<int>,
)
    requires
        t.position(p),
        t.ordered(lo, hi),
        t.replace(p, s).ordered(lo, hi),
        s.to_map() == t.sub(p).to_map().insert(k, v),
    ensures
        t.replace(p, s).to_map() =~= t.to_map().insert(k, v),
    decreases p.len(),
{
    if p.len() > 0 {
        lemma_position_first(t, p);
        match t {
            Shape::Leaf => {},
            Shape::Node { left, idx, key, value, right } => {
                let q = p.drop_first();
                let t2 = t.replace(p, s);
                assert(t.sub(p) == t.child(p[0]).sub(q));
                if p[0] {
                    let r2 = right.replace(q, s);
                    assert(t2 == Shape::Node { left, idx, key, value, right: Box::new(r2) });
                    assert(r2.ordered(Some(key.rank()), hi));
                    assert(right.ordered(Some(key.rank()), hi));
                    lemma_replace_insert_map(*right, q, s, k, v, Some(key.rank()), hi);
                    lemma_dom_bounds(r2, Some(key.rank()), hi);
                    lemma_dom_bounds(*left, lo, Some(key.rank()));
                    assert(r2.to_map().dom().contains(k));
                    assert(t2.to_map() == left.to_map().union_prefer_right(r2.to_map()).insert(key, value));
                    assert(t.to_map() == left.to_map().union_prefer_right(right.to_map()).insert(key, value));
                } else {
                    let l2 = left.replace(q, s);
                    assert(t2 == Shape::Node { left: Box::new(l2), idx, key, value, right });
                    assert(l2.ordered(lo, Some(key.rank())));
                    assert(left.ordered(lo, Some(key.rank())));
                    lemma_replace_insert_map(*left, q, s, k, v, lo, Some(key.rank()));
                    lemma_dom_bounds(l2, lo, Some(key.rank()));
                    lemma_dom_bounds(*right, Some(key.rank()), hi);
                    assert(l2.to_map().dom().contains(k));
                    assert(t2.to_map() == l2.to_map().union_prefer_right(right.to_map()).insert(key, value));
                    assert(t.to_map() == left.to_map().union_prefer_right(right.to_map()).insert(key, value));
                }
            },
        }
    }
}

// ---------------------------------------------------------------------------
// Search
// ---------------------------------------------------------------------------

/// A search in a nonempty tree stops at a node.
pub proof fn lemma_search_node<K: OrderedKey, V>(t: Shape<K, V>, r: int)
    requires
        t is Node,
    ensures
        t.sub(t.search_path(r)) is Node,
    decreases t,
{
    match t {
        Shape::Leaf => {},
        Shape::Node { left, key, right, .. } => {
            if r < key.rank() && (*left) is Node {
                lemma_search_node(*left, r);
                lemma_sub_cons(t, false, left.search_path(r));
            } else if r > key.rank() && (*right) is Node {
                lemma_search_node(*right, r);
                lemma_sub_cons(t, true, right.search_path(r));
            }
        },
    }
}

/// A search for a rank that some key has stops at that key; otherwise no key
/// lies strictly between the rank and the key where the search stops.
pub proof fn lemma_search_stop<K: OrderedKey, V>(
    t: Shape<K, V>,
    r: int,
    lo: Option<int>,
    hi: Option<int>,
)
    requires
        t is Node,
        t.ordered(lo, hi),
    ensures
        t.sub(t.search_path(r)) is Node,
        (exists|x: K| #[trigger] t.to_map().dom().contains(x) && x.rank() == r) ==> t.sub(
            t.search_path(r),
        )->key.rank() == r,
        forall|x: K| #[trigger]
            t.to_map().dom().contains(x) ==> !strictly_between(
                t.sub(t.search_path(r))->key.rank(),
                r,
                x.rank(),
            ),
        t.to_map().dom().contains(t.sub(t.search_path(r))->key),
    decreases t,
{
    lemma_search_node(t, r);
    lemma_node_split(t, lo, hi);
    match t {
        Shape::Leaf => {},
        Shape::Node { left, key, right, .. } => {
            if r < key.rank() && (*left) is Node {
                lemma_search_stop(*left, r, lo, Some(key.rank()));
                lemma_sub_cons(t, false, left.search_path(r));
                lemma_dom_bounds(*left, lo, Some(key.rank()));
            } else if r > key.rank() && (*right) is Node {
                lemma_search_stop(*right, r, Some(key.rank()), hi);
                lemma_sub_cons(t, true, right.search_path(r));
                lemma_dom_bounds(*right, Some(key.rank()), hi);
            } else if r < key.rank() {
                assert(left.to_map() =~= Map::empty());
            } else if r > key.rank() {
                assert(right.to_map() =~= Map::empty());
            }
        },
    }
}

/// Where a search for an absent rank stops, the slot one step further in the
/// direction of the rank is empty, and its position bounds admit the rank.
pub proof fn lemma_search_gap<K: OrderedKey, V>(
    t: Shape<K, V>,
    r: int,
    lo: Option<int>,
    hi: Option<int>,
)
    requires
        t is Node,
        t.ordered(lo, hi),
        above(lo, r),
        below(r, hi),
        t.sub(t.search_path(r))->key.rank() != r,
    ensures
        ({
            let sp = t.search_path(r);
            let d = r > t.sub(sp)->key.rank();
            &&& t.sub(sp.push(d)) is Leaf
            &&& above(t.bounds_at(sp.push(d), lo, hi).0, r)
            &&& below(r, t.bounds_at(sp.push(d), lo, hi).1)
        }),
    decreases t,
{
    lemma_search_node(t, r);
    match t {
        Shape::Leaf => {},
        Shape::Node { left, key, right, .. } => {
            let sp = t.search_path(r);
            if r < key.rank() && (*left) is Node {
                let spl = left.search_path(r);
                lemma_sub_cons(t, false, spl);
                let d = r > left.sub(spl)->key.rank();
                lemma_search_gap(*left, r, lo, Some(key.rank()));
                assert(sp.push(d) =~= seq![false] + spl.push(d));
                lemma_sub_cons(t, false, spl.push(d));
                assert((seq![false] + spl.push(d)).drop_first() =~= spl.push(d));
                assert((seq![false] + spl.push(d))[0] == false);
                assert(t.bounds_at(sp.push(d), lo, hi) == left.bounds_at(spl.push(d), lo, Some(key.rank())));
            } else if r > key.rank() && (*right) is Node {
                let spr = right.search_path(r);
                lemma_sub_cons(t, true, spr);
                let d = r > right.sub(spr)->key.rank();
                lemma_search_gap(*right, r, Some(key.rank()), hi);
                assert(sp.push(d) =~= seq![true] + spr.push(d));
                lemma_sub_cons(t, true, spr.push(d));
                assert((seq![true] + spr.push(d)).drop_first() =~= spr.push(d));
                assert((seq![true] + spr.push(d))[0] == true);
                assert(t.bounds_at(sp.push(d), lo, hi) == right.bounds_at(spr.push(d), Some(key.rank()), hi));
            } else {
                assert(sp.len() == 0);
                let d = r > key.rank();
                assert(sp.push(d) =~= seq![d]);
                assert(seq![d].drop_first() =~= Seq::<bool>::empty());
                assert(seq![d][0] == d);
                lemma_sub_cons(t, d, Seq::<bool>::empty());
                assert(seq![d] + Seq::<bool>::empty() =~= seq![d]);
                assert(t.child(d).sub(Seq::<bool>::empty()) == t.child(d));
                if d {
                    assert(right.bounds_at(Seq::<bool>::empty(), Some(key.rank()), hi) == (Some(key.rank()), hi));
                } else {
                    assert(left.bounds_at(Seq::<bool>::empty(), lo, Some(key.rank())) == (lo, Some(key.rank())));
                }
            }
        },
    }
}

// ---------------------------------------------------------------------------
// Extremes
// ---------------------------------------------------------------------------

/// The right spine of a nonempty ordered tree ends at its largest key.
pub proof fn lemma_rightmost<K: OrderedKey, V>(t: Shape<K, V>, lo: Option<int>, hi: Option<int>)
    requires
        t is Node,
        t.ordered(lo, hi),
    ensures
        t.sub(t.rightmost()) is Node,
        (*t.sub(t.rightmost())->right) is Leaf,
        t.to_map().dom().contains(t.sub(t.rightmost())->key),
        t.to_map()[t.sub(t.rightmost())->key] == t.sub(t.rightmost())->value,
        forall|x: K| #[trigger]
            t.to_map().dom().contains(x) ==> x.rank() <= t.sub(t.rightmost())->key.rank(),
    decreases t,
{
    lemma_node_split(t, lo, hi);
    match t {
        Shape::Leaf => {},
        Shape::Node { left, key, right, .. } => {
            lemma_dom_bounds(*left, lo, Some(key.rank()));
            if (*right) is Node {
                lemma_rightmost(*right, Some(key.rank()), hi);
                lemma_sub_cons(t, true, right.rightmost());
            } else {
                assert(right.to_map() =~= Map::empty());
            }
        },
    }
}

/// The left spine of a nonempty ordered tree ends at its smallest key.
pub proof fn lemma_leftmost<K: OrderedKey, V>(t: Shape<K, V>, lo: Option<int>, hi: Option<int>)
    requires
        t is Node,
        t.ordered(lo, hi),
    ensures
        t.sub(t.leftmost()) is Node,
        (*t.sub(t.leftmost())->left) is Leaf,
        t.to_map().dom().contains(t.sub(t.leftmost())->key),
        t.to_map()[t.sub(t.leftmost())->key] == t.sub(t.leftmost())->value,
        forall|x: K| #[trigger]
            t.to_map().dom().contains(x) ==> x.rank() >= t.sub(t.leftmost())->key.rank(),
    decreases t,
{
    lemma_node_split(t, lo, hi);
    match t {
        Shape::Leaf => {},
        Shape::Node { left, key, right, .. } => {
            lemma_dom_bounds(*right, Some(key.rank()), hi);
            if (*left) is Node {
                lemma_leftmost(*left, lo, Some(key.rank()));
                lemma_sub_cons(t, false, left.leftmost());
            } else {
                assert(left.to_map() =~= Map::empty());
            }
        },
    }
}

// ---------------------------------------------------------------------------
// Splaying in pairs; lookups
// ---------------------------------------------------------------------------

/// Splaying is its zig-zig and zig-zag steps, then, for a path of odd
/// length, a zig step at the top.
pub proof fn lemma_splay_pairs<K, V>(t: Shape<K, V>, p: Seq<bool>)
    ensures
        p.len() % 2 == 0 ==> t.splay_at(p) == t.pairs_at(p),
        p.len() % 2 == 1 && p[0] ==> t.splay_at(p) == t.pairs_at(p).rot_left(),
        p.len() % 2 == 1 && !p[0] ==> t.splay_at(p) == t.pairs_at(p).rot_right(),
    decreases p.len(),
{
    if p.len() >= 2 {
        let g = p.subrange(0, p.len() - 2);
        let x = t.replace(g, t.sub(g).zig_step(p[p.len() - 2], p[p.len() - 1]));
        lemma_splay_pairs(x, g);
        if g.len() > 0 {
            assert(g[0] == p[0]);
        }
    }
}

/// A turn found before the last step is a turn of the shorter path.
pub proof fn lemma_last_turn_bound(p: Seq<bool>, d: bool)
    ensures
        last_turn(p, d) matches Some(j) ==> 0 <= j < p.len() && p[j] == d,
    decreases p.len(),
{
    if p.len() > 0 && p.last() != d {
        lemma_last_turn_bound(p.drop_last(), d);
    }
}

/// The last turn of a path with one more step in front.
pub proof fn lemma_last_turn_cons(d: bool, q: Seq<bool>, e: bool)
    ensures
        last_turn(seq![d] + q, e) == match last_turn(q, e) {
            Some(j) => Some(j + 1),
            None => if d == e {
                Some(0int)
            } else {
                None
            },
        },
    decreases q.len(),
{
    let s = seq![d] + q;
    assert(s.len() == q.len() + 1);
    if q.len() == 0 {
        assert(s =~= seq![d]);
        assert(s.last() == d);
        assert(s.drop_last() =~= Seq::<bool>::empty());
        assert(last_turn(Seq::<bool>::empty(), e) is None);
    } else {
        assert(s.last() == q.last());
        assert(s.drop_last() =~= seq![d] + q.drop_last());
        lemma_last_turn_cons(d, q.drop_last(), e);
    }
}

/// Where a search for `r` stops at a key above `r`, the node that the search
/// left by its last step to the right holds the largest key below `r`; with
/// no such step, every key lies above `r`.
pub proof fn lemma_search_below<K: OrderedKey, V>(t: Shape<K, V>, r: int, lo: Option<int>, hi: Option<int>)
    requires
        t is Node,
        t.ordered(lo, hi),
        t.sub(t.search_path(r))->key.rank() > r,
    ensures
        last_turn(t.search_path(r), true) matches Some(j) ==> {
            let a = t.sub(t.search_path(r).subrange(0, j));
            &&& a is Node
            &&& a->key.rank() < r
            &&& t.to_map().dom().contains(a->key)
            &&& forall|x: K| #[trigger] t.to_map().dom().contains(x) && x.rank() < r ==> x.rank() <= a->key.rank()
        },
        last_turn(t.search_path(r), true) is None ==> forall|x: K| #[trigger]
            t.to_map().dom().contains(x) ==> x.rank() > r,
    decreases t,
{
    lemma_node_split(t, lo, hi);
    match t {
        Shape::Leaf => {},
        Shape::Node { left, key, right, .. } => {
            let sp = t.search_path(r);
            if r < key.rank() && (*left) is Node {
                let lsp = left.search_path(r);
                lemma_sub_cons(t, false, lsp);
                lemma_search_below(*left, r, lo, Some(key.rank()));
                lemma_last_turn_cons(false, lsp, true);
                if let Some(j) = last_turn(lsp, true) {
                    lemma_last_turn_bound(lsp, true);
                    assert(sp.subrange(0, j + 1) =~= seq![false] + lsp.subrange(0, j));
                    lemma_sub_cons(t, false, lsp.subrange(0, j));
                }
            } else if r > key.rank() && (*right) is Node {
                let rsp = right.search_path(r);
                lemma_sub_cons(t, true, rsp);
                lemma_search_below(*right, r, Some(key.rank()), hi);
                lemma_last_turn_cons(true, rsp, true);
                if let Some(j) = last_turn(rsp, true) {
                    lemma_last_turn_bound(rsp, true);
                    assert(sp.subrange(0, j + 1) =~= seq![true] + rsp.subrange(0, j));
                    lemma_sub_cons(t, true, rsp.subrange(0, j));
                } else {
                    assert(sp.subrange(0, 0) =~= Seq::<bool>::empty());
                }
            } else if r < key.rank() {
                assert(left.to_map() =~= Map::empty());
            }
        },
    }
}

/// The keys of a subtree are keys of the tree.
pub proof fn lemma_sub_map<K, V>(t: Shape<K, V>, p: Seq<bool>)
    ensures
        t.sub(p).to_map().dom().subset_of(t.to_map().dom()),
    decreases p.len(),
{
    if p.len() > 0 {
        match t {
            Shape::Leaf => {
                lemma_sub_leaf::<K, V>(p.drop_first());
            },
            Shape::Node { left, right, .. } => {
                lemma_sub_map(*left, p.drop_first());
                lemma_sub_map(*right, p.drop_first());
            },
        }
    }
}

/// Hanging a subtree with other keys into an empty position adds its entries.
pub proof fn lemma_replace_leaf_map<K, V>(t: Shape<K, V>, p: Seq<bool>, s: Shape<K, V>)
    requires
        t.position(p),
        t.sub(p) is Leaf,
        t.to_map().dom().disjoint(s.to_map().dom()),
    ensures
        t.replace(p, s).to_map() =~= t.to_map().union_prefer_right(s.to_map()),
    decreases p.len(),
{
    if p.len() == 0 {
        assert(t.to_map() =~= Map::<K, V>::empty());
    } else {
        lemma_position_first(t, p);
        match t {
            Shape::Leaf => {},
            Shape::Node { left, key, value, right, .. } => {
                let q = p.drop_first();
                let c = t.child(p[0]);
                assert(t.sub(p) == c.sub(q));
                assert(c.to_map().dom().subset_of(t.to_map().dom()));
                lemma_replace_leaf_map(c, q, s);
                assert(t.to_map().dom().contains(key));
            },
        }
    }
}

/// The right spine goes right at every step.
pub proof fn lemma_rightmost_all_right<K, V>(t: Shape<K, V>)
    ensures
        forall|i: int| 0 <= i < t.rightmost().len() ==> t.rightmost()[i],
    decreases t,
{
    match t {
        Shape::Leaf => {},
        Shape::Node { right, .. } => {
            lemma_rightmost_all_right(*right);
            if (*right) is Node {
                assert forall|i: int| 0 <= i < t.rightmost().len() implies t.rightmost()[i] by {
                    if i > 0 {
                        assert(t.rightmost()[i] == right.rightmost()[i - 1]);
                    }
                }
            }
        },
    }
}

/// Below a node of the right spine, the order bounds a position by that
/// node's key from below only.
pub proof fn lemma_bounds_right_spine<K: OrderedKey, V>(t: Shape<K, V>, q: Seq<bool>, lo: Option<int>)
    requires
        t.sub(q) is Node,
        forall|i: int| 0 <= i < q.len() ==> q[i],
    ensures
        t.bounds_at(q.push(true), lo, None) == (Some(t.sub(q)->key.rank()), None::<int>),
    decreases q.len(),
{
    let qr = q.push(true);
    assert(qr[0] == true);
    match t {
        Shape::Leaf => {
            lemma_sub_leaf::<K, V>(q);
        },
        Shape::Node { right, key, .. } => {
            if q.len() == 0 {
                assert(qr.drop_first() =~= Seq::<bool>::empty());
                assert(t.bounds_at(qr, lo, None) == right.bounds_at(qr.drop_first(), Some(key.rank()), None));
            } else {
                assert(qr.drop_first() =~= q.drop_first().push(true));
                assert(q[0]);
                assert(t.sub(q) == right.sub(q.drop_first()));
                lemma_bounds_right_spine(*right, q.drop_first(), Some(key.rank()));
            }
        },
    }
}

/// Putting back the subtree found at a position changes nothing.
pub proof fn lemma_replace_own<K, V>(t: Shape<K, V>, p: Seq<bool>)
    requires
        t.position(p),
    ensures
        t.replace(p, t.sub(p)) == t,
    decreases p.len(),
{
    if p.len() > 0 {
        lemma_position_first(t, p);
        lemma_replace_own(t.child(p[0]), p.drop_first());
    }
}

} // verus!
