//! Entries, arena nodes, and how a vector of nodes linked by slot indices
//! represents a `Shape`.
use vstd::prelude::*;
use crate::key::OrderedKey;
use crate::shape::Shape;
use crate::shape::lemma_position_first;
use crate::shape::lemma_sub_idxs;
use crate::shape::lemma_replace_keeps_top;
use crate::shape::lemma_node_idxs;

verus! {

/// A single entry in the tree: a key and its value.
#[derive(Debug, Clone)]
pub struct Entry<K, V> {
    pub(crate) key: K,
    pub(crate) value: V,
}

impl<K, V> View for Entry<K, V> {
    type V = (K, V);

    closed spec fn view(&self) -> (K, V) {
        (self.key, self.value)
    }
}

impl<K, V> Entry<K, V> {
    /// Retrieve the key in this entry.
    pub fn key(&self) -> (r: &K)
        ensures
            *r == self@.0,
    {
        &self.key
    }

    /// Retrieve the value in this entry.
    pub fn value(&self) -> (r: &V)
        ensures
            *r == self@.1,
    {
        &self.value
    }
}

impl<K, V> From<(K, V)> for Entry<K, V> {
    /// Builds an entry from a key-value pair.
    fn from(e: (K, V)) -> (r: Self)
        ensures
            r@ == e,
    {
        Entry { key: e.0, value: e.1 }
    }
}

impl<K, V> vstd::std_specs::convert::FromSpecImpl<(K, V)> for Entry<K, V> {
    open spec fn obeys_from_spec() -> bool {
        true
    }

    closed spec fn from_spec(v: (K, V)) -> Self {
        Entry { key: v.0, value: v.1 }
    }
}

/// A single node of the arena: an entry and the slots of its left child,
/// right child and parent.
#[derive(Debug)]
pub struct SplayNode<K, V> {
    pub(crate) entry: Entry<K, V>,
    pub(crate) left: Option<usize>,
    pub(crate) right: Option<usize>,
    pub(crate) parent: Option<usize>,
}

impl<K, V> View for SplayNode<K, V> {
    /// The entry, then the slots of the left child, the right child and the parent.
    type V = ((K, V), Option<usize>, Option<usize>, Option<usize>);

    closed spec fn view(&self) -> ((K, V), Option<usize>, Option<usize>, Option<usize>) {
        (self.entry@, self.left, self.right, self.parent)
    }
}

impl<K, V> SplayNode<K, V> {
    /// Create a new node holding the given entry, linked to nothing.
    pub fn new(entry: Entry<K, V>) -> (r: Self)
        ensures
            r@ == (entry@, None::<usize>, None::<usize>, None::<usize>),
    {
        SplayNode { entry, left: None, right: None, parent: None }
    }

    /// Retrieve the key in this node.
    pub fn key(&self) -> (r: &K)
        ensures
            *r == self@.0.0,
    {
        &self.entry.key
    }

    /// Retrieve the entry in this node.
    pub fn entry(&self) -> (r: &Entry<K, V>)
        ensures
            r@ == self@.0,
    {
        &self.entry
    }

    /// The slot of the left child.
    pub fn left(&self) -> (r: Option<usize>)
        ensures
            r == self@.1,
    {
        self.left
    }

    /// The slot of the right child.
    pub fn right(&self) -> (r: Option<usize>)
        ensures
            r == self@.2,
    {
        self.right
    }

    /// The slot of the parent.
    pub fn parent(&self) -> (r: Option<usize>)
        ensures
            r == self@.3,
    {
        self.parent
    }
}

/// The view of an entry is its key and value.
pub(crate) broadcast proof fn lemma_entry_view<K, V>(e: Entry<K, V>)
    ensures
        #[trigger] e@ == (e.key, e.value),
{
}

/// The view of a node is its entry and its three links.
pub(crate) broadcast proof fn lemma_node_view<K, V>(n: SplayNode<K, V>)
    ensures
        #[trigger] n@ == (n.entry@, n.left, n.right, n.parent),
{
}

/// The arena holds the shape `t`, as seen through the nodes' views: each node
/// of `t` sits in its slot with its entry, the slots of its children, and
/// `par`, the slot of its parent, for the top node.
pub open spec fn holds<K, V>(arena: Seq<SplayNode<K, V>>, t: Shape<K, V>, par: Option<usize>) -> bool
    decreases t,
{
    match t {
        Shape::Leaf => true,
        Shape::Node { left, idx, key, value, right } => {
            &&& idx < arena.len()
            &&& arena[idx as int]@ == ((key, value), left.link(), right.link(), par)
            &&& holds(arena, *left, Some(idx))
            &&& holds(arena, *right, Some(idx))
        },
    }
}

/// A linked shape is held by the arena.
pub(crate) proof fn lemma_linked_holds<K, V>(
    nodes: Seq<SplayNode<K, V>>,
    t: Shape<K, V>,
    par: Option<usize>,
)
    requires
        linked(nodes, t, par),
    ensures
        holds(nodes, t, par),
    decreases t,
{
    match t {
        Shape::Leaf => {},
        Shape::Node { left, idx, right, .. } => {
            lemma_linked_holds(nodes, *left, Some(idx));
            lemma_linked_holds(nodes, *right, Some(idx));
        },
    }
}

/// The nodes hold the shape `t`: each node of `t` sits in its slot with its
/// entry, and its child and parent links agree with `t`; `par` is the parent
/// link of the top node.
pub(crate) open spec fn linked<K, V>(
    nodes: Seq<SplayNode<K, V>>,
    t: Shape<K, V>,
    par: Option<usize>,
) -> bool
    decreases t,
{
    match t {
        Shape::Leaf => true,
        Shape::Node { left, idx, key, value, right } => {
            &&& idx < nodes.len()
            &&& nodes[idx as int].entry == (Entry { key, value })
            &&& nodes[idx as int].parent == par
            &&& nodes[idx as int].left == left.link()
            &&& nodes[idx as int].right == right.link()
            &&& linked(nodes, *left, Some(idx))
            &&& linked(nodes, *right, Some(idx))
        },
    }
}

/// The nodes hold `t` as a whole tree: linked from a parentless top,
/// without repeated slots, and in search-tree order.
pub(crate) open spec fn tree_ok<K: OrderedKey, V>(nodes: Seq<SplayNode<K, V>>, t: Shape<K, V>) -> bool {
    &&& linked(nodes, t, None)
    &&& t.distinct()
    &&& t.ordered(None, None)
}

/// Node `q` is unchanged from `n1` to `n2` but for its child in direction
/// `d`, which is now `l`.
pub(crate) open spec fn relinked<K, V>(
    n1: Seq<SplayNode<K, V>>,
    n2: Seq<SplayNode<K, V>>,
    q: usize,
    d: bool,
    l: Option<usize>,
) -> bool {
    &&& q < n1.len()
    &&& q < n2.len()
    &&& n2[q as int].entry == n1[q as int].entry
    &&& n2[q as int].parent == n1[q as int].parent
    &&& if d {
        n2[q as int].left == n1[q as int].left && n2[q as int].right == l
    } else {
        n2[q as int].right == n1[q as int].right && n2[q as int].left == l
    }
}

/// The slots of a linked shape lie inside the vector.
pub(crate) proof fn lemma_linked_idxs<K, V>(
    nodes: Seq<SplayNode<K, V>>,
    t: Shape<K, V>,
    par: Option<usize>,
)
    requires
        linked(nodes, t, par),
    ensures
        forall|j: usize| #[trigger] t.idxs().contains(j) ==> j < nodes.len(),
    decreases t,
{
    match t {
        Shape::Leaf => {},
        Shape::Node { left, right, .. } => {
            lemma_node_idxs(t);
            lemma_linked_idxs(nodes, *left, Some(t->idx));
            lemma_linked_idxs(nodes, *right, Some(t->idx));
        },
    }
}

/// A linked shape stays linked when the nodes in its slots are unchanged.
pub(crate) proof fn lemma_linked_frame<K, V>(
    n1: Seq<SplayNode<K, V>>,
    n2: Seq<SplayNode<K, V>>,
    t: Shape<K, V>,
    par: Option<usize>,
)
    requires
        linked(n1, t, par),
        forall|j: usize| #[trigger] t.idxs().contains(j) ==> j < n2.len() && n2[j as int] == n1[j as int],
    ensures
        linked(n2, t, par),
    decreases t,
{
    match t {
        Shape::Leaf => {},
        Shape::Node { left, idx, right, .. } => {
            lemma_node_idxs(t);
            lemma_linked_frame(n1, n2, *left, Some(idx));
            lemma_linked_frame(n1, n2, *right, Some(idx));
        },
    }
}

/// A linked shape whose top node now points to a new parent.
pub(crate) proof fn lemma_linked_reparent<K, V>(
    n1: Seq<SplayNode<K, V>>,
    n2: Seq<SplayNode<K, V>>,
    t: Shape<K, V>,
    par: Option<usize>,
    par2: Option<usize>,
)
    requires
        linked(n1, t, par),
        t.distinct(),
        t matches Shape::Node { idx, .. } ==> {
            &&& idx < n2.len()
            &&& n2[idx as int].entry == n1[idx as int].entry
            &&& n2[idx as int].left == n1[idx as int].left
            &&& n2[idx as int].right == n1[idx as int].right
            &&& n2[idx as int].parent == par2
        },
        forall|j: usize| #[trigger]
            t.idxs().contains(j) && Some(j) != t.link() ==> j < n2.len() && n2[j as int] == n1[j as int],
    ensures
        linked(n2, t, par2),
{
    match t {
        Shape::Leaf => {},
        Shape::Node { left, idx, right, .. } => {
            lemma_node_idxs(t);
            lemma_linked_frame(n1, n2, *left, Some(idx));
            lemma_linked_frame(n1, n2, *right, Some(idx));
        },
    }
}

/// The subtree at any path is linked to the parent of its position.
pub(crate) proof fn lemma_linked_sub<K, V>(
    nodes: Seq<SplayNode<K, V>>,
    t: Shape<K, V>,
    par: Option<usize>,
    p: Seq<bool>,
)
    requires
        linked(nodes, t, par),
    ensures
        linked(nodes, t.sub(p), t.parent_at(p, par)),
    decreases p.len(),
{
    if p.len() > 0 {
        match t {
            Shape::Leaf => {
                crate::shape::lemma_sub_leaf::<K, V>(p);
            },
            Shape::Node { left, idx, right, .. } => {
                let q = p.drop_first();
                let c = t.child(p[0]);
                assert(t.sub(p) == c.sub(q));
                lemma_linked_sub(nodes, c, Some(idx), q);
                if q.len() == 0 {
                    assert(p.drop_last() =~= Seq::<bool>::empty());
                } else {
                    assert(p.drop_last() =~= seq![p[0]] + q.drop_last());
                    crate::shape::lemma_sub_cons(t, p[0], q.drop_last());
                }
            },
        }
    }
}

/// Replacing the subtree at a position: if the new subtree is linked below
/// the same parent, every other node outside the old subtree is unchanged and
/// the parent points to the new subtree, the whole shape is linked.
pub(crate) proof fn lemma_linked_replace<K, V>(
    n1: Seq<SplayNode<K, V>>,
    n2: Seq<SplayNode<K, V>>,
    t: Shape<K, V>,
    par: Option<usize>,
    p: Seq<bool>,
    s: Shape<K, V>,
)
    requires
        linked(n1, t, par),
        t.distinct(),
        t.position(p),
        linked(n2, s, t.parent_at(p, par)),
        forall|j: usize| #[trigger]
            t.idxs().contains(j) && !t.sub(p).idxs().contains(j) && Some(j) != t.parent_at(p, par)
                ==> j < n2.len() && n2[j as int] == n1[j as int],
        p.len() > 0 ==> relinked(n1, n2, t.sub(p.drop_last())->idx, p.last(), s.link()),
    ensures
        linked(n2, t.replace(p, s), par),
    decreases p.len(),
{
    if p.len() > 0 {
        lemma_position_first(t, p);
        lemma_node_idxs(t);
        let i = t->idx;
        let d = p[0];
        let c = t.child(d);
        let o = t.child(!d);
        let q = p.drop_first();
        assert(t.sub(p) == c.sub(q));
        lemma_sub_idxs(c, q);
        assert(c.idxs().disjoint(o.idxs()));
        assert(!c.idxs().contains(i));
        assert(!o.idxs().contains(i));
        if q.len() == 0 {
            assert(p.drop_last() =~= Seq::<bool>::empty());
            assert(t.parent_at(p, par) == Some(i));
            assert(t.replace(p, s) == t.with_child(d, s));
            assert(p.last() == d);
            assert forall|j: usize| #[trigger] o.idxs().contains(j) implies j < n2.len() && n2[j as int]
                == n1[j as int] by {
                assert(t.idxs().contains(j));
            }
            lemma_linked_frame(n1, n2, o, Some(i));
        } else {
            assert(q.last() == p.last());
            assert(c.parent_at(q, Some(i)) == t.parent_at(p, par));
            lemma_sub_idxs(c, q.drop_last());
            assert forall|j: usize| #[trigger]
                c.idxs().contains(j) && !c.sub(q).idxs().contains(j) && Some(j) != c.parent_at(
                    q,
                    Some(i),
                ) implies j < n2.len() && n2[j as int] == n1[j as int] by {
                assert(t.idxs().contains(j));
            }
            lemma_linked_replace(n1, n2, c, Some(i), q, s);
            lemma_replace_keeps_top(c, q, s);
            assert(t.idxs().contains(i));
            assert(t.replace(p, s) == t.with_child(d, c.replace(q, s)));
            assert forall|j: usize| #[trigger] o.idxs().contains(j) implies j < n2.len() && n2[j as int]
                == n1[j as int] by {
                assert(t.idxs().contains(j));
            }
            lemma_linked_frame(n1, n2, o, Some(i));
        }
    }
}

} // verus!
