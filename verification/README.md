# splay_tree

A splay tree whose nodes live in a growable arena and link to each other by
slot index (left child, right child, parent). Every access splays the node it
reaches to the root with zig, zig-zig and zig-zag rotations. A lookup of an
absent key splays the largest key below it (or, with none, the smallest key);
a deletion lets the largest smaller key rise by zig-zig steps.

The library is verified with Verus. Each operation is specified twice over:
by the map of entries it leaves (`tree@`) and the key it leaves at the root,
and, exactly, by the shape it leaves (`tree.structure()`).

Layout of `src/`:

- `key.rs`: `OrderedKey`, the key order (an integer rank with a three-way
  comparison), implemented for the primitive integer types.
- `shape.rs`: the mathematical shape of a tree, paths, rotations, splaying,
  search, and the lemmas about them.
- `node.rs`: entries, arena nodes, and what it means for the arena to hold a
  shape.
- `neighbours.rs`: predecessor, successor, smallest and largest key of a map.
- `splay_tree.rs`: the tree and its operations.
- `laws.rs`: laws that relate the operations.
