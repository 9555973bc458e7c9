# geotrees

Binary trees for geometric and search algorithms, written in Verus and verified.

- `binary_tree`: a binary tree whose nodes live in an arena, with cursors that walk,
  edit and rotate it; every operation states what it does to the nodes and their links.
  The slot of a removed node is reused by the next node added.
- `traversal`: inorder, preorder and postorder sequences, subtrees, and a text layout.
- `neighbors`: the inorder neighbors that the cursors move to are the nodes next to a node
  in the inorder sequence.
- `balance`: black heights, and the steps of the insertion fixup that keep them equal.
- `serialization`: trees written out as nested nodes, and built back from them.
- `red_black_node`: a red-black search tree of boxed nodes, as a map from keys to values.
- `red_black_tree`: a red-black search tree kept in a `BinaryTree`, as a map; checks for
  search order and the red-black rules.
- `semigroup_rb_tree`: a red-black search tree that keeps at every node a value computed
  from its key and its children's values (subtree sizes, key intervals, pairs of these),
  kept right by every insertion and removal.
- `cartesian_tree`: min- and max-Cartesian trees built from a sequence.
- `search_map`, `order`, `side`: the map view of search trees, the order on keys, sides
  and small shared types.

`src/` is the verified library, `tests/` runs it, and `app/` adds text output and serde
support around it.
