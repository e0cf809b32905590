# red_black_tree

A map from keys to values kept as a binary search tree whose nodes carry
red-black colors and live in a fixed-capacity arena (`NodeAllocator`), referring
to one another by `u32` slot index, slot `0` being the empty link. Every
operation is verified with Verus against a model of the tree as a `Map`, and
insertion and removal are also stated step by step: which nodes are recolored
and where the tree is rotated. Those recoloring steps keep the search order and
the map; they do not keep the red-black balance rules in every case, and no
balance property is claimed.

- `src/key_order.rs`: the total order asked of keys, stated over `PartialOrd`.
- `src/node_allocator.rs`: the arena: four registers and a value per slot, a
  free list reused last-freed first.
- `src/red_black_tree.rs`: the tree, its well-formedness invariant, insertion,
  removal, lookup, traversal, and the lemmas behind them.
- `src/laws.rs`: laws relating the operations (read after write, undoing an
  insertion or a removal, sizes, traversal order).
- `tests/`: tests on concrete values.
