# orx_tree

A tree whose nodes live in one growing storage, each node knowing its parent
and its ordered children. Every operation is verified with Verus against an
abstract view of the tree (`TreeView`): growth (`push_child`, `push_parent`,
`push_child_tree`, moves within the tree), removal (`prune`, `take_out`,
`into_walk`, `into_subtree`), traversal (`Dfs`, `Bfs`, `PostOrder` walks,
leaves, paths, ancestors) and memory reclaim under the `Lazy`, `Auto` and
`AutoWithThreshold<D>` policies.

Layout of `src/`:

- `tree.rs`: the storage, its view and its well-formedness invariant.
- `node_idx.rs`, `node.rs`: node indices (valid until their node is removed
  or the storage is reorganized) and shared nodes.
- `node_ref.rs`, `iter.rs`, `traversal.rs`, `custom.rs`: queries and walks.
- `node_mut.rs`, `append.rs`, `subtrees.rs`, `within.rs`, `recursive.rs`:
  mutations.
- `memory.rs`, `reclaim.rs`: memory policies and reclaiming closed positions.
- `subtree.rs`, `permutation.rs`, `roundtrip.rs`, `shape.rs`: the proofs
  about depth-first, post-order and breadth-first orders, depth-first
  sequences and well-formedness.
- `laws.rs`, `walks.rs`: properties that relate several operations, among
  them that policy changes and memory reclaims keep every walk.

Storage. Nodes live in a `Vec` of slots; a removed node leaves a closed
slot until the memory policy reclaims closed slots by moving the active
nodes to the front. The capacity that `memory_utilization` reports is that
of this `Vec`. A node index records a position and a memory state; it does
not record which tree made it, so an index of another tree with the same
position and state is taken as an index of this one.
