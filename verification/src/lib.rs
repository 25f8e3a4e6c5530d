//! A tree whose nodes live in one growing storage, with verified growth,
//! removal, traversal and memory-reclaim operations.
use vstd::prelude::*;

pub mod append;
pub mod custom;
pub mod iter;
pub mod laws;
pub mod memory;
pub mod node;
pub mod node_idx;
pub mod node_mut;
pub mod node_ref;
pub mod order_laws;
pub mod permutation;
pub mod reclaim;
pub mod recursive;
pub mod roundtrip;
pub mod shape;
pub mod siblings;
pub mod subtree;
pub mod subtrees;
pub mod traversal;
pub mod tree;
pub mod walk_laws;
pub mod walks;
pub mod within;

pub use iter::{
    Enumerator, EnumeratorDepth, EnumeratorDepthSibling, EnumeratorNone, EnumeratorSibling, IterKind,
    IterOver, NodeDepthSiblingVal, NodeDepthVal, NodeVal, NodeValue, NodeValueData, NodeValueNode,
    NodeValuePtr, OverData, OverDepthData, OverDepthNode, OverDepthPtr, OverDepthSiblingData,
    OverDepthSiblingNode, OverDepthSiblingPtr, OverNode, OverPtr,
};
pub use memory::{Auto, AutoWithThreshold, Lazy, MemoryPolicy, Utilization};
pub use node::Node;
pub use node_idx::{NodeIdx, NodeIdxError};
pub use node_mut::{NodeMutDown, NodeMutOrientation, NodeMutUpAndDown, Side};
pub use subtrees::{ClonedSubTree, CopiedSubTree, MovedSubTree, SubTree};
pub use within::MovedSubTreeWithin;
pub use traversal::{Bfs, Dfs, PostOrder, Traverser};
pub use tree::Tree;

verus! {
} // verus!
