use vstd::prelude::*;

use crate::memory::MemoryPolicy;
use crate::node::Node;
use crate::node_idx::NodeIdx;
use crate::traversal::Traverser;
use crate::tree::Tree;

verus! {

/// The value that a walk yields for each visited node.
pub trait NodeValue<'a, T: 'a, M: MemoryPolicy + 'a> {
    /// Type of the yielded value.
    type Value;

    /// Whether `v` is the value yielded for the node at position `pos`.
    spec fn value_ok(tree: &'a Tree<T, M>, pos: int, v: Self::Value) -> bool;

    /// The value yielded for the node at position `pos`.
    fn value(tree: &'a Tree<T, M>, pos: usize) -> (r: Self::Value)
        requires
            tree.wf(),
            tree@.active(pos as int),
        ensures
            Self::value_ok(tree, pos as int, r),
    ;
}

/// Yields the index of each visited node.
pub struct NodeValuePtr;

impl<'a, T: 'a, M: MemoryPolicy + 'a> NodeValue<'a, T, M> for NodeValuePtr {
    type Value = NodeIdx;

    open spec fn value_ok(tree: &'a Tree<T, M>, pos: int, v: NodeIdx) -> bool {
        tree.idx_at(v, pos)
    }

    fn value(tree: &'a Tree<T, M>, pos: usize) -> (r: NodeIdx) {
        NodeIdx { pos, state: tree.state }
    }
}

/// Yields each visited node.
pub struct NodeValueNode;

impl<'a, T: 'a, M: MemoryPolicy + 'a> NodeValue<'a, T, M> for NodeValueNode {
    type Value = Node<'a, T, M>;

    open spec fn value_ok(tree: &'a Tree<T, M>, pos: int, v: Node<'a, T, M>) -> bool {
        v.spec_tree() == tree && tree.idx_at(v.spec_idx(), pos)
    }

    fn value(tree: &'a Tree<T, M>, pos: usize) -> (r: Node<'a, T, M>) {
        tree.node(&NodeIdx { pos, state: tree.state })
    }
}

/// Yields a reference to the data of each visited node.
pub struct NodeValueData;

impl<'a, T: 'a, M: MemoryPolicy + 'a> NodeValue<'a, T, M> for NodeValueData {
    type Value = &'a T;

    open spec fn value_ok(tree: &'a Tree<T, M>, pos: int, v: &'a T) -> bool {
        *v == tree@.data(pos)
    }

    fn value(tree: &'a Tree<T, M>, pos: usize) -> (r: &'a T) {
        tree.data(&NodeIdx { pos, state: tree.state })
    }
}

/// The element that a walk yields for each visited node: the node's value,
/// possibly together with its depth and sibling index.
pub trait IterKind<'a, T: 'a, M: MemoryPolicy + 'a> {
    /// Type of the yielded element.
    type YieldElement;

    /// Whether `e` is the element yielded for the node at position `pos` in a
    /// walk started at position `start`.
    spec fn element_ok(tree: &'a Tree<T, M>, start: int, pos: int, e: Self::YieldElement) -> bool;

    /// The element yielded for the node at position `pos` in a walk started
    /// at position `start`, `pos` being in the subtree of `start`.
    fn element(tree: &'a Tree<T, M>, start: usize, pos: usize) -> (r: Self::YieldElement)
        requires
            tree.wf(),
            tree@.active(start as int),
            tree@.active(pos as int),
            tree.depth_of(pos as int) >= tree.depth_of(start as int),
        ensures
            Self::element_ok(tree, start as int, pos as int, r),
    ;
}

/// Yields the value of each node.
pub struct NodeVal<D> {
    phantom: core::marker::PhantomData<D>,
}

impl<'a, T: 'a, M: MemoryPolicy + 'a, D: NodeValue<'a, T, M>> IterKind<'a, T, M> for NodeVal<D> {
    type YieldElement = D::Value;

    open spec fn element_ok(tree: &'a Tree<T, M>, start: int, pos: int, e: D::Value) -> bool {
        D::value_ok(tree, pos, e)
    }

    fn element(tree: &'a Tree<T, M>, start: usize, pos: usize) -> (r: D::Value) {
        D::value(tree, pos)
    }
}

/// Yields the depth, relative to the start of the walk, and the value of
/// each node.
pub struct NodeDepthVal<D> {
    phantom: core::marker::PhantomData<D>,
}

impl<'a, T: 'a, M: MemoryPolicy + 'a, D: NodeValue<'a, T, M>> IterKind<'a, T, M> for NodeDepthVal<D> {
    type YieldElement = (usize, D::Value);

    open spec fn element_ok(tree: &'a Tree<T, M>, start: int, pos: int, e: (usize, D::Value)) -> bool {
        &&& e.0 == tree.depth_of(pos) - tree.depth_of(start)
        &&& D::value_ok(tree, pos, e.1)
    }

    fn element(tree: &'a Tree<T, M>, start: usize, pos: usize) -> (r: (usize, D::Value)) {
        let base = tree.depth(&NodeIdx { pos: start, state: tree.state });
        let d = tree.depth(&NodeIdx { pos, state: tree.state });
        (d - base, D::value(tree, pos))
    }
}

/// Yields the depth, relative to the start of the walk, the sibling index
/// (zero for the start of the walk) and the value of each node.
pub struct NodeDepthSiblingVal<D> {
    phantom: core::marker::PhantomData<D>,
}

impl<'a, T: 'a, M: MemoryPolicy + 'a, D: NodeValue<'a, T, M>> IterKind<'a, T, M> for NodeDepthSiblingVal<D> {
    type YieldElement = (usize, usize, D::Value);

    open spec fn element_ok(tree: &'a Tree<T, M>, start: int, pos: int, e: (usize, usize, D::Value)) -> bool {
        &&& e.0 == tree.depth_of(pos) - tree.depth_of(start)
        &&& e.1 == if pos == start { 0 } else { tree@.sibling_index(pos) }
        &&& D::value_ok(tree, pos, e.2)
    }

    fn element(tree: &'a Tree<T, M>, start: usize, pos: usize) -> (r: (usize, usize, D::Value)) {
        let j = NodeIdx { pos, state: tree.state };
        let base = tree.depth(&NodeIdx { pos: start, state: tree.state });
        let d = tree.depth(&j);
        let s = if pos == start { 0 } else { tree.sibling_idx(&j) };
        (d - base, s, D::value(tree, pos))
    }
}

/// Selects what a walk yields for each visited node.
pub trait IterOver<'a, T: 'a, M: MemoryPolicy + 'a> {
    /// The element kind of the walk.
    type Kind: IterKind<'a, T, M>;
}

/// Walks over the data of the nodes.
pub struct OverData;

/// Walks over the nodes.
pub struct OverNode;

/// Walks over the indices of the nodes.
pub struct OverPtr;

/// Walks over the (depth, data) pairs of the nodes.
pub struct OverDepthData;

/// Walks over the (depth, node) pairs of the nodes.
pub struct OverDepthNode;

/// Walks over the (depth, index) pairs of the nodes.
pub struct OverDepthPtr;

/// Walks over the (depth, sibling index, data) triples of the nodes.
pub struct OverDepthSiblingData;

/// Walks over the (depth, sibling index, node) triples of the nodes.
pub struct OverDepthSiblingNode;

/// Walks over the (depth, sibling index, index) triples of the nodes.
pub struct OverDepthSiblingPtr;

impl<'a, T: 'a, M: MemoryPolicy + 'a> IterOver<'a, T, M> for OverData {
    type Kind = NodeVal<NodeValueData>;
}

impl<'a, T: 'a, M: MemoryPolicy + 'a> IterOver<'a, T, M> for OverNode {
    type Kind = NodeVal<NodeValueNode>;
}

impl<'a, T: 'a, M: MemoryPolicy + 'a> IterOver<'a, T, M> for OverPtr {
    type Kind = NodeVal<NodeValuePtr>;
}

impl<'a, T: 'a, M: MemoryPolicy + 'a> IterOver<'a, T, M> for OverDepthData {
    type Kind = NodeDepthVal<NodeValueData>;
}

impl<'a, T: 'a, M: MemoryPolicy + 'a> IterOver<'a, T, M> for OverDepthNode {
    type Kind = NodeDepthVal<NodeValueNode>;
}

impl<'a, T: 'a, M: MemoryPolicy + 'a> IterOver<'a, T, M> for OverDepthPtr {
    type Kind = NodeDepthVal<NodeValuePtr>;
}

impl<'a, T: 'a, M: MemoryPolicy + 'a> IterOver<'a, T, M> for OverDepthSiblingData {
    type Kind = NodeDepthSiblingVal<NodeValueData>;
}

impl<'a, T: 'a, M: MemoryPolicy + 'a> IterOver<'a, T, M> for OverDepthSiblingNode {
    type Kind = NodeDepthSiblingVal<NodeValueNode>;
}

impl<'a, T: 'a, M: MemoryPolicy + 'a> IterOver<'a, T, M> for OverDepthSiblingPtr {
    type Kind = NodeDepthSiblingVal<NodeValuePtr>;
}

/// Attaches enumeration information (depth, sibling index, both or none) to
/// node indices.
pub trait Enumerator {
    /// Type of an enumerated index.
    type Output;

    /// Whether `o` enumerates the index `idx` of a node at relative `depth`
    /// with the given `sibling` index.
    spec fn output_ok(idx: NodeIdx, depth: usize, sibling: usize, o: Self::Output) -> bool;

    /// Enumerates the index `idx` of a node at relative `depth` with the given
    /// `sibling` index.
    fn output(idx: NodeIdx, depth: usize, sibling: usize) -> (r: Self::Output)
        ensures
            Self::output_ok(idx, depth, sibling, r),
    ;
}

/// No enumeration: the index alone.
pub struct EnumeratorNone;

impl Enumerator for EnumeratorNone {
    type Output = NodeIdx;

    open spec fn output_ok(idx: NodeIdx, depth: usize, sibling: usize, o: NodeIdx) -> bool {
        o == idx
    }

    fn output(idx: NodeIdx, depth: usize, sibling: usize) -> (r: NodeIdx) {
        idx
    }
}

/// The depth and the index.
pub struct EnumeratorDepth;

impl Enumerator for EnumeratorDepth {
    type Output = (usize, NodeIdx);

    open spec fn output_ok(idx: NodeIdx, depth: usize, sibling: usize, o: (usize, NodeIdx)) -> bool {
        o == (depth, idx)
    }

    fn output(idx: NodeIdx, depth: usize, sibling: usize) -> (r: (usize, NodeIdx)) {
        (depth, idx)
    }
}

/// The sibling index and the index.
pub struct EnumeratorSibling;

impl Enumerator for EnumeratorSibling {
    type Output = (usize, NodeIdx);

    open spec fn output_ok(idx: NodeIdx, depth: usize, sibling: usize, o: (usize, NodeIdx)) -> bool {
        o == (sibling, idx)
    }

    fn output(idx: NodeIdx, depth: usize, sibling: usize) -> (r: (usize, NodeIdx)) {
        (sibling, idx)
    }
}

/// The depth, the sibling index and the index.
pub struct EnumeratorDepthSibling;

impl Enumerator for EnumeratorDepthSibling {
    type Output = (usize, usize, NodeIdx);

    open spec fn output_ok(idx: NodeIdx, depth: usize, sibling: usize, o: (usize, usize, NodeIdx)) -> bool {
        o == (depth, sibling, idx)
    }

    fn output(idx: NodeIdx, depth: usize, sibling: usize) -> (r: (usize, usize, NodeIdx)) {
        (depth, sibling, idx)
    }
}

impl<T, M: MemoryPolicy> Tree<T, M> {
    /// The elements selected by `O` for the nodes of the subtree rooted at the
    /// node, in the order of the traverser `Tr`.
    pub fn walk_with<'a, Tr: Traverser<T, M>, O: IterOver<'a, T, M>>(&'a self, idx: &NodeIdx) -> (r: Vec<
        <O::Kind as IterKind<'a, T, M>>::YieldElement,
    >) where T: 'a, M: 'a
        requires
            self.wf(),
            self.valid_idx(*idx),
        ensures
            r@.len() == Tr::spec_order(self, idx.spec_pos() as int).len(),
            forall|k: int|
                0 <= k < r@.len() ==> <O::Kind as IterKind<'a, T, M>>::element_ok(
                    self,
                    idx.spec_pos() as int,
                    Tr::spec_order(self, idx.spec_pos() as int)[k] as int,
                    #[trigger] r@[k],
                ),
    {
        let order = Tr::order(self, idx.pos);
        let mut out: Vec<<O::Kind as IterKind<'a, T, M>>::YieldElement> = Vec::new();
        let mut k: usize = 0;
        while k < order.len()
            invariant
                self.wf(),
                self.valid_idx(*idx),
                k <= order@.len(),
                order@ == Tr::spec_order(self, idx.spec_pos() as int),
                forall|x: int| 0 <= x < order@.len() ==> self@.active(#[trigger] order@[x] as int)
                    && self.depth_of(order@[x] as int) >= self.depth_of(idx.spec_pos() as int),
                out@.len() == k,
                forall|x: int|
                    0 <= x < k ==> <O::Kind as IterKind<'a, T, M>>::element_ok(
                        self,
                        idx.spec_pos() as int,
                        order@[x] as int,
                        #[trigger] out@[x],
                    ),
            decreases order@.len() - k,
        {
            let e = <O::Kind as IterKind<'a, T, M>>::element(self, idx.pos, order[k]);
            out.push(e);
            k = k + 1;
        }
        out
    }

    /// The elements selected by `O` for the leaves of the subtree rooted at
    /// the node, in the order of the traverser `Tr`.
    pub fn leaves_with<'a, Tr: Traverser<T, M>, O: IterOver<'a, T, M>>(&'a self, idx: &NodeIdx) -> (r: Vec<
        <O::Kind as IterKind<'a, T, M>>::YieldElement,
    >) where T: 'a, M: 'a
        requires
            self.wf(),
            self.valid_idx(*idx),
        ensures
            r@.len() == self.leaves_of(Tr::spec_order(self, idx.spec_pos() as int)).len(),
            forall|k: int|
                0 <= k < r@.len() ==> <O::Kind as IterKind<'a, T, M>>::element_ok(
                    self,
                    idx.spec_pos() as int,
                    self.leaves_of(Tr::spec_order(self, idx.spec_pos() as int))[k] as int,
                    #[trigger] r@[k],
                ),
    {
        let order = Tr::order(self, idx.pos);
        let mut out: Vec<<O::Kind as IterKind<'a, T, M>>::YieldElement> = Vec::new();
        let mut k: usize = 0;
        let ghost mut taken: Seq<usize> = Seq::empty();
        proof {
            assert(order@.take(0) =~= Seq::<usize>::empty());
            reveal(Seq::filter);
        }
        while k < order.len()
            invariant
                self.wf(),
                self.valid_idx(*idx),
                k <= order@.len(),
                order@ == Tr::spec_order(self, idx.spec_pos() as int),
                forall|x: int| 0 <= x < order@.len() ==> self@.active(#[trigger] order@[x] as int)
                    && self.depth_of(order@[x] as int) >= self.depth_of(idx.spec_pos() as int),
                taken == self.leaves_of(order@.take(k as int)),
                forall|x: int| 0 <= x < taken.len() ==> self@.active(#[trigger] taken[x] as int)
                    && self.depth_of(taken[x] as int) >= self.depth_of(idx.spec_pos() as int),
                out@.len() == taken.len(),
                forall|x: int|
                    0 <= x < taken.len() ==> <O::Kind as IterKind<'a, T, M>>::element_ok(
                        self,
                        idx.spec_pos() as int,
                        taken[x] as int,
                        #[trigger] out@[x],
                    ),
            decreases order@.len() - k,
        {
            let j = order[k];
            proof {
                reveal(Seq::filter);
                assert(order@.take(k + 1).drop_last() =~= order@.take(k as int));
                assert(order@.take(k + 1).last() == j);
            }
            if self.nodes[j].children.len() == 0 {
                out.push(<O::Kind as IterKind<'a, T, M>>::element(self, idx.pos, j));
                proof {
                    taken = taken.push(j);
                }
            }
            k = k + 1;
        }
        proof {
            assert(order@.take(k as int) =~= order@);
        }
        out
    }

    /// For each leaf of the subtree rooted at the node, in the order of the
    /// traverser `Tr`, the values selected by `D` for the nodes on the path
    /// from the leaf up to the node.
    pub fn paths_with<'a, Tr: Traverser<T, M>, D: NodeValue<'a, T, M>>(&'a self, idx: &NodeIdx) -> (r: Vec<
        Vec<D::Value>,
    >) where T: 'a, M: 'a
        requires
            self.wf(),
            self.valid_idx(*idx),
        ensures
            r@.len() == self.leaves_of(Tr::spec_order(self, idx.spec_pos() as int)).len(),
            forall|k: int|
                0 <= k < r@.len() ==> {
                    let leaf = self.leaves_of(Tr::spec_order(self, idx.spec_pos() as int))[k] as int;
                    let path = self.path_up(leaf, idx.spec_pos() as int);
                    &&& (#[trigger] r@[k])@.len() == path.len()
                    &&& forall|x: int| 0 <= x < path.len() ==> D::value_ok(self, path[x] as int, #[trigger] r@[k]@[x])
                },
    {
        let order = Tr::order(self, idx.pos);
        let mut out: Vec<Vec<D::Value>> = Vec::new();
        let mut k: usize = 0;
        let ghost mut taken: Seq<usize> = Seq::empty();
        proof {
            assert(order@.take(0) =~= Seq::<usize>::empty());
            reveal(Seq::filter);
        }
        while k < order.len()
            invariant
                self.wf(),
                self.valid_idx(*idx),
                k <= order@.len(),
                order@ == Tr::spec_order(self, idx.spec_pos() as int),
                forall|x: int| 0 <= x < order@.len() ==> self@.active(#[trigger] order@[x] as int),
                taken == self.leaves_of(order@.take(k as int)),
                out@.len() == taken.len(),
                forall|x: int|
                    0 <= x < taken.len() ==> {
                        let path = self.path_up(taken[x] as int, idx.spec_pos() as int);
                        &&& (#[trigger] out@[x])@.len() == path.len()
                        &&& forall|y: int| 0 <= y < path.len() ==> D::value_ok(self, path[y] as int, #[trigger] out@[x]@[y])
                    },
            decreases order@.len() - k,
        {
            let j = order[k];
            proof {
                reveal(Seq::filter);
                assert(order@.take(k + 1).drop_last() =~= order@.take(k as int));
                assert(order@.take(k + 1).last() == j);
            }
            if self.nodes[j].children.len() == 0 {
                let path = self.path_values::<D>(j, idx.pos);
                out.push(path);
                proof {
                    taken = taken.push(j);
                }
            }
            k = k + 1;
        }
        proof {
            assert(order@.take(k as int) =~= order@);
        }
        out
    }

    /// The indices of the node at `idx` and of its ancestors, from the node
    /// itself up to the node at `stop` (or up to the root if `stop` is
    /// neither the node nor one of its ancestors). Where `stop` is the node or
    /// an ancestor, the walk has one entry per level between the two, and
    /// each entry after the first is the parent of the one before.
    pub fn ancestors_up_to(&self, idx: &NodeIdx, stop: &NodeIdx) -> (r: Vec<NodeIdx>)
        requires
            self.wf(),
            self.valid_idx(*idx),
            self.valid_idx(*stop),
        ensures
            r@.len() == self.path_up(idx.spec_pos() as int, stop.spec_pos() as int).len(),
            forall|k: int|
                0 <= k < r@.len() ==> self.idx_at(
                    #[trigger] r@[k],
                    self.path_up(idx.spec_pos() as int, stop.spec_pos() as int)[k] as int,
                ),
            self.in_subtree(idx.spec_pos() as int, stop.spec_pos() as int) ==> {
                &&& r@.len() == self.depth_of(idx.spec_pos() as int) - self.depth_of(stop.spec_pos() as int) + 1
                &&& r@[0] == *idx
                &&& r@[r@.len() - 1] == *stop
                &&& forall|k: int|
                    0 <= k < r@.len() - 1 ==> self@.parent(#[trigger] r@[k].spec_pos() as int) == Some(
                        r@[k + 1].spec_pos(),
                    )
                &&& forall|k: int| 0 <= k < r@.len() ==> self.valid_idx(#[trigger] r@[k])
            },
    {
        let r = self.path_values::<NodeValuePtr>(idx.pos, stop.pos);
        proof {
            if self.in_subtree(idx.spec_pos() as int, stop.spec_pos() as int) {
                crate::laws::law_path_connects_node_to_subtree_root(
                    self,
                    stop.spec_pos() as int,
                    idx.spec_pos() as int,
                );
                let path = self.path_up(idx.spec_pos() as int, stop.spec_pos() as int);
                assert(self.idx_at(r@[0], path[0] as int));
                assert(self.idx_at(r@[r@.len() - 1], path[path.len() - 1] as int));
                assert forall|k: int| 0 <= k < r@.len() - 1 implies self@.parent(#[trigger] r@[k].spec_pos() as int)
                    == Some(r@[k + 1].spec_pos()) by {
                    assert(self.idx_at(r@[k], path[k] as int));
                    assert(self.idx_at(r@[k + 1], path[k + 1] as int));
                    assert(self@.parent(path[k] as int) == Some(path[k + 1]));
                }
                assert forall|k: int| 0 <= k < r@.len() implies self.valid_idx(#[trigger] r@[k]) by {
                    assert(self.idx_at(r@[k], path[k] as int));
                    assert(self.in_subtree(path[k] as int, stop.spec_pos() as int));
                    self.lemma_subtree_set(stop.spec_pos() as int);
                    assert(self.pre_node(stop.spec_pos() as int).to_set().contains(path[k]));
                }
            }
        }
        r
    }

    /// The values selected by `D` for the nodes on the path from the node at
    /// `from` up to the node at `to`, or up to the root if `to` is not an
    /// ancestor of `from`.
    fn path_values<'a, D: NodeValue<'a, T, M>>(&'a self, from: usize, to: usize) -> (r: Vec<D::Value>) where
        T: 'a,
        M: 'a,
        requires
            self.wf(),
            self@.active(from as int),
        ensures
            r@.len() == self.path_up(from as int, to as int).len(),
            forall|x: int|
                0 <= x < r@.len() ==> D::value_ok(self, self.path_up(from as int, to as int)[x] as int, #[trigger] r@[x]),
    {
        let mut out: Vec<D::Value> = Vec::new();
        let mut current = from;
        let ghost target = self.path_up(from as int, to as int);
        loop
            invariant_except_break
                self.wf(),
                self@.active(current as int),
                out@.len() + self.path_up(current as int, to as int).len() == target.len(),
                forall|j: int| 0 <= j < out@.len() ==> D::value_ok(self, target[j] as int, #[trigger] out@[j]),
                forall|j: int|
                    0 <= j < self.path_up(current as int, to as int).len() ==> #[trigger] target[out@.len() + j]
                        == self.path_up(current as int, to as int)[j],
            ensures
                out@.len() == target.len(),
                forall|j: int| 0 <= j < out@.len() ==> D::value_ok(self, target[j] as int, #[trigger] out@[j]),
            decreases self.depth_of(current as int),
        {
            proof {
                assert(self.wf_slot(current as int));
                assert(target[out@.len() + 0int] == self.path_up(current as int, to as int)[0]);
            }
            out.push(D::value(self, current));
            if current == to {
                break;
            }
            match self.nodes[current].parent {
                Some(p) => {
                    proof {
                        let a = self.path_up(current as int, to as int);
                        assert(a == seq![current] + self.path_up(p as int, to as int));
                        assert forall|j: int| 0 <= j < self.path_up(p as int, to as int).len() implies #[trigger] target[out@.len() + j]
                            == self.path_up(p as int, to as int)[j] by {
                            assert(target[(out@.len() - 1) + (j + 1)] == a[j + 1]);
                        }
                    }
                    current = p;
                },
                None => {
                    break;
                },
            }
        }
        out
    }

    /// The indices of the nodes of the subtree rooted at the node, in the
    /// order of the traverser `Tr`, each enumerated by `E` with its depth
    /// relative to the node and its sibling index (zero for the node itself).
    pub fn indices_with<Tr: Traverser<T, M>, E: Enumerator>(&self, idx: &NodeIdx) -> (r: Vec<E::Output>)
        requires
            self.wf(),
            self.valid_idx(*idx),
        ensures
            r@.len() == Tr::spec_order(self, idx.spec_pos() as int).len(),
            forall|k: int|
                0 <= k < r@.len() ==> {
                    let j = Tr::spec_order(self, idx.spec_pos() as int)[k] as int;
                    E::output_ok(
                        NodeIdx::spec_new(j as usize, self.memory_state()),
                        (self.depth_of(j) - self.depth_of(idx.spec_pos() as int)) as usize,
                        (if j == idx.spec_pos() { 0 } else { self@.sibling_index(j) }) as usize,
                        #[trigger] r@[k],
                    )
                },
    {
        let order = Tr::order(self, idx.pos);
        let base = self.depth(idx);
        let mut out: Vec<E::Output> = Vec::new();
        let mut k: usize = 0;
        while k < order.len()
            invariant
                self.wf(),
                self.valid_idx(*idx),
                base == self.depth_of(idx.spec_pos() as int),
                k <= order@.len(),
                order@ == Tr::spec_order(self, idx.spec_pos() as int),
                forall|x: int| 0 <= x < order@.len() ==> self@.active(#[trigger] order@[x] as int)
                    && self.depth_of(order@[x] as int) >= self.depth_of(idx.spec_pos() as int),
                out@.len() == k,
                forall|x: int|
                    0 <= x < k ==> {
                        let j = order@[x] as int;
                        E::output_ok(
                            NodeIdx::spec_new(j as usize, self.memory_state()),
                            (self.depth_of(j) - self.depth_of(idx.spec_pos() as int)) as usize,
                            (if j == idx.spec_pos() { 0 } else { self@.sibling_index(j) }) as usize,
                            #[trigger] out@[x],
                        )
                    },
            decreases order@.len() - k,
        {
            let j = NodeIdx { pos: order[k], state: self.state };
            let d = self.depth(&j);
            let s = if order[k] == idx.pos { 0 } else { self.sibling_idx(&j) };
            out.push(E::output(j, d - base, s));
            k = k + 1;
        }
        out
    }
}

} // verus!
