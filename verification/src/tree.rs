use core::marker::PhantomData;
use vstd::prelude::*;

use crate::memory::{Auto, MemoryPolicy};
use crate::node_idx::{NodeIdx, NodeIdxError};

verus! {

/// Abstract state of one storage position of a tree.
///
/// A position is active when it holds data; closed positions keep no links.
#[verifier::ext_equal]
pub ghost struct NodeView<T> {
    pub data: Option<T>,
    pub parent: Option<usize>,
    pub children: Seq<usize>,
}

/// Abstract state of a tree: its storage positions and its root.
#[verifier::ext_equal]
pub ghost struct TreeView<T> {
    pub nodes: Seq<NodeView<T>>,
    pub root: Option<usize>,
}

/// Number of active positions among `nodes`.
pub open spec fn count_active<T>(nodes: Seq<NodeView<T>>) -> nat
    decreases nodes.len(),
{
    if nodes.len() == 0 {
        0
    } else {
        count_active(nodes.drop_last()) + if nodes.last().data is Some {
            1nat
        } else {
            0nat
        }
    }
}

impl<T> TreeView<T> {
    /// Number of storage positions, active or closed.
    pub open spec fn n(self) -> nat {
        self.nodes.len()
    }

    /// Whether position `i` holds a node of the tree.
    pub open spec fn active(self, i: int) -> bool {
        0 <= i < self.nodes.len() && self.nodes[i].data is Some
    }

    /// Data of the node at position `i`.
    pub open spec fn data(self, i: int) -> T {
        self.nodes[i].data->0
    }

    /// Parent of the node at position `i`.
    pub open spec fn parent(self, i: int) -> Option<usize> {
        self.nodes[i].parent
    }

    /// Children of the node at position `i`, from left to right.
    pub open spec fn children(self, i: int) -> Seq<usize> {
        self.nodes[i].children
    }

    /// Position of the node at `i` among the children of its parent; zero for the root.
    pub open spec fn sibling_index(self, i: int) -> int {
        match self.parent(i) {
            Some(p) => self.children(p as int).index_of(i as usize),
            None => 0,
        }
    }

    /// Number of nodes of the tree.
    pub open spec fn num_nodes(self) -> nat {
        count_active(self.nodes)
    }

    /// The tree after a new node holding `value` is appended to the storage and
    /// inserted as the child of `p` at position `pos` among its children.
    pub open spec fn insert_child(self, p: int, pos: int, value: T) -> TreeView<T> {
        TreeView {
            nodes: self.nodes.update(
                p,
                NodeView {
                    data: self.nodes[p].data,
                    parent: self.nodes[p].parent,
                    children: self.nodes[p].children.insert(pos, self.nodes.len() as usize),
                },
            ).push(NodeView { data: Some(value), parent: Some(p as usize), children: Seq::empty() }),
            root: self.root,
        }
    }

    /// The tree after the nodes holding `values` are appended to the storage
    /// and inserted, in order, as children of `p` starting at position `pos`
    /// among its children.
    pub open spec fn insert_children(self, p: int, pos: int, values: Seq<T>) -> TreeView<T>
        decreases values.len(),
    {
        if values.len() == 0 {
            self
        } else {
            self.insert_children(p, pos, values.drop_last()).insert_child(
                p,
                pos + values.len() - 1,
                values.last(),
            )
        }
    }

    /// The content of a closed storage position.
    pub open spec fn closed_node() -> NodeView<T> {
        NodeView { data: None, parent: None, children: Seq::empty() }
    }

    /// The tree after the positions in `s` are closed, other positions unchanged.
    pub open spec fn without(self, s: Set<usize>) -> TreeView<T> {
        TreeView {
            nodes: Seq::new(
                self.nodes.len(),
                |j: int| if s.contains(j as usize) {
                    Self::closed_node()
                } else {
                    self.nodes[j]
                },
            ),
            root: self.root,
        }
    }

    /// The tree after the node at `i` is unlinked from its parent; if it was
    /// the root, the tree is left without a root.
    pub open spec fn detach(self, i: int) -> TreeView<T> {
        match self.parent(i) {
            Some(p) => TreeView {
                nodes: self.nodes.update(
                    p as int,
                    NodeView {
                        data: self.nodes[p as int].data,
                        parent: self.nodes[p as int].parent,
                        children: self.children(p as int).remove(self.sibling_index(i)),
                    },
                ),
                root: self.root,
            },
            None => TreeView { nodes: self.nodes, root: None },
        }
    }

    /// The tree after the node at `i` loses its children list.
    pub open spec fn clear_children(self, i: int) -> TreeView<T> {
        TreeView {
            nodes: self.nodes.update(
                i,
                NodeView { data: self.nodes[i].data, parent: self.nodes[i].parent, children: Seq::empty() },
            ),
            root: self.root,
        }
    }

    /// The tree after the node at `i` is taken out: its children take its
    /// place among the children of its parent (or become the root) and its
    /// position is closed.
    pub open spec fn take_out(self, i: int) -> TreeView<T> {
        let ch = self.children(i);
        TreeView {
            nodes: Seq::new(
                self.nodes.len(),
                |j: int| if j == i {
                    Self::closed_node()
                } else if self.parent(j) == Some(i as usize) {
                    NodeView { data: self.nodes[j].data, parent: self.parent(i), children: self.nodes[j].children }
                } else if self.parent(i) == Some(j as usize) {
                    let k = self.sibling_index(i);
                    NodeView {
                        data: self.nodes[j].data,
                        parent: self.nodes[j].parent,
                        children: self.children(j).take(k) + ch + self.children(j).skip(k + 1),
                    }
                } else {
                    self.nodes[j]
                },
            ),
            root: if self.root == Some(i as usize) {
                if ch.len() > 0 {
                    Some(ch[0])
                } else {
                    None
                }
            } else {
                self.root
            },
        }
    }

    /// The tree after a new node holding `value` is appended to the storage
    /// and placed between the node at `i` and its parent (becoming the root if
    /// `i` was the root).
    pub open spec fn insert_parent(self, i: int, value: T) -> TreeView<T> {
        let q = self.nodes.len() as usize;
        let new_node = NodeView { data: Some(value), parent: self.parent(i), children: seq![i as usize] };
        let lower = self.nodes.update(
            i,
            NodeView { data: self.nodes[i].data, parent: Some(q), children: self.nodes[i].children },
        );
        match self.parent(i) {
            Some(p) => TreeView {
                nodes: lower.update(
                    p as int,
                    NodeView {
                        data: lower[p as int].data,
                        parent: lower[p as int].parent,
                        children: lower[p as int].children.update(self.sibling_index(i), q),
                    },
                ).push(new_node),
                root: self.root,
            },
            None => TreeView { nodes: lower.push(new_node), root: Some(q) },
        }
    }

    /// The tree after the data of position `i` is replaced by `value`.
    pub open spec fn set_data(self, i: int, value: T) -> TreeView<T> {
        TreeView {
            nodes: self.nodes.update(
                i,
                NodeView { data: Some(value), parent: self.nodes[i].parent, children: self.nodes[i].children },
            ),
            root: self.root,
        }
    }
}

/// Storage slot of one node: its data (`None` once the node is removed), its
/// parent and its children.
pub struct NodeSlot<T> {
    pub(crate) data: Option<T>,
    pub(crate) parent: Option<usize>,
    pub(crate) children: Vec<usize>,
}

impl<T> NodeSlot<T> {
    pub open(crate) spec fn spec_view(&self) -> NodeView<T> {
        NodeView { data: self.data, parent: self.parent, children: self.children@ }
    }
}

impl<T> View for NodeSlot<T> {
    type V = NodeView<T>;

    open spec fn view(&self) -> NodeView<T> {
        self.spec_view()
    }
}

/// A tree whose nodes are kept in one growing storage, each node knowing its
/// parent and its ordered children.
///
/// `M` is the memory reclaim policy that decides when the positions of removed
/// nodes are reclaimed.
pub struct Tree<T, M = Auto> {
    pub(crate) nodes: Vec<NodeSlot<T>>,
    pub(crate) root: Option<usize>,
    pub(crate) len: usize,
    pub(crate) state: usize,
    pub(crate) depths: Ghost<Seq<nat>>,
    pub(crate) policy: PhantomData<M>,
}

impl<T, M> Tree<T, M> {
    pub open(crate) spec fn spec_view(&self) -> TreeView<T> {
        TreeView { nodes: Seq::new(self.nodes@.len(), |i: int| self.nodes@[i]@), root: self.root }
    }

    /// Memory state of the tree; it changes exactly when the storage is reorganized.
    pub open(crate) spec fn memory_state(&self) -> usize {
        self.state
    }

    /// Depth of the node at position `i`: number of edges between it and the root.
    pub open(crate) spec fn depth_of(&self, i: int) -> nat {
        self.depths@[i]
    }

    /// Whether `idx` refers to a node of this tree in its current memory state.
    pub open spec fn valid_idx(&self, idx: NodeIdx) -> bool {
        &&& idx.spec_state() == self.memory_state()
        &&& self@.active(idx.spec_pos() as int)
    }

    /// The error that using `idx` on this tree results in, if any.
    pub open spec fn idx_error(&self, idx: NodeIdx) -> Option<NodeIdxError> {
        if idx.spec_pos() >= self@.n() {
            Some(NodeIdxError::OutOfBounds)
        } else if idx.spec_state() != self.memory_state() {
            Some(NodeIdxError::ReorganizedCollection)
        } else if !self@.active(idx.spec_pos() as int) {
            Some(NodeIdxError::RemovedNode)
        } else {
            None
        }
    }

    pub open(crate) spec fn wf_slot(&self, i: int) -> bool {
        &&& self.depths@[i] < self@.n()
        &&& self.wf_slot_links(i)
    }

    /// The links of position `i` agree with those of its parent and children,
    /// and its depth is one more than that of its parent.
    pub open(crate) spec fn wf_slot_links(&self, i: int) -> bool {
        let v = self@;
        let s = v.nodes[i];
        &&& s.children.len() <= v.n()
        &&& if s.data is Some {
            &&& s.children.no_duplicates()
            &&& forall|k: int|
                0 <= k < s.children.len() ==> {
                    let c = #[trigger] s.children[k] as int;
                    &&& v.active(c)
                    &&& v.nodes[c].parent == Some(i as usize)
                }
            &&& match s.parent {
                Some(p) => {
                    &&& v.active(p as int)
                    &&& v.nodes[p as int].children.contains(i as usize)
                    &&& self.depths@[i] == self.depths@[p as int] + 1
                },
                None => v.root == Some(i as usize),
            }
        } else {
            &&& s.parent is None
            &&& s.children.len() == 0
            &&& v.root != Some(i as usize)
        }
    }

    /// Well-formedness: parent and child links agree, depths grow by one along
    /// every edge from the root, and `len` counts the active positions.
    pub open(crate) spec fn wf(&self) -> bool {
        let v = self@;
        &&& v.n() < usize::MAX
        &&& self.depths@.len() == v.n()
        &&& self.len == v.num_nodes()
        &&& match v.root {
            Some(r) => {
                &&& v.active(r as int)
                &&& v.nodes[r as int].parent is None
                &&& self.depths@[r as int] == 0
            },
            None => v.num_nodes() == 0,
        }
        &&& forall|i: int| 0 <= i < v.n() ==> #[trigger] self.wf_slot(i)
    }

    /// Well-formedness without the bound on depths: the links agree and
    /// depths grow by one along every edge from the root.
    pub open(crate) spec fn wf_links(&self) -> bool {
        let v = self@;
        &&& v.n() < usize::MAX
        &&& self.depths@.len() == v.n()
        &&& self.len == v.num_nodes()
        &&& match v.root {
            Some(r) => {
                &&& v.active(r as int)
                &&& v.nodes[r as int].parent is None
                &&& self.depths@[r as int] == 0
            },
            None => v.num_nodes() == 0,
        }
        &&& forall|i: int| 0 <= i < v.n() ==> #[trigger] self.wf_slot_links(i)
    }

    /// A well-formed tree has well-formed links.
    pub proof fn lemma_wf_links(&self)
        requires
            self.wf(),
        ensures
            self.wf_links(),
    {
        assert forall|i: int| 0 <= i < self@.n() implies #[trigger] self.wf_slot_links(i) by {
            assert(self.wf_slot(i));
        }
    }
}

impl<T, M> View for Tree<T, M> {
    type V = TreeView<T>;

    open spec fn view(&self) -> TreeView<T> {
        self.spec_view()
    }
}

/// Appending a position adds one to the count exactly when it is active.
pub proof fn lemma_count_push<T>(nodes: Seq<NodeView<T>>, x: NodeView<T>)
    ensures
        count_active(nodes.push(x)) == count_active(nodes) + if x.data is Some {
            1nat
        } else {
            0nat
        },
{
    assert(nodes.push(x).drop_last() =~= nodes);
}

/// Replacing a position by one of the same activity keeps the count;
/// closing an active position decreases it by one.
pub proof fn lemma_count_update<T>(nodes: Seq<NodeView<T>>, i: int, x: NodeView<T>)
    requires
        0 <= i < nodes.len(),
    ensures
        count_active(nodes.update(i, x)) + (if nodes[i].data is Some {
            1nat
        } else {
            0nat
        }) == count_active(nodes) + (if x.data is Some {
            1nat
        } else {
            0nat
        }),
    decreases nodes.len(),
{
    let u = nodes.update(i, x);
    if i == nodes.len() - 1 {
        assert(u.drop_last() =~= nodes.drop_last());
    } else {
        assert(u.drop_last() =~= nodes.drop_last().update(i, x));
        lemma_count_update(nodes.drop_last(), i, x);
    }
}

/// Two storages with the same active positions have the same count.
pub proof fn lemma_count_same<T>(a: Seq<NodeView<T>>, b: Seq<NodeView<T>>)
    requires
        a.len() == b.len(),
        forall|i: int| 0 <= i < a.len() ==> ((#[trigger] a[i]).data is Some <==> b[i].data is Some),
    ensures
        count_active(a) == count_active(b),
    decreases a.len(),
{
    if a.len() > 0 {
        let a2 = a.drop_last();
        let b2 = b.drop_last();
        assert forall|i: int| 0 <= i < a2.len() implies ((#[trigger] a2[i]).data is Some <==> b2[i].data is Some) by {
            assert(a2[i] == a[i]);
            assert(b2[i] == b[i]);
        }
        lemma_count_same(a2, b2);
        assert(a[a.len() - 1] == a.last());
    }
}

/// The count of active positions never exceeds the number of positions.
pub proof fn lemma_count_bound<T>(nodes: Seq<NodeView<T>>)
    ensures
        count_active(nodes) <= nodes.len(),
    decreases nodes.len(),
{
    if nodes.len() > 0 {
        lemma_count_bound(nodes.drop_last());
    }
}

/// With no active position the count is zero, and conversely.
pub proof fn lemma_count_zero<T>(nodes: Seq<NodeView<T>>)
    ensures
        (count_active(nodes) == 0) <==> (forall|i: int|
            0 <= i < nodes.len() ==> !(#[trigger] nodes[i].data is Some)),
    decreases nodes.len(),
{
    if nodes.len() > 0 {
        lemma_count_zero(nodes.drop_last());
        let d = nodes.drop_last();
        assert forall|i: int| 0 <= i < d.len() implies d[i] == nodes[i] by {}
        if count_active(nodes) == 0 {
            assert forall|i: int| 0 <= i < nodes.len() implies !(#[trigger] nodes[i].data is Some) by {
                if i < d.len() {
                    assert(d[i] == nodes[i]);
                }
            }
        }
        if forall|i: int| 0 <= i < nodes.len() ==> !(#[trigger] nodes[i].data is Some) {
            assert(!(nodes[nodes.len() - 1].data is Some));
            assert forall|i: int| 0 <= i < d.len() implies !(#[trigger] d[i].data is Some) by {
                assert(d[i] == nodes[i]);
            }
        }
    }
}

impl<T, M: MemoryPolicy> Tree<T, M> {
    /// Creates a tree holding one node, the root, with the given `root_value`.
    pub fn new(root_value: T) -> (tree: Self)
        ensures
            tree.wf(),
            tree@.n() == 1,
            tree@.root == Some(0usize),
            tree@.nodes[0] == (NodeView { data: Some(root_value), parent: None, children: Seq::empty() }),
    {
        let mut nodes: Vec<NodeSlot<T>> = Vec::new();
        nodes.push(NodeSlot { data: Some(root_value), parent: None, children: Vec::new() });
        let ghost depths = seq![0nat];
        let tree = Tree {
            nodes,
            root: Some(0),
            len: 1,
            state: 0,
            depths: Ghost(depths),
            policy: PhantomData,
        };
        proof {
            let v = tree@;
            assert(v.nodes[0].children =~= Seq::<usize>::empty());
            assert(v.nodes =~= Seq::empty().push(v.nodes[0]));
            lemma_count_push(Seq::<NodeView<T>>::empty(), v.nodes[0]);
            assert(tree.wf_slot(0));
        }
        tree
    }

    /// Appends a new node holding `value` to the storage and inserts it as the
    /// child of `p` at position `pos` among its children; returns its position.
    pub(crate) fn insert_child_at(&mut self, p: usize, pos: usize, value: T) -> (r: usize)
        requires
            old(self).wf(),
            old(self)@.active(p as int),
            pos <= old(self)@.children(p as int).len(),
            old(self)@.n() + 1 < usize::MAX,
        ensures
            final(self).wf(),
            r == old(self)@.n(),
            final(self)@ == old(self)@.insert_child(p as int, pos as int, value),
            final(self).memory_state() == old(self).memory_state(),
            final(self).depth_of(r as int) == old(self).depth_of(p as int) + 1,
            forall|i: int| 0 <= i < old(self)@.n() ==> final(self).depth_of(i) == old(self).depth_of(i),
    {
        let ghost old_v = self@;
        let ghost old_depths = self.depths@;
        let n = self.nodes.len();
        self.nodes.push(NodeSlot { data: Some(value), parent: Some(p), children: Vec::new() });
        self.nodes[p].children.insert(pos, n);
        proof {
            lemma_count_bound(old_v.nodes);
            if old_v.root is None {
                lemma_count_zero(old_v.nodes);
                assert(old_v.nodes[p as int].data is Some);
            }
        }
        self.len = self.len + 1;
        proof {
            self.depths@ = old_depths.push(old_depths[p as int] + 1);
            let v = self@;
            let target = old_v.insert_child(p as int, pos as int, value);
            assert(v.nodes[n as int].children =~= Seq::<usize>::empty());
            assert(v.nodes =~= target.nodes);
            assert(v == target);
            let old_p = old_v.nodes[p as int];
            let new_p = target.nodes[p as int];
            lemma_count_update(old_v.nodes, p as int, new_p);
            lemma_count_push(old_v.nodes.update(p as int, new_p), target.nodes[n as int]);
            assert(old_p.children.insert(pos as int, n) == new_p.children);
            old_p.children.insert_ensures(pos as int, n);
            assert forall|k: int| 0 <= k < old_p.children.len() implies #[trigger] new_p.children.contains(old_p.children[k]) by {
                if k < pos {
                    assert(new_p.children[k] == old_p.children[k]);
                } else {
                    assert(new_p.children[k + 1] == old_p.children[k]);
                }
            }
            assert(new_p.children[pos as int] == n);
            assert(new_p.children.no_duplicates()) by {
                assert(old(self).wf_slot(p as int));
                assert forall|a: int, b: int| 0 <= a < new_p.children.len() && 0 <= b < new_p.children.len() && a != b
                    implies new_p.children[a] != new_p.children[b] by {
                    if a != pos && b != pos {
                        let a0 = if a < pos { a } else { a - 1 };
                        let b0 = if b < pos { b } else { b - 1 };
                        assert(new_p.children[a] == old_p.children[a0]);
                        assert(new_p.children[b] == old_p.children[b0]);
                    } else if a == pos {
                        let b0 = if b < pos { b } else { b - 1 };
                        assert(new_p.children[b] == old_p.children[b0]);
                        assert(old_v.active(old_p.children[b0] as int));
                    } else {
                        let a0 = if a < pos { a } else { a - 1 };
                        assert(new_p.children[a] == old_p.children[a0]);
                        assert(old_v.active(old_p.children[a0] as int));
                    }
                }
            }
            assert forall|i: int| 0 <= i < v.n() implies #[trigger] self.wf_slot(i) by {
                if i < n {
                    assert(self.depths@[i] == old_depths[i]);
                    assert(old(self).wf_slot(i));
                }
                if i == n {
                    assert(old(self).wf_slot(p as int));
                    assert(self.depths@[i] == old_depths[p as int] + 1);
                    assert(v.nodes[p as int].children.contains(n));
                    assert(self.wf_slot(i));
                } else if i == p {
                    assert(old(self).wf_slot(i));
                    assert forall|k: int| 0 <= k < new_p.children.len() implies {
                        let c = #[trigger] new_p.children[k] as int;
                        &&& v.active(c)
                        &&& v.nodes[c].parent == Some(i as usize)
                    } by {
                        if k != pos {
                            let k0 = if k < pos { k } else { k - 1 };
                            assert(new_p.children[k] == old_p.children[k0]);
                            let c = old_p.children[k0] as int;
                            assert(old_v.active(c));
                            assert(c != n);
                        }
                    }
                    match old_p.parent {
                        Some(q) => {
                            assert(old(self).wf_slot(q as int));
                            if q == p {
                                assert(false);
                            }
                        },
                        None => {},
                    }
                    assert(self.wf_slot(i));
                } else {
                    assert(old(self).wf_slot(i));
                    let s = v.nodes[i];
                    assert(s == old_v.nodes[i]);
                    if s.data is Some {
                        assert forall|k: int| 0 <= k < s.children.len() implies {
                            let c = #[trigger] s.children[k] as int;
                            &&& v.active(c)
                            &&& v.nodes[c].parent == Some(i as usize)
                        } by {
                            let c = s.children[k] as int;
                            assert(old_v.active(c));
                        }
                        match s.parent {
                            Some(q) => {
                                if q == p {
                                    assert(new_p.children.contains(old_p.children[old_p.children.index_of(i as usize)]));
                                }
                            },
                            None => {},
                        }
                    }
                    assert(self.wf_slot(i));
                }
            }
        }
        n
    }

    /// Two trees that differ only in the data held by active nodes are both
    /// well-formed or both not.
    pub(crate) proof fn lemma_same_shape(&self, other: &Self)
        requires
            other.wf(),
            self@.n() == other@.n(),
            self@.root == other@.root,
            self.len == other.len,
            self.depths@ == other.depths@,
            forall|i: int|
                0 <= i < self@.n() ==> {
                    &&& (#[trigger] self@.nodes[i]).parent == other@.nodes[i].parent
                    &&& self@.nodes[i].children == other@.nodes[i].children
                    &&& (self@.nodes[i].data is Some <==> other@.nodes[i].data is Some)
                },
        ensures
            self.wf(),
    {
        assert forall|i: int| 0 <= i < self@.n() implies #[trigger] self.wf_slot(i) by {
            assert(other.wf_slot(i));
            let s = self@.nodes[i];
            if s.data is Some {
                assert forall|k: int| 0 <= k < s.children.len() implies {
                    let c = #[trigger] s.children[k] as int;
                    &&& self@.active(c)
                    &&& self@.nodes[c].parent == Some(i as usize)
                } by {
                    let c = s.children[k] as int;
                    assert(other@.active(c));
                }
                match s.parent {
                    Some(p) => {
                        assert(other@.active(p as int));
                    },
                    None => {},
                }
            }
        }
        lemma_count_same(self@.nodes, other@.nodes);
        match self@.root {
            Some(r) => {
                assert(other@.active(r as int));
            },
            None => {},
        }
    }

    /// Closes the positions listed in `list`: their data is taken out and their
    /// links are cleared. Returns, for each listed position, the data taken
    /// out of it.
    pub(crate) fn close_nodes(&mut self, list: &Vec<usize>) -> (r: Vec<Option<T>>)
        requires
            forall|k: int| 0 <= k < list@.len() ==> #[trigger] list@[k] < old(self)@.n(),
            old(self).len == count_active(old(self)@.nodes),
            old(self)@.n() < usize::MAX,
        ensures
            final(self)@ == old(self)@.without(list@.to_set()),
            final(self).len == count_active(final(self)@.nodes),
            final(self).depths@ == old(self).depths@,
            final(self).state == old(self).state,
            r@.len() == list@.len(),
            list@.len() > 0 ==> r@[0] == old(self)@.nodes[list@[0] as int].data,
            list@.no_duplicates() ==> forall|k: int|
                0 <= k < list@.len() ==> #[trigger] r@[k] == old(self)@.nodes[list@[k] as int].data,
    {
        let ghost old_view = self@;
        let mut result: Vec<Option<T>> = Vec::new();
        let mut m: usize = 0;
        proof {
            assert(old_view.without(list@.take(0).to_set()) =~= old_view);
        }
        while m < list.len()
            invariant
                m <= list@.len(),
                forall|k: int| 0 <= k < list@.len() ==> #[trigger] list@[k] < old_view.n(),
                self@ == old_view.without(list@.take(m as int).to_set()),
                self.len == count_active(self@.nodes),
                self.depths@ == old(self).depths@,
                self.state == old(self).state,
                old_view == old(self)@,
                old_view.n() < usize::MAX,
                result@.len() == m,
                m > 0 ==> result@[0] == old_view.nodes[list@[0] as int].data,
                list@.no_duplicates() ==> forall|k: int|
                    0 <= k < m ==> #[trigger] result@[k] == old_view.nodes[list@[k] as int].data,
            decreases list@.len() - m,
        {
            let j = list[m];
            let ghost before = self@;
            let d = self.nodes[j].data.take();
            self.nodes[j].parent = None;
            self.nodes[j].children = Vec::new();
            proof {
                lemma_count_update(before.nodes, j as int, TreeView::<T>::closed_node());
                assert(self@.nodes =~= before.nodes.update(j as int, TreeView::<T>::closed_node()));
            }
            if d.is_some() {
                self.len = self.len - 1;
            }
            proof {
                if m == 0 {
                    assert(list@.take(0).to_set() =~= Set::<usize>::empty());
                    assert(before.nodes[j as int] == old_view.nodes[j as int]);
                }
                if list@.no_duplicates() {
                    assert(!list@.take(m as int).to_set().contains(j)) by {
                        if list@.take(m as int).to_set().contains(j) {
                            let y = list@.take(m as int).index_of(j);
                            assert(list@[y] == list@[m as int]);
                        }
                    }
                    assert(before.nodes[j as int] == old_view.nodes[j as int]);
                }
            }
            result.push(d);
            m = m + 1;
            proof {
                let s1 = list@.take(m as int).to_set();
                let s0 = list@.take(m - 1).to_set();
                assert(list@.take(m as int) =~= list@.take(m - 1).push(j));
                assert(s1 =~= s0.insert(j)) by {
                    assert forall|x: usize| s1.contains(x) <==> s0.contains(x) || x == j by {
                        if s1.contains(x) {
                            let y = list@.take(m as int).index_of(x);
                            if y < m - 1 {
                                assert(list@.take(m - 1)[y] == x);
                            }
                        }
                        if s0.contains(x) {
                            let y = list@.take(m - 1).index_of(x);
                            assert(list@.take(m as int)[y] == x);
                        }
                        if x == j {
                            assert(list@.take(m as int)[m - 1] == x);
                        }
                    }
                }
                assert(before == old_view.without(s0));
                assert forall|x: int| 0 <= x < self@.nodes.len() implies self@.nodes[x] == old_view.without(s1).nodes[x] by {
                    if x != j as int {
                        assert(self@.nodes[x] == before.nodes[x]);
                        assert(s1.contains(x as usize) == s0.contains(x as usize));
                    }
                }
                assert(self@.nodes =~= old_view.without(s1).nodes);
            }
        }
        proof {
            assert(list@.take(m as int) =~= list@);
        }
        result
    }

    /// Number of nodes of the tree.
    pub fn len(&self) -> (r: usize)
        requires
            self.wf(),
        ensures
            r == self@.num_nodes(),
    {
        self.len
    }

    /// Whether the tree has no nodes; this happens only after its root is pruned.
    pub fn is_empty(&self) -> (r: bool)
        requires
            self.wf(),
        ensures
            r == (self@.num_nodes() == 0),
    {
        self.len == 0
    }

    /// Index of the root node, or `None` if the tree is empty.
    pub fn root_idx(&self) -> (r: Option<NodeIdx>)
        requires
            self.wf(),
        ensures
            match r {
                Some(idx) => self@.root == Some(idx.spec_pos()) && self.valid_idx(idx),
                None => self@.root is None && self@.num_nodes() == 0,
            },
    {
        match self.root {
            Some(r) => Some(NodeIdx { pos: r, state: self.state }),
            None => None,
        }
    }

    /// Returns the error of using `idx` on this tree, or `None` if it is valid.
    pub fn node_idx_error(&self, idx: &NodeIdx) -> (r: Option<NodeIdxError>)
        requires
            self.wf(),
        ensures
            r == self.idx_error(*idx),
            r is None <==> self.valid_idx(*idx),
    {
        if idx.pos >= self.nodes.len() {
            Some(NodeIdxError::OutOfBounds)
        } else if idx.state != self.state {
            Some(NodeIdxError::ReorganizedCollection)
        } else if self.nodes[idx.pos].data.is_none() {
            Some(NodeIdxError::RemovedNode)
        } else {
            None
        }
    }

    /// Whether `idx` refers to a node of this tree.
    pub fn is_node_idx_valid(&self, idx: &NodeIdx) -> (r: bool)
        requires
            self.wf(),
        ensures
            r == self.valid_idx(*idx),
    {
        self.node_idx_error(idx).is_none()
    }

    /// Data of the node with the given valid index.
    pub fn data(&self, idx: &NodeIdx) -> (r: &T)
        requires
            self.wf(),
            self.valid_idx(*idx),
        ensures
            *r == self@.data(idx.spec_pos() as int),
    {
        self.nodes[idx.pos].data.as_ref().unwrap()
    }
}

} // verus!
