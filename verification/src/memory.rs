use core::marker::PhantomData;
use vstd::prelude::*;

use crate::laws::law_reclaim_keeps_subtrees;
use crate::tree::{Tree, TreeView};
use crate::within::lemma_same_dfs_seq;

verus! {

/// Halves `x` repeatedly, `d` times; that is, `x / 2^d` rounded down.
pub open spec fn halved(x: nat, d: nat) -> nat
    decreases d,
{
    if d == 0 {
        x
    } else {
        halved(x / 2, (d - 1) as nat)
    }
}

/// Computes `x / 2^d`, the number of closed nodes that a tree using
/// `used` storage positions tolerates under a threshold exponent `d`.
pub fn shift_right(x: usize, d: usize) -> (r: usize)
    ensures
        r == halved(x as nat, d as nat),
{
    let mut r = x;
    let mut i: usize = 0;
    while i < d && r > 0
        invariant
            i <= d,
            halved(r as nat, (d - i) as nat) == halved(x as nat, d as nat),
        decreases d - i,
    {
        r = r / 2;
        i = i + 1;
    }
    if r == 0 {
        proof { lemma_halved_zero((d - i) as nat); }
    }
    r
}

/// Halving zero any number of times gives zero.
pub proof fn lemma_halved_zero(d: nat)
    ensures
        halved(0, d) == 0,
    decreases d,
{
    if d > 0 {
        lemma_halved_zero((d - 1) as nat);
    }
}

/// Decides whether a tree with `used` storage positions of which `active`
/// hold nodes must reclaim the memory of its closed nodes under threshold
/// exponent `d`: it must when the closed positions exceed `used / 2^d`.
pub open spec fn spec_needs_reclaim(used: nat, active: nat, d: nat) -> bool {
    used - active > halved(used, d)
}

/// Memory reclaim policy of a tree: determines when the positions of removed
/// (closed) nodes are reclaimed, which reorganizes the storage and invalidates
/// node indices created before.
pub trait MemoryPolicy: Sized {
    /// Threshold exponent `D` of the policy, or `None` if the policy never reclaims.
    spec fn spec_threshold() -> Option<usize>;

    /// Returns the threshold exponent of the policy; `None` if it never reclaims.
    fn threshold() -> (r: Option<usize>)
        ensures
            r == Self::spec_threshold(),
    ;
}

/// The `Lazy` policy never reclaims closed nodes; node indices are only
/// invalidated when their own node is removed.
#[derive(Clone, Copy, Debug, Default)]
pub struct Lazy;

impl MemoryPolicy for Lazy {
    open spec fn spec_threshold() -> Option<usize> {
        None
    }

    fn threshold() -> (r: Option<usize>) {
        None
    }
}

/// The `Auto` policy reclaims closed nodes whenever utilization falls below 75%;
/// it is equivalent to `AutoWithThreshold<2>`.
#[derive(Clone, Copy, Debug, Default)]
pub struct Auto;

impl MemoryPolicy for Auto {
    open spec fn spec_threshold() -> Option<usize> {
        Some(2)
    }

    fn threshold() -> (r: Option<usize>) {
        Some(2)
    }
}

/// The `AutoWithThreshold<D>` policy reclaims closed nodes whenever the number
/// of closed nodes exceeds the number of used positions divided by `2^D`.
#[derive(Clone, Copy, Debug, Default)]
pub struct AutoWithThreshold<const D: usize>;

impl<const D: usize> MemoryPolicy for AutoWithThreshold<D> {
    open spec fn spec_threshold() -> Option<usize> {
        Some(D)
    }

    fn threshold() -> (r: Option<usize>) {
        Some(D)
    }
}

/// Node utilization of the storage of a tree.
#[derive(Clone, Copy, Debug, PartialEq, Eq, Structural)]
pub struct Utilization {
    /// Number of positions that are allocated.
    pub capacity: usize,
    /// Number of active nodes holding data.
    pub num_active_nodes: usize,
    /// Number of nodes which were removed but whose positions are not reclaimed yet.
    pub num_closed_nodes: usize,
}

/// Decides whether reclaiming is due for the given policy on a storage of
/// `used` positions holding `active` nodes.
pub fn needs_reclaim<M: MemoryPolicy>(used: usize, active: usize) -> (r: bool)
    requires
        active <= used,
    ensures
        r == match M::spec_threshold() {
            None => false,
            Some(d) => spec_needs_reclaim(used as nat, active as nat, d as nat),
        },
{
    match M::threshold() {
        None => false,
        Some(d) => {
            let allowed_vacant = shift_right(used, d);
            used - active > allowed_vacant
        },
    }
}


/// Whether policy `M` reclaims the closed positions of a storage of `used`
/// positions holding `active` nodes.
pub open spec fn policy_reclaims<M: MemoryPolicy>(used: nat, active: nat) -> bool {
    match M::spec_threshold() {
        None => false,
        Some(d) => spec_needs_reclaim(used, active, d as nat),
    }
}

/// Whether policy `M`, after a removal produced `v`, reclaims closed
/// positions and moves a node in doing so; only then does the memory state
/// change.
pub open spec fn reclaim_moves<T, M: MemoryPolicy>(v: TreeView<T>) -> bool {
    policy_reclaims::<M>(v.n(), v.num_nodes()) && v.compact_moves()
}

/// The tree that policy `M` leaves after a removal produced `v`: `v` itself,
/// or `v` with its closed positions reclaimed.
pub open spec fn after_removal<T, M: MemoryPolicy>(v: TreeView<T>) -> TreeView<T> {
    if policy_reclaims::<M>(v.n(), v.num_nodes()) {
        v.compact()
    } else {
        v
    }
}

/// Allocated capacity of a vector, by `Vec::capacity`. Its exact value
/// depends on the allocator; what is claimed is only what std documents:
/// a vector never holds more elements than its capacity.
#[verifier::external_body]
fn vec_capacity<A>(v: &Vec<A>) -> (r: usize)
    ensures
        r >= v@.len(),
{
    v.capacity()
}

impl<T, M: MemoryPolicy> Tree<T, M> {
    /// Reclaims the closed positions if the memory policy calls for it;
    /// returns whether it did.
    pub(crate) fn reclaim_if_needed(&mut self) -> (reclaimed: bool)
        requires
            old(self).wf(),
        ensures
            final(self).wf(),
            reclaimed == policy_reclaims::<M>(old(self)@.n(), old(self)@.num_nodes()),
            final(self)@ == after_removal::<T, M>(old(self)@),
            reclaim_moves::<T, M>(old(self)@) <==> final(self).memory_state() != old(self).memory_state(),
            !reclaimed ==> forall|j: int| #[trigger] final(self).depth_of(j) == old(self).depth_of(j),
    {
        proof {
            crate::tree::lemma_count_bound(self@.nodes);
        }
        if needs_reclaim::<M>(self.nodes.len(), self.len) {
            self.reclaim_closed_nodes();
            true
        } else {
            false
        }
    }

    /// Returns the current node utilization of the storage.
    pub fn memory_utilization(&self) -> (r: Utilization)
        requires
            self.wf(),
        ensures
            r.num_active_nodes == self@.num_nodes(),
            r.num_closed_nodes == self@.n() - self@.num_nodes(),
            r.capacity >= r.num_active_nodes + r.num_closed_nodes,
    {
        proof {
            crate::tree::lemma_count_bound(self@.nodes);
        }
        Utilization {
            capacity: vec_capacity(&self.nodes),
            num_active_nodes: self.len,
            num_closed_nodes: self.nodes.len() - self.len,
        }
    }

    /// Moves the tree into a tree with memory policy `M2`, keeping its storage.
    fn with_policy<M2: MemoryPolicy>(self) -> (tree: Tree<T, M2>)
        requires
            self.wf(),
        ensures
            tree.wf(),
            tree@ == self@,
            tree.memory_state() == self.memory_state(),
            forall|j: int| #[trigger] tree.depth_of(j) == self.depth_of(j),
    {
        let tree = Tree {
            nodes: self.nodes,
            root: self.root,
            len: self.len,
            state: self.state,
            depths: self.depths,
            policy: PhantomData,
        };
        proof {
            assert(tree@ == self@);
            assert forall|i: int| 0 <= i < tree@.n() implies #[trigger] tree.wf_slot(i) by {
                assert(self.wf_slot(i));
            }
        }
        tree
    }
}

impl<T> Tree<T, Auto> {
    /// Transforms the tree's memory reclaim policy from [`Auto`] to [`Lazy`];
    /// this is free: the storage and all node indices stay as they are.
    pub fn into_lazy_reclaim(self) -> (tree: Tree<T, Lazy>)
        requires
            self.wf(),
        ensures
            tree.wf(),
            tree@ == self@,
            tree.memory_state() == self.memory_state(),
            forall|j: int| #[trigger] tree.depth_of(j) == self.depth_of(j),
    {
        self.with_policy()
    }
}

impl<T, const D: usize> Tree<T, AutoWithThreshold<D>> {
    /// Transforms the tree's memory reclaim policy from [`AutoWithThreshold`]
    /// to [`Lazy`]; this is free: the storage and all node indices stay as they are.
    pub fn into_lazy_reclaim(self) -> (tree: Tree<T, Lazy>)
        requires
            self.wf(),
        ensures
            tree.wf(),
            tree@ == self@,
            tree.memory_state() == self.memory_state(),
            forall|j: int| #[trigger] tree.depth_of(j) == self.depth_of(j),
    {
        self.with_policy()
    }
}

impl<T> Tree<T, Lazy> {
    /// Transforms the tree's memory reclaim policy from [`Lazy`] to [`Auto`];
    /// closed positions are reclaimed at once if utilization is below 75%.
    pub fn into_auto_reclaim(self) -> (tree: Tree<T, Auto>)
        requires
            self.wf(),
        ensures
            tree.wf(),
            tree@ == after_removal::<T, Auto>(self@),
            reclaim_moves::<T, Auto>(self@) <==> tree.memory_state() != self.memory_state(),
            !policy_reclaims::<Auto>(self@.n(), self@.num_nodes()) ==> forall|j: int| #[trigger] tree.depth_of(j)
                == self.depth_of(j),
            self@.root is Some ==> tree@.root is Some && tree.dfs_seq(tree@.root->0 as int) == self.dfs_seq(
                self@.root->0 as int,
            ),
    {
        let ghost before = self;
        let mut tree: Tree<T, Auto> = self.with_policy();
        tree.reclaim_if_needed();
        proof {
            lemma_policy_change_keeps_tree(&before, &tree);
        }
        tree
    }

    /// Transforms the tree's memory reclaim policy from [`Lazy`] to
    /// [`AutoWithThreshold`]; closed positions are reclaimed at once if the
    /// new policy calls for it.
    pub fn into_auto_reclaim_with_threshold<const D: usize>(self) -> (tree: Tree<T, AutoWithThreshold<D>>)
        requires
            self.wf(),
        ensures
            tree.wf(),
            tree@ == after_removal::<T, AutoWithThreshold<D>>(self@),
            reclaim_moves::<T, AutoWithThreshold<D>>(self@) <==> tree.memory_state() != self.memory_state(),
            !policy_reclaims::<AutoWithThreshold<D>>(self@.n(), self@.num_nodes()) ==> forall|j: int| #[trigger] tree.depth_of(j)
                == self.depth_of(j),
            self@.root is Some ==> tree@.root is Some && tree.dfs_seq(tree@.root->0 as int) == self.dfs_seq(
                self@.root->0 as int,
            ),
    {
        let ghost before = self;
        let mut tree: Tree<T, AutoWithThreshold<D>> = self.with_policy();
        tree.reclaim_if_needed();
        proof {
            lemma_policy_change_keeps_tree(&before, &tree);
        }
        tree
    }
}

/// A tree whose storage is either the same or reclaimed has the same
/// depth-first sequence from its root.
proof fn lemma_policy_change_keeps_tree<T, M1: MemoryPolicy, M2: MemoryPolicy>(a: &Tree<T, M1>, b: &Tree<T, M2>)
    requires
        a.wf(),
        b.wf(),
        b@ == a@ || b@ == a@.compact(),
    ensures
        a@.root is Some ==> b@.root is Some && b.dfs_seq(b@.root->0 as int) == a.dfs_seq(a@.root->0 as int),
{
    if let Some(r) = a@.root {
        assert(a@.active(r as int));
        if b@ == a@.compact() {
            law_reclaim_keeps_subtrees(a, b, r as int);
            crate::reclaim::lemma_compact_node(a@, r as int);
        } else {
            assert forall|j: int| 0 <= j < a@.n() && a.in_subtree(j, r as int) implies (#[trigger] b@.nodes[j]).children
                == a@.nodes[j].children && b@.nodes[j].data == a@.nodes[j].data by {}
            lemma_same_dfs_seq(a, b, r as int);
        }
    }
}

} // verus!
