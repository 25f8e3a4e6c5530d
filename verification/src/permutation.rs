use vstd::multiset::Multiset;
use vstd::prelude::*;
use vstd::seq_lib::lemma_multiset_commutative;

use crate::tree::Tree;

verus! {

broadcast use {vstd::multiset::group_multiset_axioms, vstd::seq_lib::group_to_multiset_ensures};

impl<T, M> Tree<T, M> {
    /// The nodes of the subtrees rooted at the nodes of `level`, counted with
    /// multiplicity.
    pub open(crate) spec fn subtrees_of(&self, level: Seq<usize>) -> Multiset<usize>
        decreases level.len(),
    {
        if level.len() == 0 {
            Multiset::empty()
        } else {
            self.subtrees_of(level.drop_last()).add(self.pre_node(level.last() as int).to_multiset())
        }
    }

    /// The subtrees of a single node are its own subtree.
    pub proof fn lemma_subtrees_of_single(&self, c: usize)
        ensures
            self.subtrees_of(seq![c]) == self.pre_node(c as int).to_multiset(),
    {
        let l = seq![c];
        assert(l.drop_last() =~= Seq::<usize>::empty());
        assert(l.last() == c);
        assert(self.subtrees_of(Seq::<usize>::empty()) == Multiset::<usize>::empty());
        assert(self.subtrees_of(l) =~= self.pre_node(c as int).to_multiset());
    }

    /// The subtrees of a concatenation of levels are those of both parts.
    pub proof fn lemma_subtrees_of_concat(&self, a: Seq<usize>, b: Seq<usize>)
        ensures
            self.subtrees_of(a + b) == self.subtrees_of(a).add(self.subtrees_of(b)),
        decreases b.len(),
    {
        if b.len() == 0 {
            assert(a + b =~= a);
            assert(self.subtrees_of(a).add(self.subtrees_of(b)) =~= self.subtrees_of(a));
        } else {
            assert((a + b).drop_last() =~= a + b.drop_last());
            assert((a + b).last() == b.last());
            self.lemma_subtrees_of_concat(a, b.drop_last());
            assert(self.subtrees_of(a + b) =~= self.subtrees_of(a).add(self.subtrees_of(b)));
        }
    }

    /// The depth-first lists of the children of `i` from child `k` on hold
    /// the subtrees of those children.
    pub proof fn lemma_pre_list_multiset(&self, i: int, k: int)
        requires
            self.wf(),
            self@.active(i),
            0 <= k <= self@.children(i).len(),
        ensures
            self.pre_list(i, k).to_multiset() == self.subtrees_of(
                self@.children(i).subrange(k, self@.children(i).len() as int),
            ),
        decreases self@.children(i).len() - k,
    {
        let ch = self@.children(i);
        if k < ch.len() {
            self.lemma_pre_list_unfold(i, k);
            self.lemma_pre_list_multiset(i, k + 1);
            let c = ch[k];
            assert(ch.subrange(k, ch.len() as int) =~= seq![c] + ch.subrange(k + 1, ch.len() as int));
            self.lemma_subtrees_of_concat(seq![c], ch.subrange(k + 1, ch.len() as int));
            self.lemma_subtrees_of_single(c);
            lemma_multiset_commutative(self.pre_node(c as int), self.pre_list(i, k + 1));
        } else {
            self.lemma_list_end(i);
            assert(ch.subrange(k, ch.len() as int) =~= Seq::<usize>::empty());
            assert(self.pre_list(i, k).to_multiset() =~= Multiset::empty());
        }
    }

    /// The post-order lists of the children of `i` from child `k` on visit
    /// the same nodes, as often, as the depth-first lists.
    pub proof fn lemma_post_list_multiset(&self, i: int, k: int)
        requires
            self.wf(),
            self@.active(i),
            0 <= k,
        ensures
            self.post_list(i, k).to_multiset() == self.pre_list(i, k).to_multiset(),
        decreases self@.n() - self.depth_of(i), 0int, self@.children(i).len() - k,
    {
        if k < self@.children(i).len() {
            self.lemma_pre_list_unfold(i, k);
            let c = self@.children(i)[k] as int;
            assert(self.wf_slot(c));
            self.lemma_post_node_multiset(c);
            self.lemma_post_list_multiset(i, k + 1);
            lemma_multiset_commutative(self.pre_node(c), self.pre_list(i, k + 1));
            lemma_multiset_commutative(self.post_node(c), self.post_list(i, k + 1));
        } else {
            self.lemma_list_end(i);
        }
    }

    /// The post-order of the subtree of `i` visits the same nodes, as often,
    /// as its depth-first order.
    pub proof fn lemma_post_node_multiset(&self, i: int)
        requires
            self.wf(),
            self@.active(i),
        ensures
            self.post_node(i).to_multiset() == self.pre_node(i).to_multiset(),
        decreases self@.n() - self.depth_of(i), 1int, 0int,
    {
        self.lemma_post_list_multiset(i, 0);
        let a = self.post_list(i, 0);
        let b = self.pre_list(i, 0);
        lemma_multiset_commutative(a, seq![i as usize]);
        lemma_multiset_commutative(seq![i as usize], b);
        assert(a.push(i as usize) =~= a + seq![i as usize]);
        assert(self.post_node(i).to_multiset() =~= self.pre_node(i).to_multiset()) by {
            assert(self.pre_node(i) == seq![i as usize] + b);
        }
    }

    /// The subtrees of a level are the level itself and the subtrees of the
    /// next level.
    pub proof fn lemma_next_level_multiset(&self, level: Seq<usize>, depth: nat)
        requires
            self.wf(),
            self.level_ok(level, depth),
        ensures
            self.subtrees_of(level) == level.to_multiset().add(self.subtrees_of(self.next_level(level))),
        decreases level.len(),
    {
        if level.len() == 0 {
            assert(level.to_multiset() =~= Multiset::empty());
            assert(self.subtrees_of(level) =~= level.to_multiset().add(self.subtrees_of(self.next_level(level))));
        } else {
            let rest = level.drop_last();
            let x = level.last();
            assert(level[level.len() - 1] == x);
            assert(self.level_ok(rest, depth)) by {
                assert forall|j: int| 0 <= j < rest.len() implies {
                    &&& self@.active(#[trigger] rest[j] as int)
                    &&& self.depth_of(rest[j] as int) == depth
                } by {
                    assert(rest[j] == level[j]);
                }
            }
            self.lemma_next_level_multiset(rest, depth);
            let ch = self@.children(x as int);
            self.lemma_subtrees_of_concat(self.next_level(rest), ch);
            self.lemma_pre_list_multiset(x as int, 0);
            assert(ch.subrange(0, ch.len() as int) =~= ch);
            lemma_multiset_commutative(seq![x], self.pre_list(x as int, 0));
            assert(rest.push(x) =~= level);
            assert(level.to_multiset() =~= rest.to_multiset().insert(x)) by {
                rest.to_multiset_ensures();
            }
            assert(seq![x].to_multiset() =~= Multiset::empty().insert(x)) by {
                Seq::<usize>::empty().to_multiset_ensures();
                assert(Seq::<usize>::empty().push(x) =~= seq![x]);
            }
            assert(self.subtrees_of(level) =~= level.to_multiset().add(self.subtrees_of(self.next_level(level))));
        }
    }

    /// A breadth-first walk from a level visits the nodes of the subtrees of
    /// the level, as often as they occur there, provided the fuel reaches
    /// past the deepest possible level.
    pub proof fn lemma_levels_multiset(&self, level: Seq<usize>, depth: nat, fuel: nat)
        requires
            self.wf(),
            self.level_ok(level, depth),
            depth + fuel >= self@.n(),
        ensures
            self.levels(level, fuel).to_multiset() == self.subtrees_of(level),
        decreases fuel,
    {
        if level.len() == 0 {
            assert(self.levels(level, fuel) =~= Seq::<usize>::empty());
            assert(self.subtrees_of(level) =~= Multiset::empty());
        } else if fuel == 0 {
            let x = level[0] as int;
            assert(self.wf_slot(x));
        } else {
            self.lemma_next_level_ok(level, depth);
            self.lemma_levels_multiset(self.next_level(level), depth + 1, (fuel - 1) as nat);
            self.lemma_next_level_multiset(level, depth);
            lemma_multiset_commutative(level, self.levels(self.next_level(level), (fuel - 1) as nat));
        }
    }

    /// The breadth-first order of the subtree of `i` visits the same nodes,
    /// as often, as its depth-first order.
    pub proof fn lemma_bfs_node_multiset(&self, i: int)
        requires
            self.wf(),
            self@.active(i),
        ensures
            self.bfs_node(i).to_multiset() == self.pre_node(i).to_multiset(),
    {
        let level = seq![i as usize];
        assert(self.level_ok(level, self.depth_of(i)));
        self.lemma_levels_multiset(level, self.depth_of(i), self@.n());
        self.lemma_subtrees_of_single(i as usize);
    }
}

} // verus!
