use vstd::prelude::*;

use crate::reclaim::{lemma_distinct_below, lemma_rank_mono, rank};
use crate::tree::{count_active, lemma_count_push, lemma_count_update, lemma_count_zero, NodeView, Tree, TreeView};

verus! {

impl<T, M> Tree<T, M> {
    /// Every active node belongs to the subtree of the root.
    pub proof fn lemma_in_root_subtree(&self, j: int)
        requires
            self.wf(),
            self@.active(j),
        ensures
            self@.root is Some,
            self.pre_node(self@.root->0 as int).contains(j as usize),
        decreases self.depth_of(j),
    {
        assert(self.wf_slot(j));
        match self@.root {
            Some(r) => {},
            None => {
                lemma_count_zero(self@.nodes);
                assert(self@.nodes[j].data is Some);
            },
        }
        let r = self@.root->0 as int;
        match self@.parent(j) {
            None => {
                self.lemma_pre_node_members(r);
                assert(self.pre_node(r)[0] == r);
            },
            Some(q) => {
                assert(self.wf_slot(q as int));
                self.lemma_in_root_subtree(q as int);
                self.lemma_pre_node_closed(r);
                let s = self.pre_node(r);
                let x = s.index_of(q);
                let k = self@.children(q as int).index_of(j as usize);
                assert(s[x] == q);
                assert(self@.children(s[x] as int)[k] == j);
            },
        }
    }

    /// The node and its ancestors are distinct active nodes, one per depth
    /// from the node's depth down to the root's.
    pub proof fn lemma_ancestors(&self, j: int)
        requires
            self.wf_links(),
            self@.active(j),
        ensures
            self.ancestors_of(j).len() == self.depth_of(j) + 1,
            self.ancestors_of(j).no_duplicates(),
            forall|k: int|
                0 <= k < self.ancestors_of(j).len() ==> self@.active(
                    #[trigger] self.ancestors_of(j)[k] as int,
                ) && self.depth_of(self.ancestors_of(j)[k] as int) == self.depth_of(j) - k,
        decreases self.depth_of(j),
    {
        assert(self.wf_slot_links(j));
        let a = self.ancestors_of(j);
        match self@.parent(j) {
            Some(p) => {
                assert(self.wf_slot_links(p as int));
                self.lemma_ancestors(p as int);
                let b = self.ancestors_of(p as int);
                assert(a == seq![j as usize] + b);
                assert forall|k: int| 0 <= k < a.len() implies self@.active(#[trigger] a[k] as int)
                    && self.depth_of(a[k] as int) == self.depth_of(j) - k by {
                    if k > 0 {
                        assert(a[k] == b[k - 1]);
                    }
                }
                assert forall|x: int, y: int| 0 <= x < a.len() && 0 <= y < a.len() && x != y implies a[x] != a[y] by {
                    if a[x] == a[y] {
                        assert(self.depth_of(a[x] as int) == self.depth_of(j) - x);
                        assert(self.depth_of(a[y] as int) == self.depth_of(j) - y);
                    }
                }
            },
            None => {
                assert(self@.root == Some(j as usize));
                assert(a == seq![j as usize]);
            },
        }
    }

    /// The depth of a node is smaller than the number of nodes.
    pub proof fn lemma_depth_below_len(&self, j: int)
        requires
            self.wf_links(),
            self@.active(j),
        ensures
            self.depth_of(j) < self@.num_nodes(),
    {
        self.lemma_ancestors(j);
        let a = self.ancestors_of(j);
        let nodes = self@.nodes;
        let ranks = a.map_values(|x: usize| rank(nodes, x as int) as usize);
        assert forall|k: int| 0 <= k < ranks.len() implies (#[trigger] ranks[k] as int) < self@.num_nodes() by {
            let x = a[k] as int;
            assert(self@.active(x));
            lemma_rank_mono(nodes, x, nodes.len() as int);
            assert(nodes.take(nodes.len() as int) =~= nodes);
        }
        assert(ranks.no_duplicates()) by {
            assert forall|x: int, y: int| 0 <= x < ranks.len() && 0 <= y < ranks.len() && x != y implies ranks[x] != ranks[y] by {
                let ax = a[x] as int;
                let ay = a[y] as int;
                assert(ax != ay);
                assert(self@.active(ax) && self@.active(ay));
                if ax < ay {
                    lemma_rank_mono(nodes, ax, ay);
                } else {
                    lemma_rank_mono(nodes, ay, ax);
                }
                lemma_rank_mono(nodes, ax, nodes.len() as int);
                lemma_rank_mono(nodes, ay, nodes.len() as int);
                assert(nodes.take(nodes.len() as int) =~= nodes);
            }
        }
        lemma_distinct_below(ranks, self@.num_nodes());
    }

    /// Closing the subtrees of the children of `i` and clearing its children
    /// list leaves a well-formed tree.
    pub(crate) proof fn lemma_remove_children_wf(&self, old: &Self, i: int)
        requires
            old.wf(),
            old@.active(i),
            self@ == old@.clear_children(i).without(old.pre_list(i, 0).to_set()),
            self.len == count_active(self@.nodes),
            self.depths@ == old.depths@,
        ensures
            self.wf(),
    {
        let l = old.pre_list(i, 0);
        let set = l.to_set();
        let s = old.pre_node(i);
        let v = self@;
        let o = old@;
        old.lemma_pre_list_members(i, 0);
        old.lemma_pre_node_closed(i);
        old.lemma_pre_node_members(i);
        assert(s == seq![i as usize] + l);
        assert(old.wf_slot(i));
        assert forall|j: usize| #[trigger] set.contains(j) implies o.active(j as int) && old.depth_of(j as int) > old.depth_of(i)
            && o.parent(j as int) is Some && (o.parent(j as int) == Some(i as usize) || set.contains(o.parent(j as int)->0)) by {
            let x = l.index_of(j);
            assert(l[x] == j);
        }
        assert forall|j: usize, k: int| #[trigger] set.contains(j) && 0 <= k < o.children(j as int).len()
            implies set.contains(#[trigger] o.children(j as int)[k]) by {
            let x = l.index_of(j);
            assert(l[x] == j);
            assert(s[x + 1] == j);
            let c = o.children(j as int)[k];
            let y = s.index_of(c);
            assert(s[y] == c);
            assert(old.wf_slot(j as int));
            if y == 0 {
                assert(old.depth_of(c as int) == old.depth_of(j as int) + 1);
                assert(false);
            }
            assert(l[y - 1] == c);
        }
        assert forall|k: int| 0 <= k < o.children(i).len() implies set.contains(#[trigger] o.children(i)[k]) by {
            let c = o.children(i)[k];
            assert(s[0] == i as usize);
            let y = s.index_of(c);
            assert(s[y] == c);
            assert(old.wf_slot(c as int));
            if y == 0 {
                assert(false);
            }
            assert(l[y - 1] == c);
        }
        assert(!set.contains(i as usize));
        assert forall|j: int| 0 <= j < v.n() implies #[trigger] self.wf_slot(j) by {
            assert(old.wf_slot(j));
            if set.contains(j as usize) {
                if v.root == Some(j as usize) {
                    assert(o.parent(j) is Some);
                    assert(false);
                }
            } else if j == i {
                match o.parent(i) {
                    Some(q) => {
                        assert(old.wf_slot(q as int));
                        if set.contains(q) {
                            assert(false);
                        }
                    },
                    None => {},
                }
            } else {
                let nd = o.nodes[j];
                assert(v.nodes[j] == nd);
                if nd.data is Some {
                    assert forall|x: int| 0 <= x < nd.children.len() implies {
                        let c = #[trigger] nd.children[x] as int;
                        &&& v.active(c)
                        &&& v.nodes[c].parent == Some(j as usize)
                    } by {
                        let c = nd.children[x] as int;
                        assert(old.wf_slot(c));
                        if set.contains(c as usize) {
                            assert(false);
                        }
                        if c == i {
                            assert(v.nodes[c].parent == o.nodes[c].parent);
                        } else {
                            assert(v.nodes[c] == o.nodes[c]);
                        }
                    }
                    match nd.parent {
                        Some(q) => {
                            assert(old.wf_slot(q as int));
                            if set.contains(q) {
                                let kk = o.children(q as int).index_of(j as usize);
                                assert(set.contains(o.children(q as int)[kk]));
                            }
                            if q as int == i {
                                let kk = o.children(i).index_of(j as usize);
                                assert(set.contains(o.children(i)[kk]));
                            }
                            assert(v.nodes[q as int] == o.nodes[q as int]);
                        },
                        None => {},
                    }
                } else {
                    if v.root == Some(j as usize) {
                        assert(false);
                    }
                }
            }
        }
        match v.root {
            Some(r) => {
                assert(old.wf_slot(r as int));
                if set.contains(r) {
                    assert(false);
                }
            },
            None => {
                lemma_count_zero(o.nodes);
                assert(o.nodes[i].data is Some);
            },
        }
    }

    /// Facts on the subtree of `i` used when nodes are inserted above or
    /// removed from between `i` and its descendants: members are active, at
    /// least as deep as `i`; members other than `i` have their parent in the
    /// subtree; children of members are members.
    pub proof fn lemma_subtree_set(&self, i: int)
        requires
            self.wf(),
            self@.active(i),
        ensures
            self.pre_node(i).to_set().contains(i as usize),
            forall|j: usize| #[trigger] self.pre_node(i).to_set().contains(j) ==> {
                &&& self@.active(j as int)
                &&& self.depth_of(j as int) >= self.depth_of(i)
                &&& (j as int != i ==> {
                    &&& self.depth_of(j as int) > self.depth_of(i)
                    &&& self@.parent(j as int) is Some
                    &&& self.pre_node(i).to_set().contains(self@.parent(j as int)->0)
                })
            },
            forall|j: usize, k: int|
                #[trigger] self.pre_node(i).to_set().contains(j) && 0 <= k < self@.children(j as int).len()
                    ==> self.pre_node(i).to_set().contains(#[trigger] self@.children(j as int)[k]),
    {
        let s = self.pre_node(i);
        self.lemma_pre_node_members(i);
        self.lemma_pre_node_closed(i);
        assert(s[0] == i as usize);
        assert forall|j: usize| #[trigger] s.to_set().contains(j) implies {
            &&& self@.active(j as int)
            &&& self.depth_of(j as int) >= self.depth_of(i)
            &&& (j as int != i ==> {
                &&& self.depth_of(j as int) > self.depth_of(i)
                &&& self@.parent(j as int) is Some
                &&& s.to_set().contains(self@.parent(j as int)->0)
            })
        } by {
            let x = s.index_of(j);
            assert(s[x] == j);
        }
        assert forall|j: usize, k: int| #[trigger] s.to_set().contains(j) && 0 <= k < self@.children(j as int).len()
            implies s.to_set().contains(#[trigger] self@.children(j as int)[k]) by {
            let x = s.index_of(j);
            assert(s[x] == j);
        }
    }

    /// Inserting a new node between `i` and its parent, with the depths of the
    /// subtree of `i` increased by one, leaves a well-formed tree.
    pub(crate) proof fn lemma_push_parent_wf(&self, old: &Self, i: int, value: T)
        requires
            old.wf(),
            old@.active(i),
            old@.n() + 1 < usize::MAX,
            self@ == old@.insert_parent(i, value),
            self.len == old.len + 1,
            self.depths@ == Seq::new(
                old@.n() + 1,
                |j: int| if j == old@.n() {
                    old.depths@[i]
                } else if old.pre_node(i).to_set().contains(j as usize) {
                    old.depths@[j] + 1
                } else {
                    old.depths@[j]
                },
            ),
        ensures
            self.wf(),
    {
        let o = old@;
        let v = self@;
        let n = o.n() as int;
        let q = n;
        let set = old.pre_node(i).to_set();
        old.lemma_subtree_set(i);
        assert(old.wf_slot(i));
        let pi = o.parent(i);
        let k = o.sibling_index(i);
        if pi is Some {
            let p = pi->0 as int;
            assert(old.wf_slot(p));
            let ch = o.children(p);
            let w = ch.index_of(i as usize);
            assert(ch[w] == i as usize);
            assert(k == w);
            assert(!set.contains(p as usize));
        }
        assert(v.nodes.len() == n + 1);
        // count of active nodes grows by one
        let lower = o.nodes.update(i, NodeView { data: o.nodes[i].data, parent: Some(q as usize), children: o.nodes[i].children });
        lemma_count_update(o.nodes, i, lower[i]);
        match pi {
            Some(p) => {
                let up = lower.update(p as int, v.nodes[p as int]);
                assert(v.nodes == up.push(v.nodes[q]));
                lemma_count_update(lower, p as int, v.nodes[p as int]);
                lemma_count_push(up, v.nodes[q]);
            },
            None => {
                assert(v.nodes == lower.push(v.nodes[q]));
                lemma_count_push(lower, v.nodes[q]);
            },
        }
        assert forall|j: int| 0 <= j < v.n() implies #[trigger] self.wf_slot(j) by {
            if j < n {
                assert(old.wf_slot(j));
            }
            if j == q {
                assert(v.nodes[j].children == seq![i as usize]);
                match pi {
                    Some(p) => {
                        let nch = v.nodes[p as int].children;
                        assert(nch[k] == q as usize);
                    },
                    None => {},
                }
            } else if j == i {
                let nd = v.nodes[j];
                assert forall|x: int| 0 <= x < nd.children.len() implies {
                    let c = #[trigger] nd.children[x] as int;
                    &&& v.active(c)
                    &&& v.nodes[c].parent == Some(j as usize)
                } by {
                    let c = nd.children[x] as int;
                    assert(old.wf_slot(c));
                    if pi is Some {
                        assert(c != pi->0 as int);
                    }
                }
                assert(v.nodes[q].children[0] == i as usize);
            } else if pi == Some(j as usize) {
                let ch = o.children(j);
                let nch = v.nodes[j].children;
                assert(nch == ch.update(k, q as usize));
                assert(nch.no_duplicates()) by {
                    assert forall|a: int, b: int| 0 <= a < nch.len() && 0 <= b < nch.len() && a != b implies nch[a] != nch[b] by {
                        if a != k && b != k {
                        } else if a == k {
                            assert(o.active(ch[b] as int));
                        } else {
                            assert(o.active(ch[a] as int));
                        }
                    }
                }
                assert forall|x: int| 0 <= x < nch.len() implies {
                    let c = #[trigger] nch[x] as int;
                    &&& v.active(c)
                    &&& v.nodes[c].parent == Some(j as usize)
                } by {
                    if x != k {
                        let c = ch[x] as int;
                        assert(old.wf_slot(c));
                        assert(c != i);
                        if set.contains(c as usize) {
                            assert(false);
                        }
                    }
                }
                match o.parent(j) {
                    Some(r) => {
                        assert(old.wf_slot(r as int));
                        if set.contains(r) {
                            let kk = o.children(r as int).index_of(j as usize);
                            assert(set.contains(o.children(r as int)[kk]));
                        }
                        assert(r as int != i);
                        if pi == Some(r) {
                            assert(false);
                        }
                        assert(v.nodes[r as int] == o.nodes[r as int]);
                    },
                    None => {},
                }
            } else if j < n {
                let nd = o.nodes[j];
                assert(v.nodes[j] == nd);
                if nd.data is Some {
                    assert forall|x: int| 0 <= x < nd.children.len() implies {
                        let c = #[trigger] nd.children[x] as int;
                        &&& v.active(c)
                        &&& v.nodes[c].parent == Some(j as usize)
                    } by {
                        let c = nd.children[x] as int;
                        assert(old.wf_slot(c));
                        if c == i {
                            assert(pi == Some(j as usize));
                        }
                        if pi == Some(c as usize) {
                            assert(v.nodes[c].parent == o.nodes[c].parent);
                        } else {
                            assert(v.nodes[c] == o.nodes[c]);
                        }
                    }
                    match nd.parent {
                        Some(r) => {
                            assert(old.wf_slot(r as int));
                            if set.contains(r) {
                                let kk = o.children(r as int).index_of(j as usize);
                                assert(set.contains(o.children(r as int)[kk]));
                            }
                            if set.contains(j as usize) {
                                assert(set.contains(r));
                            }
                            if pi == Some(r) {
                                let pch = o.children(r as int);
                                let w = pch.index_of(j as usize);
                                assert(pch[w] == j as usize);
                                assert(w != k);
                                assert(v.nodes[r as int].children[w] == j as usize);
                            } else if r as int == i {
                                assert(v.nodes[r as int].children == o.nodes[r as int].children);
                            } else {
                                assert(v.nodes[r as int] == o.nodes[r as int]);
                            }
                        },
                        None => {
                            assert(o.root == Some(j as usize));
                            if pi is None {
                                assert(o.root == Some(i as usize));
                            }
                        },
                    }
                } else {
                    if v.root == Some(j as usize) {
                        if pi is None {
                            assert(false);
                        }
                        assert(false);
                    }
                }
            }
        }
        match v.root {
            Some(r) => {
                if r as int != q {
                    assert(pi is Some);
                    assert(o.root == Some(r));
                    assert(old.wf_slot(r as int));
                    if set.contains(r) {
                        if r as int != i {
                            assert(o.parent(r as int) is Some);
                        }
                        assert(false);
                    }
                    if pi == Some(r) {
                        assert(v.nodes[r as int].parent == o.nodes[r as int].parent);
                    }
                }
            },
            None => {
                assert(pi is Some);
                assert(o.root is None);
                lemma_count_zero(o.nodes);
                assert(o.nodes[i].data is Some);
            },
        }
    }

    /// One position of the tree left by taking out the node at `i` is well-formed.
    #[verifier::spinoff_prover]
    #[verifier::rlimit(60)]
    pub(crate) proof fn lemma_take_out_slot(&self, old: &Self, i: int, j: int)
        requires
            old.wf(),
            old@.active(i),
            old@.parent(i) is Some || old@.children(i).len() <= 1,
            self@ == old@.take_out(i),
            self.depths@ == Seq::new(
                old@.n(),
                |j: int| if old.pre_node(i).to_set().contains(j as usize) && j != i {
                    (old.depths@[j] - 1) as nat
                } else {
                    old.depths@[j]
                },
            ),
            0 <= j < old@.n(),
        ensures
            self.wf_slot(j),
    {
        let o = old@;
        let v = self@;
        let n = o.n() as int;
        let set = old.pre_node(i).to_set();
        old.lemma_subtree_set(i);
        assert(old.wf_slot(i));
        let pi = o.parent(i);
        let ich = o.children(i);
        let k = o.sibling_index(i);
        assert forall|x: int| 0 <= x < ich.len() implies #[trigger] set.contains(ich[x]) && o.active(ich[x] as int)
            && o.parent(ich[x] as int) == Some(i as usize) && old.depth_of(ich[x] as int) == old.depth_of(i) + 1 by {
            assert(set.contains(i as usize));
            assert(old.wf_slot(ich[x] as int));
        }
        if pi is Some {
            let p = pi->0 as int;
            assert(old.wf_slot(p));
            let ch = o.children(p);
            let w = ch.index_of(i as usize);
            assert(ch[w] == i as usize);
            assert(k == w);
            assert(!set.contains(p as usize));
        }
        assert(old.wf_slot(j));
        if j == i {
            if v.root == Some(j as usize) {
                if o.root == Some(i as usize) {
                    assert(ich.len() > 0);
                    assert(ich[0] != i as usize);
                }
                assert(false);
            }
        } else if o.parent(j) == Some(i as usize) {
            // a child of `i`: moves up
            let nd = v.nodes[j];
            assert(nd.children == o.children(j));
            assert(set.contains(j as usize));
            assert forall|x: int| 0 <= x < nd.children.len() implies {
                let c = #[trigger] nd.children[x] as int;
                &&& v.active(c)
                &&& v.nodes[c].parent == Some(j as usize)
            } by {
                let c = nd.children[x] as int;
                assert(old.wf_slot(c));
                assert(c != i);
                if pi == Some(c as usize) {
                    assert(old.depth_of(c) < old.depth_of(i));
                    assert(false);
                }
                assert(o.parent(c) != Some(i as usize));
            }
            match pi {
                Some(p) => {
                    let pch = o.children(p as int);
                    let nch = pch.take(k) + ich + pch.skip(k + 1);
                    assert(v.nodes[p as int].children == nch);
                    let y = ich.index_of(j as usize);
                    assert(ich[y] == j as usize);
                    assert(nch[k + y] == j as usize);
                    assert(self.depths@[j] == old.depths@[j] - 1);
                    assert(self.depths@[p as int] == old.depths@[p as int]);
                },
                None => {
                    assert(o.root == Some(i as usize));
                    assert(ich.len() <= 1);
                    let y = ich.index_of(j as usize);
                    assert(ich[y] == j as usize);
                    assert(y == 0);
                    assert(v.root == Some(j as usize));
                },
            }
        } else if pi == Some(j as usize) {
            // the parent of `i`: its children list is spliced
            let pch = o.children(j);
            let nch = pch.take(k) + ich + pch.skip(k + 1);
            assert(v.nodes[j].children == nch);
            assert forall|x: int| 0 <= x < nch.len() implies {
                let c = #[trigger] nch[x] as int;
                &&& v.active(c)
                &&& v.nodes[c].parent == Some(j as usize)
                &&& (c as int) < n
            } by {
                if x < k {
                    assert(nch[x] == pch[x]);
                    let c = pch[x] as int;
                    assert(old.wf_slot(c));
                    assert(c != i);
                } else if x < k + ich.len() {
                    assert(nch[x] == ich[x - k]);
                } else {
                    assert(nch[x] == pch[x - ich.len() + 1]);
                    let c = pch[x - ich.len() + 1] as int;
                    assert(old.wf_slot(c));
                    assert(c != i);
                }
            }
            assert(nch.no_duplicates()) by {
                assert forall|a: int, b: int| 0 <= a < nch.len() && 0 <= b < nch.len() && a != b implies nch[a] != nch[b] by {
                    let a_in_ich = k <= a < k + ich.len();
                    let b_in_ich = k <= b < k + ich.len();
                    let ia = if a < k { a } else { a - ich.len() + 1 };
                    let ib = if b < k { b } else { b - ich.len() + 1 };
                    if a_in_ich && b_in_ich {
                        assert(nch[a] == ich[a - k]);
                        assert(nch[b] == ich[b - k]);
                    } else if a_in_ich {
                        assert(nch[a] == ich[a - k]);
                        assert(nch[b] == pch[ib]);
                        assert(o.parent(pch[ib] as int) == Some(j as usize));
                    } else if b_in_ich {
                        assert(nch[b] == ich[b - k]);
                        assert(nch[a] == pch[ia]);
                        assert(o.parent(pch[ia] as int) == Some(j as usize));
                    } else {
                        assert(nch[a] == pch[ia]);
                        assert(nch[b] == pch[ib]);
                        assert(ia != ib);
                    }
                }
            }
            assert forall|x: int| 0 <= x < nch.len() implies (#[trigger] nch[x] as int) < n by {}
            crate::reclaim::lemma_distinct_below(nch, n as nat);
            match o.parent(j) {
                Some(r) => {
                    assert(old.wf_slot(r as int));
                    if set.contains(r) {
                        let kk = o.children(r as int).index_of(j as usize);
                        assert(set.contains(o.children(r as int)[kk]));
                    }
                    assert(r as int != i);
                    if o.parent(r as int) == Some(i as usize) {
                        assert(set.contains(r));
                    }
                    assert(v.nodes[r as int] == o.nodes[r as int]);
                },
                None => {},
            }
        } else {
            let nd = o.nodes[j];
            assert(v.nodes[j] == nd);
            if nd.data is Some {
                assert forall|x: int| 0 <= x < nd.children.len() implies {
                    let c = #[trigger] nd.children[x] as int;
                    &&& v.active(c)
                    &&& v.nodes[c].parent == Some(j as usize)
                } by {
                    let c = nd.children[x] as int;
                    assert(old.wf_slot(c));
                    if c == i {
                        assert(pi == Some(j as usize));
                    }
                    if pi == Some(c as usize) {
                        assert(v.nodes[c].parent == o.nodes[c].parent);
                    } else {
                        assert(v.nodes[c] == o.nodes[c]);
                    }
                }
                match nd.parent {
                    Some(r) => {
                        assert(old.wf_slot(r as int));
                        assert(r as int != i);
                        if set.contains(r) {
                            let kk = o.children(r as int).index_of(j as usize);
                            assert(set.contains(o.children(r as int)[kk]));
                        }
                        if set.contains(j as usize) {
                            assert(set.contains(r));
                        }
                        if pi == Some(r) {
                            let pch = o.children(r as int);
                            let w = pch.index_of(j as usize);
                            assert(pch[w] == j as usize);
                            assert(w != k);
                            let nch = pch.take(k) + ich + pch.skip(k + 1);
                            if w < k {
                                assert(nch[w] == j as usize);
                            } else {
                                assert(nch[w + ich.len() - 1] == j as usize);
                            }
                        } else if o.parent(r as int) == Some(i as usize) {
                            assert(v.nodes[r as int].children == o.nodes[r as int].children);
                        } else {
                            assert(v.nodes[r as int] == o.nodes[r as int]);
                        }
                    },
                    None => {
                        assert(o.root == Some(j as usize));
                    },
                }
            } else {
                if v.root == Some(j as usize) {
                    if o.root == Some(i as usize) {
                        assert(o.active(ich[0] as int));
                    }
                    assert(false);
                }
            }
        }
    }

    /// Taking out the node at `i` (its children moving up to its place, the
    /// depths of its descendants decreased by one) leaves a well-formed tree.
    pub(crate) proof fn lemma_take_out_wf(&self, old: &Self, i: int)
        requires
            old.wf(),
            old@.active(i),
            old@.parent(i) is Some || old@.children(i).len() <= 1,
            self@ == old@.take_out(i),
            self.len + 1 == old.len,
            self.depths@ == Seq::new(
                old@.n(),
                |j: int| if old.pre_node(i).to_set().contains(j as usize) && j != i {
                    (old.depths@[j] - 1) as nat
                } else {
                    old.depths@[j]
                },
            ),
        ensures
            self.wf(),
    {
        let o = old@;
        let v = self@;
        let n = o.n() as int;
        let set = old.pre_node(i).to_set();
        old.lemma_subtree_set(i);
        assert(old.wf_slot(i));
        let pi = o.parent(i);
        let ich = o.children(i);
        let k = o.sibling_index(i);
        assert forall|x: int| 0 <= x < ich.len() implies #[trigger] set.contains(ich[x]) && o.active(ich[x] as int)
            && o.parent(ich[x] as int) == Some(i as usize) && old.depth_of(ich[x] as int) == old.depth_of(i) + 1 by {
            assert(set.contains(i as usize));
            assert(old.wf_slot(ich[x] as int));
        }
        if pi is Some {
            let p = pi->0 as int;
            assert(old.wf_slot(p));
            let ch = o.children(p);
            let w = ch.index_of(i as usize);
            assert(ch[w] == i as usize);
            assert(k == w);
            assert(!set.contains(p as usize));
        }
        // the count drops by one: only `i` becomes closed
        assert forall|j: int| 0 <= j < n implies ((#[trigger] v.nodes[j]).data is Some <==> (o.nodes[j].data is Some && j != i)) by {}
        let mid = o.nodes.update(i, TreeView::<T>::closed_node());
        lemma_count_update(o.nodes, i, TreeView::<T>::closed_node());
        assert forall|j: int| 0 <= j < n implies ((#[trigger] v.nodes[j]).data is Some <==> mid[j].data is Some) by {}
        crate::tree::lemma_count_same(v.nodes, mid);
        assert forall|j: int| 0 <= j < v.n() implies #[trigger] self.wf_slot(j) by {
            self.lemma_take_out_slot(old, i, j);
        }
        match v.root {
            Some(r) => {
                if o.root == Some(i as usize) {
                    assert(ich.len() > 0);
                    assert(r == ich[0]);
                    assert(o.active(r as int));
                } else {
                    assert(o.root == Some(r));
                    assert(old.wf_slot(r as int));
                    if set.contains(r) {
                        assert(o.parent(r as int) is Some);
                        assert(false);
                    }
                    if pi == Some(r) {
                        assert(v.nodes[r as int].parent == o.nodes[r as int].parent);
                    }
                }
            },
            None => {
                if o.root == Some(i as usize) {
                    assert(ich.len() == 0);
                    assert(old.pre_node(i) =~= seq![i as usize]);
                    assert forall|j: int| 0 <= j < n implies !(#[trigger] v.nodes[j].data is Some) by {
                        if v.nodes[j].data is Some {
                            old.lemma_in_root_subtree(j);
                        }
                    }
                    lemma_count_zero(v.nodes);
                } else {
                    assert(o.root is None);
                    lemma_count_zero(o.nodes);
                    assert(o.nodes[i].data is Some);
                }
            },
        }
    }

    /// Closing the subtree of `i` after unlinking `i` from its parent leaves a
    /// well-formed tree.
    pub(crate) proof fn lemma_prune_wf(&self, old: &Self, i: int)
        requires
            old.wf(),
            old@.active(i),
            self@ == old@.detach(i).without(old.pre_node(i).to_set()),
            self.len == count_active(self@.nodes),
            self.depths@ == old.depths@,
        ensures
            self.wf(),
    {
        let s = old.pre_node(i);
        let set = s.to_set();
        let v = self@;
        let o = old@;
        old.lemma_pre_node_members(i);
        old.lemma_pre_node_closed(i);
        assert(old.wf_slot(i));
        assert(s[0] == i);
        assert(set.contains(i as usize));
        // members of the subtree other than `i` are deeper than `i`
        assert forall|j: usize| #[trigger] set.contains(j) implies o.active(j as int) && old.depth_of(j as int) >= old.depth_of(i)
            && (j as int != i ==> old.depth_of(j as int) > old.depth_of(i) && o.parent(j as int) is Some && set.contains(o.parent(j as int)->0)) by {
            let x = s.index_of(j);
            assert(s[x] == j);
        }
        // children of members are members
        assert forall|j: usize, k: int| #[trigger] set.contains(j) && 0 <= k < o.children(j as int).len()
            implies set.contains(#[trigger] o.children(j as int)[k]) by {
            let x = s.index_of(j);
            assert(s[x] == j);
        }
        let parent_i = o.parent(i);
        assert forall|j: int| 0 <= j < v.n() implies #[trigger] self.wf_slot(j) by {
            assert(old.wf_slot(j));
            if set.contains(j as usize) {
                assert(v.nodes[j] == TreeView::<T>::closed_node());
                if v.root == Some(j as usize) {
                    assert(o.root == Some(j as usize));
                    assert(o.parent(j) is None);
                    if j != i {
                        assert(o.parent(j) is Some);
                    }
                    assert(parent_i is Some);
                    assert(false);
                }
            } else {
                let nd = o.nodes[j];
                if parent_i == Some(j as usize) {
                    let p = j;
                    let k = o.sibling_index(i);
                    let ch = o.children(p);
                    assert(ch.contains(i as usize));
                    let w = ch.index_of(i as usize);
                    assert(ch[w] == i as usize);
                    assert(ch.no_duplicates());
                    assert(k == w);
                    let nch = ch.remove(k);
                    ch.remove_ensures(k);
                    assert(v.nodes[j] == (NodeView { data: nd.data, parent: nd.parent, children: nch }));
                    assert(nch.no_duplicates()) by {
                        assert forall|a: int, b: int| 0 <= a < nch.len() && 0 <= b < nch.len() && a != b implies nch[a] != nch[b] by {
                            let a0 = if a < k { a } else { a + 1 };
                            let b0 = if b < k { b } else { b + 1 };
                            assert(nch[a] == ch[a0]);
                            assert(nch[b] == ch[b0]);
                        }
                    }
                    assert forall|x: int| 0 <= x < nch.len() implies {
                        let c = #[trigger] nch[x] as int;
                        &&& v.active(c)
                        &&& v.nodes[c].parent == Some(j as usize)
                    } by {
                        let x0 = if x < k { x } else { x + 1 };
                        assert(nch[x] == ch[x0]);
                        let c = ch[x0] as int;
                        assert(c != i);
                        assert(old.wf_slot(c));
                        if set.contains(c as usize) {
                            assert(set.contains(o.parent(c)->0));
                        }
                        assert(v.nodes[c] == o.nodes[c]);
                    }
                    match nd.parent {
                        Some(q) => {
                            assert(old.wf_slot(q as int));
                            if set.contains(q) {
                                let kk = o.children(q as int).index_of(j as usize);
                                assert(set.contains(o.children(q as int)[kk]));
                            }
                            assert(q != j as usize);
                            assert(v.nodes[q as int] == o.nodes[q as int]);
                        },
                        None => {},
                    }
                } else {
                    assert(v.nodes[j] == nd);
                    if nd.data is Some {
                        assert forall|x: int| 0 <= x < nd.children.len() implies {
                            let c = #[trigger] nd.children[x] as int;
                            &&& v.active(c)
                            &&& v.nodes[c].parent == Some(j as usize)
                        } by {
                            let c = nd.children[x] as int;
                            assert(old.wf_slot(c));
                            if set.contains(c as usize) {
                                if c == i {
                                    assert(parent_i == Some(j as usize));
                                }
                                assert(set.contains(o.parent(c)->0));
                            }
                            if parent_i == Some(c as usize) {
                                assert(v.nodes[c].parent == o.nodes[c].parent);
                                assert(v.nodes[c].data == o.nodes[c].data);
                            } else {
                                assert(v.nodes[c] == o.nodes[c]);
                            }
                        }
                        match nd.parent {
                            Some(q) => {
                                assert(old.wf_slot(q as int));
                                if set.contains(q) {
                                    let kk = o.children(q as int).index_of(j as usize);
                                    assert(set.contains(o.children(q as int)[kk]));
                                }
                                if parent_i == Some(q) {
                                    let pc = o.children(q as int);
                                    let k = o.sibling_index(i);
                                    pc.remove_ensures(k);
                                    let w = pc.index_of(j as usize);
                                    assert(pc[w] == j as usize);
                                    let w2 = if w < k { w } else { w - 1 };
                                    assert(w != k);
                                    assert(pc.remove(k)[w2] == j as usize);
                                    assert(v.nodes[q as int].children.contains(j as usize));
                                } else {
                                    assert(v.nodes[q as int] == o.nodes[q as int]);
                                }
                            },
                            None => {
                                assert(o.root == Some(j as usize));
                                if parent_i is None {
                                    assert(o.root == Some(i as usize));
                                    assert(false);
                                }
                            },
                        }
                    } else {
                        if v.root == Some(j as usize) {
                            assert(false);
                        }
                    }
                }
            }
        }
        match v.root {
            Some(r) => {
                assert(old.wf_slot(r as int));
                if set.contains(r) {
                    if r as int != i {
                        assert(o.parent(r as int) is Some);
                    }
                    assert(false);
                }
            },
            None => {
                // `i` was the root: every active node was in its subtree
                if parent_i is Some {
                    assert(v.root == o.root);
                    old.lemma_in_root_subtree(i);
                    assert(false);
                }
                assert(o.root == Some(i as usize));
                assert forall|j: int| 0 <= j < v.n() implies !(#[trigger] v.nodes[j].data is Some) by {
                    if o.active(j) {
                        old.lemma_in_root_subtree(j);
                    }
                }
                lemma_count_zero(v.nodes);
            },
        }
    }
}

} // verus!
