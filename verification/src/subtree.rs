use vstd::prelude::*;

use crate::tree::Tree;

verus! {

impl<T, M> Tree<T, M> {
    /// Nodes of the subtree rooted at `i` in depth-first pre-order: the node
    /// itself, then the subtrees of its children from left to right.
    pub open(crate) spec fn pre_node(&self, i: int) -> Seq<usize>
        decreases self@.n() - self.depth_of(i), 1int, 0int,
    {
        seq![i as usize] + self.pre_list(i, 0)
    }

    /// Concatenated pre-orders of the subtrees of the children of `i`, from
    /// its `k`-th child on.
    pub open(crate) spec fn pre_list(&self, i: int, k: int) -> Seq<usize>
        decreases self@.n() - self.depth_of(i), 0int, self@.children(i).len() - k,
    {
        if 0 <= k < self@.children(i).len() {
            let c = self@.children(i)[k] as int;
            if self.depth_of(i) < self.depth_of(c) <= self@.n() {
                self.pre_node(c) + self.pre_list(i, k + 1)
            } else {
                self.pre_list(i, k + 1)
            }
        } else {
            Seq::empty()
        }
    }

    /// Nodes of the subtree rooted at `i` in depth-first post-order: the
    /// subtrees of its children from left to right, then the node itself.
    pub open(crate) spec fn post_node(&self, i: int) -> Seq<usize>
        decreases self@.n() - self.depth_of(i), 1int, 0int,
    {
        self.post_list(i, 0).push(i as usize)
    }

    /// Concatenated post-orders of the subtrees of the children of `i`, from
    /// its `k`-th child on.
    pub open(crate) spec fn post_list(&self, i: int, k: int) -> Seq<usize>
        decreases self@.n() - self.depth_of(i), 0int, self@.children(i).len() - k,
    {
        if 0 <= k < self@.children(i).len() {
            let c = self@.children(i)[k] as int;
            if self.depth_of(i) < self.depth_of(c) <= self@.n() {
                self.post_node(c) + self.post_list(i, k + 1)
            } else {
                self.post_list(i, k + 1)
            }
        } else {
            Seq::empty()
        }
    }

    /// Under well-formedness every child of an active node passes the depth
    /// guard of the traversal definitions, so a child list unfolds into the
    /// subtree of its first child followed by the rest.
    pub proof fn lemma_pre_list_unfold(&self, i: int, k: int)
        requires
            self.wf(),
            self@.active(i),
            0 <= k < self@.children(i).len(),
        ensures
            self.pre_list(i, k) == self.pre_node(self@.children(i)[k] as int) + self.pre_list(i, k + 1),
            self.post_list(i, k) == self.post_node(self@.children(i)[k] as int) + self.post_list(i, k + 1),
            self@.active(self@.children(i)[k] as int),
            self@.parent(self@.children(i)[k] as int) == Some(i as usize),
            self.depth_of(self@.children(i)[k] as int) == self.depth_of(i) + 1,
    {
        assert(self.wf_slot(i));
        let c = self@.children(i)[k] as int;
        assert(self.wf_slot(c));
    }

    /// Past the last child the child lists are empty.
    pub proof fn lemma_list_end(&self, i: int)
        ensures
            self.pre_list(i, self@.children(i).len() as int) == Seq::<usize>::empty(),
            self.post_list(i, self@.children(i).len() as int) == Seq::<usize>::empty(),
    {
    }

    /// Every member of the subtree lists is an active node deeper than `i`
    /// whose parent is `i` or another member of the list.
    pub proof fn lemma_pre_list_members(&self, i: int, k: int)
        requires
            self.wf(),
            self@.active(i),
            0 <= k,
        ensures
            forall|x: int| 0 <= x < self.pre_list(i, k).len() ==> {
                let j = #[trigger] self.pre_list(i, k)[x] as int;
                &&& self@.active(j)
                &&& self.depth_of(j) > self.depth_of(i)
                &&& self@.parent(j) is Some
                &&& (self@.parent(j) == Some(i as usize) || self.pre_list(i, k).contains(
                    self@.parent(j)->0,
                ))
            },
        decreases self@.n() - self.depth_of(i), 0int, self@.children(i).len() - k,
    {
        if k < self@.children(i).len() {
            self.lemma_pre_list_unfold(i, k);
            let c = self@.children(i)[k] as int;
            assert(self.wf_slot(i));
            assert(self.wf_slot(c));
            self.lemma_pre_node_members(c);
            self.lemma_pre_list_members(i, k + 1);
            let a = self.pre_node(c);
            let b = self.pre_list(i, k + 1);
            assert forall|x: int| 0 <= x < self.pre_list(i, k).len() implies {
                let j = #[trigger] self.pre_list(i, k)[x] as int;
                &&& self@.active(j)
                &&& self.depth_of(j) > self.depth_of(i)
                &&& self@.parent(j) is Some
                &&& (self@.parent(j) == Some(i as usize) || self.pre_list(i, k).contains(
                    self@.parent(j)->0,
                ))
            } by {
                let l = self.pre_list(i, k);
                if x < a.len() {
                    assert(l[x] == a[x]);
                    let j = a[x] as int;
                    if j != c {
                        let p = self@.parent(j)->0;
                        let y = a.index_of(p);
                        assert(l[y] == a[y]);
                    }
                } else {
                    assert(l[x] == b[x - a.len()]);
                    let j = b[x - a.len()] as int;
                    if self@.parent(j) != Some(i as usize) {
                        let p = self@.parent(j)->0;
                        let y = b.index_of(p);
                        assert(l[y + a.len()] == b[y]);
                    }
                }
            }
        } else {
            self.lemma_list_end(i);
        }
    }

    /// Every member of the subtree of `i` is an active node at least as deep
    /// as `i`; members other than `i` are deeper and their parents are members.
    pub proof fn lemma_pre_node_members(&self, i: int)
        requires
            self.wf(),
            self@.active(i),
        ensures
            self.pre_node(i)[0] == i,
            forall|x: int| 0 <= x < self.pre_node(i).len() ==> {
                let j = #[trigger] self.pre_node(i)[x] as int;
                &&& self@.active(j)
                &&& self.depth_of(j) >= self.depth_of(i)
                &&& (j != i ==> {
                    &&& self.depth_of(j) > self.depth_of(i)
                    &&& self@.parent(j) is Some
                    &&& self.pre_node(i).contains(self@.parent(j)->0)
                })
            },
        decreases self@.n() - self.depth_of(i), 1int, 0int,
    {
        self.lemma_pre_list_members(i, 0);
        let l = self.pre_list(i, 0);
        let s = self.pre_node(i);
        assert forall|x: int| 0 <= x < s.len() implies {
            let j = #[trigger] s[x] as int;
            &&& self@.active(j)
            &&& self.depth_of(j) >= self.depth_of(i)
            &&& (j != i ==> {
                &&& self.depth_of(j) > self.depth_of(i)
                &&& self@.parent(j) is Some
                &&& s.contains(self@.parent(j)->0)
            })
        } by {
            if x > 0 {
                assert(s[x] == l[x - 1]);
                let j = l[x - 1] as int;
                let p = self@.parent(j)->0;
                if p == i {
                    assert(s[0] == i);
                } else {
                    let y = l.index_of(p);
                    assert(s[y + 1] == l[y]);
                }
            }
        }
    }

    /// The subtree lists of `i` from child `k` on contain those children and
    /// are closed under taking children.
    pub proof fn lemma_pre_list_closed(&self, i: int, k: int)
        requires
            self.wf(),
            self@.active(i),
            0 <= k,
        ensures
            forall|k2: int|
                k <= k2 < self@.children(i).len() ==> self.pre_list(i, k).contains(
                    #[trigger] self@.children(i)[k2],
                ),
            forall|x: int, k2: int|
                0 <= x < self.pre_list(i, k).len() && 0 <= k2 < self@.children(
                    self.pre_list(i, k)[x] as int,
                ).len() ==> self.pre_list(i, k).contains(
                    #[trigger] self@.children(#[trigger] self.pre_list(i, k)[x] as int)[k2],
                ),
        decreases self@.n() - self.depth_of(i), 0int, self@.children(i).len() - k,
    {
        if k < self@.children(i).len() {
            self.lemma_pre_list_unfold(i, k);
            let c = self@.children(i)[k] as int;
            self.lemma_pre_node_closed(c);
            self.lemma_pre_list_closed(i, k + 1);
            let a = self.pre_node(c);
            let b = self.pre_list(i, k + 1);
            let l = self.pre_list(i, k);
            assert(l[0] == a[0]);
            assert forall|k2: int| k <= k2 < self@.children(i).len() implies l.contains(
                #[trigger] self@.children(i)[k2],
            ) by {
                if k2 > k {
                    let y = b.index_of(self@.children(i)[k2]);
                    assert(l[y + a.len()] == b[y]);
                }
            }
            assert forall|x: int, k2: int|
                0 <= x < l.len() && 0 <= k2 < self@.children(l[x] as int).len() implies l.contains(
                #[trigger] self@.children(#[trigger] l[x] as int)[k2],
            ) by {
                if x < a.len() {
                    assert(l[x] == a[x]);
                    let y = a.index_of(self@.children(a[x] as int)[k2]);
                    assert(l[y] == a[y]);
                } else {
                    assert(l[x] == b[x - a.len()]);
                    let y = b.index_of(self@.children(b[x - a.len()] as int)[k2]);
                    assert(l[y + a.len()] == b[y]);
                }
            }
        } else {
            self.lemma_list_end(i);
        }
    }

    /// The subtree of `i` is closed under taking children.
    pub proof fn lemma_pre_node_closed(&self, i: int)
        requires
            self.wf(),
            self@.active(i),
        ensures
            forall|x: int, k2: int|
                0 <= x < self.pre_node(i).len() && 0 <= k2 < self@.children(
                    self.pre_node(i)[x] as int,
                ).len() ==> self.pre_node(i).contains(
                    #[trigger] self@.children(#[trigger] self.pre_node(i)[x] as int)[k2],
                ),
        decreases self@.n() - self.depth_of(i), 1int, 0int,
    {
        self.lemma_pre_list_closed(i, 0);
        let l = self.pre_list(i, 0);
        let s = self.pre_node(i);
        assert forall|x: int, k2: int|
            0 <= x < s.len() && 0 <= k2 < self@.children(s[x] as int).len() implies s.contains(
            #[trigger] self@.children(#[trigger] s[x] as int)[k2],
        ) by {
            let ch = self@.children(s[x] as int)[k2];
            if x == 0 {
                assert(l.contains(self@.children(i)[k2]));
                let y = l.index_of(ch);
                assert(s[y + 1] == l[y]);
            } else {
                assert(s[x] == l[x - 1]);
                let y = l.index_of(ch);
                assert(s[y + 1] == l[y]);
            }
        }
    }

    /// Every member of the post-order lists of `i` is an active node.
    pub proof fn lemma_post_list_active(&self, i: int, k: int)
        requires
            self.wf(),
            self@.active(i),
            0 <= k,
        ensures
            forall|x: int| 0 <= x < self.post_list(i, k).len() ==> self@.active(#[trigger] self.post_list(i, k)[x] as int)
                && self.depth_of(self.post_list(i, k)[x] as int) > self.depth_of(i),
        decreases self@.n() - self.depth_of(i), 0int, self@.children(i).len() - k,
    {
        if k < self@.children(i).len() {
            self.lemma_pre_list_unfold(i, k);
            let c = self@.children(i)[k] as int;
            assert(self.wf_slot(c));
            self.lemma_post_node_active(c);
            self.lemma_post_list_active(i, k + 1);
            let a = self.post_node(c);
            let b = self.post_list(i, k + 1);
            let l = self.post_list(i, k);
            assert forall|x: int| 0 <= x < l.len() implies self@.active(#[trigger] l[x] as int)
                && self.depth_of(l[x] as int) > self.depth_of(i) by {
                if x < a.len() {
                    assert(l[x] == a[x]);
                } else {
                    assert(l[x] == b[x - a.len()]);
                }
            }
        } else {
            self.lemma_list_end(i);
        }
    }

    /// Every member of the post-order of the subtree of `i` is an active node;
    /// the last one is `i`.
    pub proof fn lemma_post_node_active(&self, i: int)
        requires
            self.wf(),
            self@.active(i),
        ensures
            forall|x: int| 0 <= x < self.post_node(i).len() ==> self@.active(#[trigger] self.post_node(i)[x] as int)
                && self.depth_of(self.post_node(i)[x] as int) >= self.depth_of(i),
            self.post_node(i).last() == i,
        decreases self@.n() - self.depth_of(i), 1int, 0int,
    {
        self.lemma_post_list_active(i, 0);
        let l = self.post_list(i, 0);
        let s = self.post_node(i);
        assert forall|x: int| 0 <= x < s.len() implies self@.active(#[trigger] s[x] as int)
            && self.depth_of(s[x] as int) >= self.depth_of(i) by {
            if x < l.len() {
                assert(s[x] == l[x]);
            }
        }
    }

    /// Every child of `i` from child `k` on appears in the post-order lists
    /// of `i` from `k` on.
    pub proof fn lemma_post_list_has_children(&self, i: int, k: int)
        requires
            self.wf(),
            self@.active(i),
            0 <= k,
        ensures
            forall|t: int|
                k <= t < self@.children(i).len() ==> self.post_list(i, k).contains(#[trigger] self@.children(i)[t]),
        decreases self@.children(i).len() - k,
    {
        if k < self@.children(i).len() {
            self.lemma_pre_list_unfold(i, k);
            let c = self@.children(i)[k] as int;
            self.lemma_post_node_active(c);
            self.lemma_post_list_has_children(i, k + 1);
            let a = self.post_node(c);
            let b = self.post_list(i, k + 1);
            let l = self.post_list(i, k);
            assert forall|t: int| k <= t < self@.children(i).len() implies l.contains(
                #[trigger] self@.children(i)[t],
            ) by {
                if t == k {
                    assert(l[a.len() - 1] == a[a.len() - 1]);
                } else {
                    let y = b.index_of(self@.children(i)[t]);
                    assert(l[a.len() + y] == b[y]);
                }
            }
        }
    }

    /// In the post-order lists of `i` from child `k` on, the children of
    /// every node come before it.
    pub proof fn lemma_post_list_children_first(&self, i: int, k: int)
        requires
            self.wf(),
            self@.active(i),
            0 <= k,
        ensures
            forall|x: int, t: int|
                0 <= x < self.post_list(i, k).len() && 0 <= t < self@.children(self.post_list(i, k)[x] as int).len()
                    ==> self.post_list(i, k).subrange(0, x).contains(
                    #[trigger] self@.children(#[trigger] self.post_list(i, k)[x] as int)[t],
                ),
        decreases self@.n() - self.depth_of(i), 0int, self@.children(i).len() - k,
    {
        if k < self@.children(i).len() {
            self.lemma_pre_list_unfold(i, k);
            let c = self@.children(i)[k] as int;
            assert(self.wf_slot(c));
            self.lemma_post_node_children_first(c);
            self.lemma_post_list_children_first(i, k + 1);
            let a = self.post_node(c);
            let b = self.post_list(i, k + 1);
            let l = self.post_list(i, k);
            assert forall|x: int, t: int|
                0 <= x < l.len() && 0 <= t < self@.children(l[x] as int).len() implies l.subrange(0, x).contains(
                #[trigger] self@.children(#[trigger] l[x] as int)[t],
            ) by {
                if x < a.len() {
                    assert(l[x] == a[x]);
                    let ch = self@.children(a[x] as int)[t];
                    assert(a.subrange(0, x).contains(ch));
                    let y = a.subrange(0, x).index_of(ch);
                    assert(l.subrange(0, x)[y] == a.subrange(0, x)[y]);
                } else {
                    let x1 = x - a.len();
                    assert(l[x] == b[x1]);
                    let ch = self@.children(b[x1] as int)[t];
                    assert(b.subrange(0, x1).contains(ch));
                    let y = b.subrange(0, x1).index_of(ch);
                    assert(l.subrange(0, x)[a.len() + y] == b.subrange(0, x1)[y]);
                }
            }
        } else {
            self.lemma_list_end(i);
        }
    }

    /// In the post-order of the subtree of `i`, the children of every node
    /// come before it.
    pub proof fn lemma_post_node_children_first(&self, i: int)
        requires
            self.wf(),
            self@.active(i),
        ensures
            forall|x: int, t: int|
                0 <= x < self.post_node(i).len() && 0 <= t < self@.children(self.post_node(i)[x] as int).len()
                    ==> self.post_node(i).subrange(0, x).contains(
                    #[trigger] self@.children(#[trigger] self.post_node(i)[x] as int)[t],
                ),
        decreases self@.n() - self.depth_of(i), 1int, 0int,
    {
        self.lemma_post_list_children_first(i, 0);
        self.lemma_post_list_has_children(i, 0);
        let l = self.post_list(i, 0);
        let s = self.post_node(i);
        assert forall|x: int, t: int|
            0 <= x < s.len() && 0 <= t < self@.children(s[x] as int).len() implies s.subrange(0, x).contains(
            #[trigger] self@.children(#[trigger] s[x] as int)[t],
        ) by {
            if x < l.len() {
                assert(s[x] == l[x]);
                let ch = self@.children(l[x] as int)[t];
                assert(l.subrange(0, x).contains(ch));
                let y = l.subrange(0, x).index_of(ch);
                assert(s.subrange(0, x)[y] == l.subrange(0, x)[y]);
            } else {
                assert(s[x] == i);
                let ch = self@.children(i)[t];
                assert(l.contains(ch));
                let y = l.index_of(ch);
                assert(s.subrange(0, x)[y] == l[y]);
            }
        }
    }

    /// The ancestor of `j` at depth `d` (`j` itself if it is not deeper).
    pub open(crate) spec fn anc_at(&self, j: int, d: nat) -> int
        decreases self.depth_of(j),
    {
        if self.depth_of(j) <= d {
            j
        } else {
            match self@.parent(j) {
                Some(p) => if self.depth_of(p as int) < self.depth_of(j) {
                    self.anc_at(p as int, d)
                } else {
                    j
                },
                None => j,
            }
        }
    }

    /// Every member of the subtree of `c` has `c` as its ancestor at the depth of `c`.
    pub proof fn lemma_anc_in_subtree(&self, c: int, j: int)
        requires
            self.wf(),
            self@.active(c),
            0 <= j <= usize::MAX,
            self.pre_node(c).contains(j as usize),
        ensures
            self.anc_at(j, self.depth_of(c)) == c,
        decreases self.depth_of(j),
    {
        self.lemma_pre_node_members(c);
        let x = self.pre_node(c).index_of(j as usize);
        assert(self.pre_node(c)[x] == j);
        if j != c {
            let p = self@.parent(j)->0 as int;
            assert(self.wf_slot(j));
            self.lemma_anc_in_subtree(c, p);
        }
    }

    /// The ancestor at depth one below `i` of every member of the subtree
    /// lists of `i` from child `k` on is one of the children from `k` on.
    pub proof fn lemma_pre_list_anc(&self, i: int, k: int)
        requires
            self.wf(),
            self@.active(i),
            0 <= k,
        ensures
            forall|x: int|
                0 <= x < self.pre_list(i, k).len() ==> self@.children(i).subrange(k, self@.children(i).len() as int).contains(
                    self.anc_at(#[trigger] self.pre_list(i, k)[x] as int, self.depth_of(i) + 1) as usize,
                ),
        decreases self@.children(i).len() - k,
    {
        if k < self@.children(i).len() {
            self.lemma_pre_list_unfold(i, k);
            let c = self@.children(i)[k] as int;
            self.lemma_pre_list_anc(i, k + 1);
            let a = self.pre_node(c);
            let b = self.pre_list(i, k + 1);
            let l = self.pre_list(i, k);
            let ch = self@.children(i);
            assert forall|x: int| 0 <= x < l.len() implies ch.subrange(k, ch.len() as int).contains(
                self.anc_at(#[trigger] l[x] as int, self.depth_of(i) + 1) as usize,
            ) by {
                if x < a.len() {
                    assert(l[x] == a[x]);
                    assert(a.contains(a[x]));
                    self.lemma_anc_in_subtree(c, a[x] as int);
                    assert(ch.subrange(k, ch.len() as int)[0] == c);
                } else {
                    assert(l[x] == b[x - a.len()]);
                    let y = ch.subrange(k + 1, ch.len() as int).index_of(
                        self.anc_at(b[x - a.len()] as int, self.depth_of(i) + 1) as usize,
                    );
                    assert(ch.subrange(k, ch.len() as int)[y + 1] == ch.subrange(k + 1, ch.len() as int)[y]);
                }
            }
        } else {
            self.lemma_list_end(i);
        }
    }

    /// The subtree lists of `i` from child `k` on visit no node twice.
    pub proof fn lemma_pre_list_no_dup(&self, i: int, k: int)
        requires
            self.wf(),
            self@.active(i),
            0 <= k,
        ensures
            self.pre_list(i, k).no_duplicates(),
        decreases self@.n() - self.depth_of(i), 0int, self@.children(i).len() - k,
    {
        if k < self@.children(i).len() {
            self.lemma_pre_list_unfold(i, k);
            let c = self@.children(i)[k] as int;
            assert(self.wf_slot(c));
            self.lemma_pre_node_no_dup(c);
            self.lemma_pre_list_no_dup(i, k + 1);
            self.lemma_pre_list_anc(i, k + 1);
            assert(self.wf_slot(i));
            let a = self.pre_node(c);
            let b = self.pre_list(i, k + 1);
            let l = self.pre_list(i, k);
            let ch = self@.children(i);
            assert forall|x: int, y: int| 0 <= x < l.len() && 0 <= y < l.len() && x != y implies l[x] != l[y] by {
                if x < a.len() && y >= a.len() {
                    assert(l[x] == a[x]);
                    assert(l[y] == b[y - a.len()]);
                    if l[x] == l[y] {
                        assert(a.contains(a[x]));
                        self.lemma_anc_in_subtree(c, a[x] as int);
                        let z = ch.subrange(k + 1, ch.len() as int).index_of(c as usize);
                        assert(ch[k + 1 + z] == ch[k]);
                    }
                } else if y < a.len() && x >= a.len() {
                    assert(l[y] == a[y]);
                    assert(l[x] == b[x - a.len()]);
                    if l[x] == l[y] {
                        assert(a.contains(a[y]));
                        self.lemma_anc_in_subtree(c, a[y] as int);
                        let z = ch.subrange(k + 1, ch.len() as int).index_of(c as usize);
                        assert(ch[k + 1 + z] == ch[k]);
                    }
                } else if x < a.len() {
                    assert(l[x] == a[x] && l[y] == a[y]);
                } else {
                    assert(l[x] == b[x - a.len()] && l[y] == b[y - a.len()]);
                }
            }
        } else {
            self.lemma_list_end(i);
        }
    }

    /// The depth-first order of the subtree of `i` visits no node twice.
    pub proof fn lemma_pre_node_no_dup(&self, i: int)
        requires
            self.wf(),
            self@.active(i),
        ensures
            self.pre_node(i).no_duplicates(),
        decreases self@.n() - self.depth_of(i), 1int, 0int,
    {
        self.lemma_pre_list_no_dup(i, 0);
        self.lemma_pre_list_members(i, 0);
        let l = self.pre_list(i, 0);
        let s = self.pre_node(i);
        assert forall|x: int, y: int| 0 <= x < s.len() && 0 <= y < s.len() && x != y implies s[x] != s[y] by {
            if x > 0 && y > 0 {
                assert(s[x] == l[x - 1] && s[y] == l[y - 1]);
            } else if x == 0 {
                assert(s[y] == l[y - 1]);
            } else {
                assert(s[x] == l[x - 1]);
            }
        }
    }

    /// Along the subtree lists of `i` from child `k` on, the first node is a
    /// child of `i`, every node is deeper than `i`, and the depth rises by at
    /// most one from one node to the next.
    pub proof fn lemma_pre_list_steps(&self, i: int, k: int)
        requires
            self.wf(),
            self@.active(i),
            0 <= k,
        ensures
            self.pre_list(i, k).len() > 0 ==> self.depth_of(self.pre_list(i, k)[0] as int) == self.depth_of(i) + 1,
            forall|x: int|
                0 <= x < self.pre_list(i, k).len() ==> self.depth_of(#[trigger] self.pre_list(i, k)[x] as int)
                    > self.depth_of(i),
            forall|x: int|
                1 <= x < self.pre_list(i, k).len() ==> self.depth_of(#[trigger] self.pre_list(i, k)[x] as int)
                    <= self.depth_of(self.pre_list(i, k)[x - 1] as int) + 1,
        decreases self@.n() - self.depth_of(i), 0int, self@.children(i).len() - k,
    {
        self.lemma_pre_list_members(i, k);
        if k < self@.children(i).len() {
            self.lemma_pre_list_unfold(i, k);
            let c = self@.children(i)[k] as int;
            assert(self.wf_slot(c));
            self.lemma_pre_node_steps(c);
            self.lemma_pre_node_members(c);
            self.lemma_pre_list_steps(i, k + 1);
            let a = self.pre_node(c);
            let b = self.pre_list(i, k + 1);
            let l = self.pre_list(i, k);
            assert(l[0] == a[0]);
            assert forall|x: int| 1 <= x < l.len() implies self.depth_of(#[trigger] l[x] as int) <= self.depth_of(
                l[x - 1] as int,
            ) + 1 by {
                if x < a.len() {
                    assert(l[x] == a[x] && l[x - 1] == a[x - 1]);
                } else if x == a.len() {
                    assert(l[x] == b[0] && l[x - 1] == a[x - 1]);
                } else {
                    assert(l[x] == b[x - a.len()] && l[x - 1] == b[x - 1 - a.len()]);
                }
            }
        } else {
            self.lemma_list_end(i);
        }
    }

    /// Along the depth-first order of the subtree of `i`, every node after
    /// `i` is deeper than `i` and the depth rises by at most one from one
    /// node to the next.
    pub proof fn lemma_pre_node_steps(&self, i: int)
        requires
            self.wf(),
            self@.active(i),
        ensures
            self.pre_node(i)[0] == i,
            forall|x: int| 1 <= x < self.pre_node(i).len() ==> self.depth_of(#[trigger] self.pre_node(i)[x] as int) > self.depth_of(i),
            forall|x: int|
                1 <= x < self.pre_node(i).len() ==> self.depth_of(#[trigger] self.pre_node(i)[x] as int)
                    <= self.depth_of(self.pre_node(i)[x - 1] as int) + 1,
        decreases self@.n() - self.depth_of(i), 1int, 0int,
    {
        self.lemma_pre_list_steps(i, 0);
        let l = self.pre_list(i, 0);
        let s = self.pre_node(i);
        assert forall|x: int| 1 <= x < s.len() implies self.depth_of(#[trigger] s[x] as int) > self.depth_of(i) by {
            assert(s[x] == l[x - 1]);
        }
        assert forall|x: int| 1 <= x < s.len() implies self.depth_of(#[trigger] s[x] as int) <= self.depth_of(
            s[x - 1] as int,
        ) + 1 by {
            assert(s[x] == l[x - 1]);
            if x > 1 {
                assert(s[x - 1] == l[x - 2]);
            }
        }
    }

    /// Whether `j` belongs to the subtree rooted at `i` (`i` itself included).
    pub open spec fn in_subtree(&self, j: int, i: int) -> bool {
        self.pre_node(i).contains(j as usize)
    }
}

} // verus!
