//! The tree adapter: parent / first-child / next-sibling edges over
//! arena-index node identities, with pre-order flattening and child
//! iteration.
//!
//! The solver requires a well-formed tree ([`Tree::wf`]): edges point at
//! valid indices, a first child or next sibling always has a larger index
//! than the node it is reached from (which makes every walk terminate and
//! rules out cycles), and parent edges agree with the sibling chains.  The
//! batch [`Tree::attach_children`] operation preserves well-formedness.

use vstd::prelude::*;

verus! {

/// The identities of a sequence of `usize` nodes, as mathematical integers.
pub open spec fn as_ints(s: Seq<usize>) -> Seq<int> {
    s.map_values(|u: usize| u as int)
}

/// An externally-populated hierarchy: one optional parent, first-child and
/// next-sibling edge per node, plus a designated root.
pub struct Tree {
    pub root: usize,
    pub parents: Vec<Option<usize>>,
    pub first_children: Vec<Option<usize>>,
    pub next_siblings: Vec<Option<usize>>,
}

impl Tree {
    /// Number of node identities.
    pub open spec fn n(self) -> int {
        self.parents@.len() as int
    }

    /// `x` is a node identity of this tree.
    pub open spec fn valid(self, x: int) -> bool {
        0 <= x < self.n()
    }

    /// The parent edge of `x`.
    pub open spec fn parent_of(self, x: int) -> Option<int> {
        if self.valid(x) {
            match self.parents@[x] {
                Some(p) => Some(p as int),
                None => None,
            }
        } else {
            None
        }
    }

    /// The first-child edge of `x`.
    pub open spec fn fc_of(self, x: int) -> Option<int> {
        if self.valid(x) {
            match self.first_children@[x] {
                Some(c) => Some(c as int),
                None => None,
            }
        } else {
            None
        }
    }

    /// The next-sibling edge of `x`.
    pub open spec fn ns_of(self, x: int) -> Option<int> {
        if self.valid(x) {
            match self.next_siblings@[x] {
                Some(s) => Some(s as int),
                None => None,
            }
        } else {
            None
        }
    }

    /// Edge sanity: equal table lengths, valid root, child and sibling
    /// edges strictly increasing, parent edges strictly decreasing, the
    /// root unparented, and no sibling edge on an unparented node.
    pub open spec fn edges_wf(self) -> bool {
        &&& self.first_children@.len() == self.n()
        &&& self.next_siblings@.len() == self.n()
        &&& self.valid(self.root as int)
        &&& self.parent_of(self.root as int) is None
        &&& (forall|i: int|
            self.valid(i) ==> match #[trigger] self.fc_of(i) {
                Some(c) => i < c < self.n(),
                None => true,
            })
        &&& (forall|i: int|
            self.valid(i) ==> match #[trigger] self.ns_of(i) {
                Some(s) => i < s < self.n(),
                None => true,
            })
        &&& (forall|i: int|
            self.valid(i) ==> match #[trigger] self.parent_of(i) {
                Some(p) => 0 <= p < i,
                None => true,
            })
        &&& (forall|i: int|
            self.valid(i) && #[trigger] self.parent_of(i) is None ==> self.ns_of(i) is None)
    }

    /// The sibling chain starting at node `j`: `j` itself followed by every
    /// node reachable through next-sibling edges.
    pub open spec fn sib_chain(self, j: int) -> Seq<int>
        decreases self.n() - j,
    {
        if self.valid(j) {
            match self.ns_of(j) {
                Some(s) => if j < s < self.n() {
                    seq![j] + self.sib_chain(s)
                } else {
                    seq![j]
                },
                None => seq![j],
            }
        } else {
            Seq::empty()
        }
    }

    /// The ordered children of `p`: the sibling chain starting at `p`'s
    /// first child.
    pub open spec fn children_of(self, p: int) -> Seq<int> {
        if self.valid(p) {
            match self.fc_of(p) {
                Some(c) => self.sib_chain(c),
                None => Seq::empty(),
            }
        } else {
            Seq::empty()
        }
    }

    /// Full well-formedness: edge sanity plus agreement between parent
    /// edges and sibling chains, in both directions.
    pub open spec fn wf(self) -> bool {
        &&& self.edges_wf()
        &&& (forall|p: int, k: int|
            self.valid(p) && 0 <= k < self.children_of(p).len()
                ==> self.parent_of(#[trigger] self.children_of(p)[k]) == Some(p))
        &&& (forall|j: int|
            self.valid(j) ==> match #[trigger] self.parent_of(j) {
                Some(p) => self.children_of(p).contains(j),
                None => true,
            })
    }

    /// The pre-order sequence of the subtree rooted at `i`: `i` first, then
    /// the subtrees of its children in order.
    pub open spec fn subtree(self, i: int) -> Seq<int>
        decreases self.n() - i, 0int,
    {
        if self.valid(i) {
            seq![i] + (match self.fc_of(i) {
                Some(c) => if i < c < self.n() {
                    self.sub_forest(c)
                } else {
                    Seq::empty()
                },
                None => Seq::empty(),
            })
        } else {
            Seq::empty()
        }
    }

    /// The pre-order sequence of the forest rooted at the sibling chain of
    /// `j`: the subtree of `j`, then the subtrees of its later siblings.
    pub open spec fn sub_forest(self, j: int) -> Seq<int>
        decreases self.n() - j, 1int,
    {
        if self.valid(j) {
            self.subtree(j) + (match self.ns_of(j) {
                Some(s) => if j < s < self.n() {
                    self.sub_forest(s)
                } else {
                    Seq::empty()
                },
                None => Seq::empty(),
            })
        } else {
            Seq::empty()
        }
    }

    /// What pre-order still has to visit once the subtree of `x` is done:
    /// the forests of `x`'s later siblings, then those of its ancestors'
    /// later siblings.
    pub open spec fn rest_after(self, x: int) -> Seq<int>
        decreases x,
    {
        if self.valid(x) {
            match self.parent_of(x) {
                Some(p) => if 0 <= p < x {
                    (match self.ns_of(x) {
                        Some(s) => if x < s < self.n() {
                            self.sub_forest(s)
                        } else {
                            Seq::empty()
                        },
                        None => Seq::empty(),
                    }) + self.rest_after(p)
                } else {
                    Seq::empty()
                },
                None => Seq::empty(),
            }
        } else {
            Seq::empty()
        }
    }
}

/// Either side of a concatenation contributes its elements.
pub proof fn lemma_concat_contains(a: Seq<int>, b: Seq<int>, x: int)
    requires
        a.contains(x) || b.contains(x),
    ensures
        (a + b).contains(x),
{
    if a.contains(x) {
        let k = choose|k: int| 0 <= k < a.len() && a[k] == x;
        assert((a + b)[k] == x);
    } else {
        let k = choose|k: int| 0 <= k < b.len() && b[k] == x;
        assert((a + b)[a.len() + k] == x);
    }
}

impl Tree {
    /// Structure of a sibling chain: non-empty, headed by its start node,
    /// strictly increasing, linked by next-sibling edges, and ending at the
    /// one chain node without a next sibling.
    pub proof fn lemma_chain(self, c: int)
        requires
            self.edges_wf(),
            self.valid(c),
        ensures
            self.sib_chain(c).len() >= 1,
            self.sib_chain(c)[0] == c,
            forall|k: int|
                0 <= k < self.sib_chain(c).len()
                    ==> self.valid(#[trigger] self.sib_chain(c)[k]) && c <= self.sib_chain(c)[k],
            forall|k: int|
                #![trigger self.ns_of(self.sib_chain(c)[k])]
                0 <= k < self.sib_chain(c).len() - 1
                    ==> self.ns_of(self.sib_chain(c)[k]) == Some(self.sib_chain(c)[k + 1]),
            forall|k: int|
                #![trigger self.sib_chain(c)[k], self.sib_chain(c)[k + 1]]
                0 <= k < self.sib_chain(c).len() - 1
                    ==> self.sib_chain(c)[k] < self.sib_chain(c)[k + 1],
            self.ns_of(self.sib_chain(c).last()) is None,
        decreases self.n() - c,
    {
        match self.ns_of(c) {
            Some(s) => {
                self.lemma_chain(s);
                let ch = self.sib_chain(c);
                let tail = self.sib_chain(s);
                assert(ch == seq![c] + tail);
                assert forall|k: int|
                    #![trigger self.ns_of(ch[k])]
                    0 <= k < ch.len() - 1 implies self.ns_of(ch[k]) == Some(ch[k + 1]) by {
                    if k == 0 {
                        assert(ch[0] == c);
                        assert(ch[1] == tail[0]);
                    } else {
                        assert(ch[k] == tail[k - 1]);
                        assert(ch[k + 1] == tail[k]);
                    }
                }
                assert forall|k: int|
                    #![trigger ch[k], ch[k + 1]]
                    0 <= k < ch.len() - 1 implies ch[k] < ch[k + 1] by {
                    if k == 0 {
                        assert(ch[0] == c);
                        assert(ch[1] == tail[0]);
                        assert(tail[0] == s);
                    } else {
                        assert(ch[k] == tail[k - 1]);
                        assert(ch[k + 1] == tail[k]);
                        assert(tail[k - 1] < tail[(k - 1) + 1]);
                    }
                }
                assert(ch.last() == tail.last());
            },
            None => {},
        }
    }

    /// Every element of the subtree of `i` is a valid node no smaller than
    /// `i`, and the subtree starts with `i` itself.
    pub proof fn lemma_subtree_bounds(self, i: int)
        requires
            self.edges_wf(),
            self.valid(i),
        ensures
            self.subtree(i).len() >= 1,
            self.subtree(i)[0] == i,
            forall|k: int|
                0 <= k < self.subtree(i).len()
                    ==> self.valid(#[trigger] self.subtree(i)[k]) && i <= self.subtree(i)[k],
        decreases self.n() - i, 0int,
    {
        match self.fc_of(i) {
            Some(c) => {
                self.lemma_forest_bounds(c);
                assert forall|k: int| 0 <= k < self.subtree(i).len() implies self.valid(
                    #[trigger] self.subtree(i)[k],
                ) && i <= self.subtree(i)[k] by {
                    if k > 0 {
                        assert(self.subtree(i)[k] == self.sub_forest(c)[k - 1]);
                    }
                }
            },
            None => {},
        }
    }

    /// Forest version of `lemma_subtree_bounds`.
    pub proof fn lemma_forest_bounds(self, j: int)
        requires
            self.edges_wf(),
            self.valid(j),
        ensures
            forall|k: int|
                0 <= k < self.sub_forest(j).len()
                    ==> self.valid(#[trigger] self.sub_forest(j)[k]) && j <= self.sub_forest(j)[k],
        decreases self.n() - j, 1int,
    {
        self.lemma_subtree_bounds(j);
        match self.ns_of(j) {
            Some(s) => {
                self.lemma_forest_bounds(s);
                assert forall|k: int| 0 <= k < self.sub_forest(j).len() implies self.valid(
                    #[trigger] self.sub_forest(j)[k],
                ) && j <= self.sub_forest(j)[k] by {
                    if k < self.subtree(j).len() {
                        assert(self.sub_forest(j)[k] == self.subtree(j)[k]);
                    } else {
                        assert(self.sub_forest(j)[k] == self.sub_forest(s)[
                            k - self.subtree(j).len()]);
                    }
                }
            },
            None => {
                assert forall|k: int| 0 <= k < self.sub_forest(j).len() implies self.valid(
                    #[trigger] self.sub_forest(j)[k],
                ) && j <= self.sub_forest(j)[k] by {
                    assert(self.sub_forest(j)[k] == self.subtree(j)[k]);
                }
            },
        }
    }

    /// The subtree of any chain member of `j`'s chain sits inside the
    /// forest of `j`.
    pub proof fn lemma_forest_covers_chain(self, j: int, c: int)
        requires
            self.edges_wf(),
            self.valid(j),
            self.sib_chain(j).contains(c),
        ensures
            forall|x: int|
                #[trigger] self.subtree(c).contains(x) ==> self.sub_forest(j).contains(x),
        decreases self.n() - j,
    {
        self.lemma_chain(j);
        if c == j {
            assert forall|x: int| #[trigger] self.subtree(c).contains(x) implies self.sub_forest(
                j,
            ).contains(x) by {
                let rest = match self.ns_of(j) {
                    Some(s) => if j < s < self.n() {
                        self.sub_forest(s)
                    } else {
                        Seq::empty()
                    },
                    None => Seq::<int>::empty(),
                };
                lemma_concat_contains(self.subtree(j), rest, x);
            }
        } else {
            match self.ns_of(j) {
                Some(s) => {
                    assert(self.sib_chain(j) == seq![j] + self.sib_chain(s));
                    let k = choose|k: int|
                        0 <= k < self.sib_chain(j).len() && self.sib_chain(j)[k] == c;
                    assert(self.sib_chain(s)[k - 1] == c);
                    assert(self.sib_chain(s).contains(c));
                    self.lemma_forest_covers_chain(s, c);
                    assert forall|x: int|
                        #[trigger] self.subtree(c).contains(x) implies self.sub_forest(
                        j,
                    ).contains(x) by {
                        lemma_concat_contains(self.subtree(j), self.sub_forest(s), x);
                    }
                },
                None => {
                    assert(self.sib_chain(j) == seq![j]);
                    assert(false);
                },
            }
        }
    }

    /// A child's subtree is contained in its parent's subtree.
    pub proof fn lemma_child_subtree_in_parent(self, p: int, c: int)
        requires
            self.edges_wf(),
            self.valid(p),
            self.children_of(p).contains(c),
        ensures
            forall|x: int| #[trigger] self.subtree(c).contains(x) ==> self.subtree(p).contains(x),
    {
        match self.fc_of(p) {
            Some(c0) => {
                self.lemma_forest_covers_chain(c0, c);
                assert forall|x: int| #[trigger] self.subtree(c).contains(x) implies self.subtree(
                    p,
                ).contains(x) by {
                    lemma_concat_contains(seq![p], self.sub_forest(c0), x);
                }
            },
            None => {},
        }
    }

    /// A subtree contains its root.
    pub proof fn lemma_subtree_contains_root(self, i: int)
        requires
            self.edges_wf(),
            self.valid(i),
        ensures
            self.subtree(i).contains(i),
    {
        self.lemma_subtree_bounds(i);
        assert(self.subtree(i)[0] == i);
    }

    /// Chain members are pairwise distinct (strictly increasing).
    pub proof fn lemma_chain_pairwise(self, c: int, k1: int, k2: int)
        requires
            self.edges_wf(),
            self.valid(c),
            0 <= k1 < k2 < self.sib_chain(c).len(),
        ensures
            self.sib_chain(c)[k1] < self.sib_chain(c)[k2],
        decreases k2 - k1,
    {
        self.lemma_chain(c);
        if k1 + 1 < k2 {
            self.lemma_chain_pairwise(c, k1, k2 - 1);
            assert(self.sib_chain(c)[k2 - 1] < self.sib_chain(c)[(k2 - 1) + 1]);
        } else {
            assert(self.sib_chain(c)[k1] < self.sib_chain(c)[k1 + 1]);
        }
    }

    /// Since a chain is strictly increasing, the index of a member is the
    /// position it is read from.
    pub proof fn lemma_children_index_of(self, p: int, k: int)
        requires
            self.wf(),
            self.valid(p),
            0 <= k < self.children_of(p).len(),
        ensures
            self.children_of(p).index_of(self.children_of(p)[k]) == k,
    {
        let ch = self.children_of(p);
        assert(ch.contains(ch[k]));
        let i = ch.index_of(ch[k]);
        assert(0 <= i < ch.len() && ch[i] == ch[k]);
        match self.fc_of(p) {
            Some(c0) => {
                if i < k {
                    self.lemma_chain_pairwise(c0, i, k);
                } else if k < i {
                    self.lemma_chain_pairwise(c0, k, i);
                }
            },
            None => {},
        }
    }

    /// The combined facts about the `k`-th child of `p` that the solver
    /// needs: identity bounds, parent edge, subtree containment.
    pub proof fn lemma_child_facts(self, p: int, k: int)
        requires
            self.wf(),
            self.valid(p),
            0 <= k < self.children_of(p).len(),
        ensures
            ({
                let c = self.children_of(p)[k];
                &&& self.valid(c)
                &&& p < c
                &&& self.parent_of(c) == Some(p)
                &&& c != self.root as int
                &&& self.children_of(p).index_of(c) == k
                &&& self.subtree(p).contains(c)
                &&& !self.subtree(c).contains(p)
                &&& (forall|x: int|
                    #[trigger] self.subtree(c).contains(x) ==> self.subtree(p).contains(x))
                &&& self.subtree(c).contains(c)
            }),
    {
        let c = self.children_of(p)[k];
        self.lemma_children_valid(p);
        assert(c != self.root as int) by {
            if c == self.root as int {
                assert(self.parent_of(self.root as int) is None);
            }
        }
        self.lemma_children_index_of(p, k);
        assert(self.children_of(p).contains(c));
        self.lemma_child_subtree_in_parent(p, c);
        self.lemma_subtree_bounds(c);
        self.lemma_subtree_contains_root(c);
    }

    /// Every member of a forest lies in the subtree of some chain member.
    pub proof fn lemma_forest_member(self, j: int, x: int)
        requires
            self.edges_wf(),
            self.valid(j),
            self.sub_forest(j).contains(x),
        ensures
            exists|c: int|
                #[trigger] self.sib_chain(j).contains(c) && self.subtree(c).contains(x),
        decreases self.n() - j,
    {
        self.lemma_chain(j);
        let k = choose|k: int| 0 <= k < self.sub_forest(j).len() && self.sub_forest(j)[k] == x;
        if k < self.subtree(j).len() {
            assert(self.subtree(j)[k] == x);
            assert(self.subtree(j).contains(x));
            assert(self.sib_chain(j).contains(j)) by {
                assert(self.sib_chain(j)[0] == j);
            }
        } else {
            match self.ns_of(j) {
                Some(nx) => {
                    assert(self.sub_forest(nx)[k - self.subtree(j).len()] == x);
                    assert(self.sub_forest(nx).contains(x));
                    self.lemma_forest_member(nx, x);
                    let c = choose|c: int|
                        #[trigger] self.sib_chain(nx).contains(c) && self.subtree(c).contains(x);
                    assert(self.sib_chain(j).contains(c)) by {
                        let kk = choose|kk: int|
                            0 <= kk < self.sib_chain(nx).len() && self.sib_chain(nx)[kk] == c;
                        assert(self.sib_chain(j) == seq![j] + self.sib_chain(nx));
                        assert(self.sib_chain(j)[kk + 1] == c);
                    }
                },
                None => {
                    assert(false);
                },
            }
        }
    }

    /// Every strict member of a subtree lies in the subtree of one of the
    /// root's children.
    pub proof fn lemma_subtree_member(self, i: int, x: int)
        requires
            self.edges_wf(),
            self.valid(i),
            self.subtree(i).contains(x),
            x != i,
        ensures
            exists|k: int|
                0 <= k < self.children_of(i).len() && self.subtree(
                    #[trigger] self.children_of(i)[k],
                ).contains(x),
    {
        let kk = choose|kk: int| 0 <= kk < self.subtree(i).len() && self.subtree(i)[kk] == x;
        assert(kk > 0) by {
            assert(self.subtree(i)[0] == i);
            if kk == 0 {
                assert(false);
            }
        }
        match self.fc_of(i) {
            Some(c) => {
                assert(self.sub_forest(c)[kk - 1] == x);
                assert(self.sub_forest(c).contains(x));
                self.lemma_forest_member(c, x);
                let cc = choose|cc: int|
                    #[trigger] self.sib_chain(c).contains(cc) && self.subtree(cc).contains(x);
                let k = choose|k: int|
                    0 <= k < self.sib_chain(c).len() && self.sib_chain(c)[k] == cc;
                assert(self.children_of(i)[k] == cc);
            },
            None => {
                assert(self.subtree(i).len() == 1);
                assert(false);
            },
        }
    }

    /// Children are members of the chain they head or continue, so their
    /// subtrees are covered by the parent's; chain members are valid.
    pub proof fn lemma_children_valid(self, p: int)
        requires
            self.edges_wf(),
            self.valid(p),
        ensures
            forall|k: int|
                0 <= k < self.children_of(p).len()
                    ==> self.valid(#[trigger] self.children_of(p)[k])
                        && p < self.children_of(p)[k],
    {
        match self.fc_of(p) {
            Some(c) => {
                self.lemma_chain(c);
            },
            None => {},
        }
    }
}

impl Tree {
    /// A tree of `n` nodes with no edges, rooted at `root`.
    pub fn new(n: usize, root: usize) -> (t: Tree)
        requires
            root < n,
        ensures
            t.wf(),
            t.n() == n,
            t.root == root,
            forall|x: int| t.parent_of(x) is None,
            forall|x: int| t.fc_of(x) is None,
            forall|x: int| t.ns_of(x) is None,
            forall|p: int| t.children_of(p) == Seq::<int>::empty(),
    {
        let mut parents: Vec<Option<usize>> = Vec::new();
        let mut first_children: Vec<Option<usize>> = Vec::new();
        let mut next_siblings: Vec<Option<usize>> = Vec::new();
        let mut k: usize = 0;
        while k < n
            invariant
                k <= n,
                parents@.len() == k,
                first_children@.len() == k,
                next_siblings@.len() == k,
                forall|x: int| 0 <= x < k ==> parents@[x] is None,
                forall|x: int| 0 <= x < k ==> first_children@[x] is None,
                forall|x: int| 0 <= x < k ==> next_siblings@[x] is None,
            decreases n - k,
        {
            parents.push(None);
            first_children.push(None);
            next_siblings.push(None);
            k = k + 1;
        }
        Tree { root, parents, first_children, next_siblings }
    }

    /// The parent identity of `node`, or `None` for the root (or for a node
    /// that was never attached).
    pub fn parent(&self, node: usize) -> (r: Option<usize>)
        requires
            self.wf(),
        ensures
            match r {
                Some(p) => self.parent_of(node as int) == Some(p as int),
                None => self.parent_of(node as int) is None,
            },
    {
        if node < self.parents.len() {
            self.parents[node]
        } else {
            None
        }
    }

    /// The first child of `node`, if it has children.
    pub fn get_first_child(&self, node: usize) -> (r: Option<usize>)
        requires
            self.wf(),
        ensures
            match r {
                Some(c) => self.fc_of(node as int) == Some(c as int) && (c as int) < self.n(),
                None => self.fc_of(node as int) is None,
            },
    {
        if node < self.first_children.len() {
            self.first_children[node]
        } else {
            None
        }
    }

    /// The sibling that follows `node` in its parent's chain, if any.
    pub fn get_next_sibling(&self, node: usize) -> (r: Option<usize>)
        requires
            self.wf(),
        ensures
            match r {
                Some(s) => self.ns_of(node as int) == Some(s as int) && (s as int) < self.n(),
                None => self.ns_of(node as int) is None,
            },
    {
        if node < self.next_siblings.len() {
            self.next_siblings[node]
        } else {
            None
        }
    }

    /// True iff `node` is its parent's first child; false for the root.
    pub fn is_first_child(&self, node: usize) -> (r: bool)
        requires
            self.wf(),
        ensures
            r == match self.parent_of(node as int) {
                Some(p) => self.fc_of(p) == Some(node as int),
                None => false,
            },
    {
        match self.parent(node) {
            Some(p) => {
                match self.get_first_child(p) {
                    Some(c) => c == node,
                    None => false,
                }
            },
            None => false,
        }
    }

    /// True iff `node` ends its parent's sibling chain; false for the root.
    pub fn is_last_child(&self, node: usize) -> (r: bool)
        requires
            self.wf(),
        ensures
            r == match self.parent_of(node as int) {
                Some(p) => self.children_of(p).len() > 0 && self.children_of(p).last()
                    == node as int,
                None => false,
            },
    {
        match self.parent(node) {
            Some(p) => {
                match self.get_first_child(p) {
                    Some(c0) => {
                        proof {
                            self.lemma_chain(c0 as int);
                        }
                        let mut temp: usize = c0;
                        loop
                            invariant_except_break
                                self.wf(),
                                self.valid(temp as int),
                                self.sib_chain(temp as int).len() > 0,
                                self.sib_chain(temp as int).last() == self.children_of(
                                    p as int,
                                ).last(),
                                self.children_of(p as int).len() > 0,
                            ensures
                                self.children_of(p as int).len() > 0,
                                temp as int == self.children_of(p as int).last(),
                            decreases self.n() - temp,
                        {
                            match self.get_next_sibling(temp) {
                                Some(s) => {
                                    proof {
                                        self.lemma_chain(s as int);
                                        assert(self.sib_chain(temp as int) == seq![temp as int]
                                            + self.sib_chain(s as int));
                                    }
                                    temp = s;
                                },
                                None => {
                                    proof {
                                        assert(self.sib_chain(temp as int) == seq![temp as int]);
                                    }
                                    break;
                                },
                            }
                        }
                        temp == node
                    },
                    None => {
                        proof {
                            // wf: a parented node sits in its parent's chain,
                            // so the parent cannot be childless
                            assert(self.children_of(p as int).contains(node as int));
                        }
                        false
                    },
                }
            },
            None => false,
        }
    }

    /// The immediate children of `node`, in sibling order.
    pub fn child_iter(&self, node: usize) -> (cs: Vec<usize>)
        requires
            self.wf(),
            (node as int) < self.n(),
        ensures
            as_ints(cs@) == self.children_of(node as int),
            forall|k: int| 0 <= k < cs@.len() ==> (#[trigger] cs@[k] as int) < self.n(),
    {
        let mut cs: Vec<usize> = Vec::new();
        let mut cur: Option<usize> = self.get_first_child(node);
        proof {
            match self.fc_of(node as int) {
                Some(c) => {
                    self.lemma_chain(c);
                },
                None => {},
            }
        }
        while cur.is_some()
            invariant
                self.wf(),
                (node as int) < self.n(),
                forall|k: int| 0 <= k < cs@.len() ==> (#[trigger] cs@[k] as int) < self.n(),
                match cur {
                    Some(c) => self.valid(c as int) && as_ints(cs@) + self.sib_chain(c as int)
                        == self.children_of(node as int),
                    None => as_ints(cs@) == self.children_of(node as int),
                },
            decreases (match cur {
                Some(c) => self.n() - c,
                None => 0int,
            }),
        {
            let c = cur.unwrap();
            cs.push(c);
            proof {
                self.lemma_chain(c as int);
                match self.ns_of(c as int) {
                    Some(s) => {
                        self.lemma_chain(s);
                        assert(self.sib_chain(c as int) == seq![c as int] + self.sib_chain(s));
                        assert(as_ints(cs@) + self.sib_chain(s) =~= self.children_of(
                            node as int,
                        ));
                    },
                    None => {
                        assert(self.sib_chain(c as int) == seq![c as int]);
                        assert(as_ints(cs@) =~= self.children_of(node as int));
                    },
                }
            }
            cur = self.get_next_sibling(c);
        }
        cs
    }

    /// The pre-order flattening of the subtree under the designated root:
    /// each node before its descendants, each child subtree before the next
    /// sibling's.  Runs the stack-free protocol: descend to the first child
    /// when there is one, otherwise climb ancestors until one has a next
    /// sibling.
    pub fn flatten(&self) -> (order: Vec<usize>)
        requires
            self.wf(),
        ensures
            as_ints(order@) == self.subtree(self.root as int),
            forall|k: int| 0 <= k < order@.len() ==> (#[trigger] order@[k] as int) < self.n(),
    {
        let ghost full = self.subtree(self.root as int);
        let mut out: Vec<usize> = Vec::new();
        let mut cur: Option<usize> = Some(self.root);
        proof {
            assert(self.rest_after(self.root as int) == Seq::<int>::empty());
            assert(as_ints(out@) + self.subtree(self.root as int) + self.rest_after(
                self.root as int,
            ) =~= full);
        }
        while cur.is_some()
            invariant
                self.wf(),
                full == self.subtree(self.root as int),
                forall|k: int| 0 <= k < out@.len() ==> (#[trigger] out@[k] as int) < self.n(),
                match cur {
                    Some(x) => self.valid(x as int) && as_ints(out@) + self.subtree(x as int)
                        + self.rest_after(x as int) == full,
                    None => as_ints(out@) == full,
                },
            decreases full.len() - out@.len(),
        {
            let x = cur.unwrap();
            proof {
                self.lemma_subtree_bounds(x as int);
            }
            out.push(x);
            match self.get_first_child(x) {
                Some(c) => {
                    proof {
                        self.lemma_chain(c as int);
                        // the first child heads the chain, so its parent edge is x
                        assert(self.children_of(x as int)[0] == c as int);
                        assert(self.parent_of(c as int) == Some(x as int));
                        let nsrest = match self.ns_of(c as int) {
                            Some(s) => if (c as int) < s < self.n() {
                                self.sub_forest(s)
                            } else {
                                Seq::<int>::empty()
                            },
                            None => Seq::<int>::empty(),
                        };
                        assert(self.rest_after(c as int) =~= nsrest + self.rest_after(x as int));
                        assert(self.sub_forest(c as int) =~= self.subtree(c as int) + nsrest);
                        assert(self.subtree(x as int) =~= seq![x as int] + self.sub_forest(
                            c as int,
                        ));
                        assert(as_ints(out@) =~= as_ints(out@.drop_last()).push(x as int));
                        assert(as_ints(out@) + self.subtree(c as int) + self.rest_after(c as int)
                            =~= full);
                    }
                    cur = Some(c);
                },
                None => {
                    proof {
                        assert(self.subtree(x as int) =~= seq![x as int]);
                        assert(as_ints(out@) =~= as_ints(out@.drop_last()).push(x as int));
                        assert(as_ints(out@) + self.rest_after(x as int) =~= full);
                    }
                    let ghost target = self.rest_after(x as int);
                    let mut temp: usize = x;
                    cur = None;
                    loop
                        invariant_except_break
                            self.wf(),
                            self.valid(temp as int),
                            self.rest_after(temp as int) == target,
                        ensures
                            match cur {
                                Some(s) => self.valid(s as int) && self.subtree(s as int)
                                    + self.rest_after(s as int) == target,
                                None => target == Seq::<int>::empty(),
                            },
                        decreases temp,
                    {
                        cur = None;
                        match self.get_next_sibling(temp) {
                            Some(s) => {
                                proof {
                                    // a node with a sibling edge has a parent
                                    assert(self.parent_of(temp as int) is Some);
                                    let p = self.parent_of(temp as int).unwrap();
                                    assert(self.children_of(p).contains(temp as int));
                                    let c0 = self.fc_of(p).unwrap();
                                    self.lemma_chain(c0);
                                    let k = choose|k: int|
                                        0 <= k < self.children_of(p).len() && self.children_of(
                                            p,
                                        )[k] == temp as int;
                                    // temp is not last in the chain, so the
                                    // chain continues with s, whose parent is p
                                    assert(self.ns_of(self.children_of(p).last()) is None);
                                    assert(k < self.children_of(p).len() - 1);
                                    assert(self.children_of(p)[k + 1] == s as int);
                                    assert(self.parent_of(s as int) == Some(p));
                                    let nsrest = match self.ns_of(s as int) {
                                        Some(s2) => if (s as int) < s2 < self.n() {
                                            self.sub_forest(s2)
                                        } else {
                                            Seq::<int>::empty()
                                        },
                                        None => Seq::<int>::empty(),
                                    };
                                    assert(self.rest_after(temp as int) =~= self.sub_forest(
                                        s as int,
                                    ) + self.rest_after(p));
                                    assert(self.sub_forest(s as int) =~= self.subtree(s as int)
                                        + nsrest);
                                    assert(self.rest_after(s as int) =~= nsrest
                                        + self.rest_after(p));
                                    assert(self.subtree(s as int) + self.rest_after(s as int)
                                        =~= target);
                                }
                                cur = Some(s);
                                break;
                            },
                            None => {
                                match self.parent(temp) {
                                    Some(p) => {
                                        proof {
                                            assert(self.rest_after(temp as int)
                                                =~= self.rest_after(p as int));
                                        }
                                        temp = p;
                                    },
                                    None => {
                                        proof {
                                            assert(self.rest_after(temp as int)
                                                == Seq::<int>::empty());
                                        }
                                        break;
                                    },
                                }
                            },
                        }
                    }
                    proof {
                        match cur {
                            Some(s) => {
                                assert(as_ints(out@) + self.subtree(s as int) + self.rest_after(
                                    s as int,
                                ) =~= full);
                            },
                            None => {
                                assert(as_ints(out@) =~= full);
                            },
                        }
                    }
                },
            }
        }
        out
    }

    /// Strictly increasing adjacent elements give a strictly increasing
    /// sequence.
    proof fn lemma_pairwise_increasing(cs: Seq<usize>, t: int, u: int)
        requires
            forall|k: int| 0 <= k < cs.len() - 1 ==> #[trigger] cs[k] < cs[k + 1],
            0 <= t < u < cs.len(),
        ensures
            cs[t] < cs[u],
        decreases u - t,
    {
        if t + 1 < u {
            Self::lemma_pairwise_increasing(cs, t, u - 1);
        }
    }

    /// A sibling chain only depends on the next-sibling edges of its own
    /// members: a tree that agrees on those yields the same chain.
    proof fn lemma_chain_stable(t0: Tree, t1: Tree, j: int)
        requires
            t0.edges_wf(),
            t1.n() == t0.n(),
            t0.valid(j),
            forall|k: int|
                0 <= k < t0.sib_chain(j).len() ==> t1.ns_of(#[trigger] t0.sib_chain(j)[k])
                    == t0.ns_of(t0.sib_chain(j)[k]),
        ensures
            t1.sib_chain(j) == t0.sib_chain(j),
        decreases t0.n() - j,
    {
        t0.lemma_chain(j);
        assert(t0.sib_chain(j)[0] == j);
        match t0.ns_of(j) {
            Some(s) => {
                t0.lemma_chain(s);
                assert(t0.sib_chain(j) == seq![j] + t0.sib_chain(s));
                assert forall|k: int| 0 <= k < t0.sib_chain(s).len() implies t1.ns_of(
                    #[trigger] t0.sib_chain(s)[k],
                ) == t0.ns_of(t0.sib_chain(s)[k]) by {
                    assert(t0.sib_chain(j)[k + 1] == t0.sib_chain(s)[k]);
                }
                Self::lemma_chain_stable(t0, t1, s);
                assert(t1.sib_chain(j) =~= seq![j] + t1.sib_chain(s));
            },
            None => {
                assert(t1.sib_chain(j) =~= seq![j]);
            },
        }
    }

    /// A freshly linked run of nodes forms exactly the expected chain.
    proof fn lemma_new_chain(t1: Tree, cs: Seq<usize>, k: int)
        requires
            forall|i: int| 0 <= i < cs.len() ==> (#[trigger] cs[i] as int) < t1.n(),
            forall|i: int| 0 <= i < cs.len() - 1 ==> #[trigger] cs[i] < cs[i + 1],
            forall|i: int|
                0 <= i < cs.len() - 1 ==> t1.ns_of(#[trigger] cs[i] as int) == Some(
                    cs[i + 1] as int,
                ),
            cs.len() > 0,
            t1.ns_of(cs.last() as int) is None,
            0 <= k < cs.len(),
        ensures
            t1.sib_chain(cs[k] as int) == as_ints(cs).skip(k),
        decreases cs.len() - k,
    {
        if k == cs.len() - 1 {
            assert(t1.ns_of(cs[k] as int) is None);
            assert(t1.sib_chain(cs[k] as int) =~= as_ints(cs).skip(k));
        } else {
            Self::lemma_new_chain(t1, cs, k + 1);
            assert(t1.sib_chain(cs[k] as int) =~= seq![cs[k] as int] + t1.sib_chain(
                cs[k + 1] as int,
            ));
            assert(t1.sib_chain(cs[k] as int) =~= as_ints(cs).skip(k));
        }
    }

    /// Record `cs` as the ordered children of `p`, in one batch: `p`'s
    /// first child becomes `cs[0]`, consecutive entries are linked as
    /// siblings, and every entry's parent becomes `p`.
    ///
    /// The children must be fresh (not yet attached anywhere), must not
    /// include the root, and must be listed in increasing identity order,
    /// after `p` itself; this is what keeps the tree well-formed.
    pub fn attach_children(&mut self, p: usize, cs: &Vec<usize>)
        requires
            old(self).wf(),
            (p as int) < old(self).n(),
            old(self).fc_of(p as int) is None,
            forall|k: int| 0 <= k < cs@.len() ==> (#[trigger] cs@[k] as int) < old(self).n(),
            forall|k: int| 0 <= k < cs@.len() - 1 ==> #[trigger] cs@[k] < cs@[k + 1],
            cs@.len() > 0 ==> p < cs@[0],
            forall|k: int|
                0 <= k < cs@.len() ==> old(self).parent_of(#[trigger] cs@[k] as int) is None,
            forall|k: int| 0 <= k < cs@.len() ==> (#[trigger] cs@[k]) != old(self).root,
        ensures
            final(self).wf(),
            final(self).n() == old(self).n(),
            final(self).root == old(self).root,
            final(self).children_of(p as int) == as_ints(cs@),
            forall|q: int|
                final(self).valid(q) && q != p ==> final(self).children_of(q) == old(
                    self,
                ).children_of(q),
            forall|k: int|
                0 <= k < cs@.len() ==> final(self).parent_of(#[trigger] cs@[k] as int) == Some(
                    p as int,
                ),
            forall|x: int|
                final(self).valid(x) && !as_ints(cs@).contains(x) ==> final(self).parent_of(x)
                    == old(self).parent_of(x),
            forall|x: int|
                final(self).valid(x) && x != p ==> final(self).fc_of(x) == old(self).fc_of(x),
    {
        if cs.len() == 0 {
            proof {
                assert(final(self).children_of(p as int) =~= as_ints(cs@));
            }
            return ;
        }
        let c0 = cs[0];
        self.first_children.set(p, Some(c0));
        let mut k: usize = 0;
        while k < cs.len()
            invariant
                old(self).wf(),
                (p as int) < old(self).n(),
                old(self).fc_of(p as int) is None,
                forall|i: int| 0 <= i < cs@.len() ==> (#[trigger] cs@[i] as int) < old(self).n(),
                forall|i: int| 0 <= i < cs@.len() - 1 ==> #[trigger] cs@[i] < cs@[i + 1],
                cs@.len() > 0,
                p < cs@[0],
                forall|i: int|
                    0 <= i < cs@.len() ==> old(self).parent_of(#[trigger] cs@[i] as int) is None,
                forall|i: int| 0 <= i < cs@.len() ==> (#[trigger] cs@[i]) != old(self).root,
                k <= cs@.len(),
                self.root == old(self).root,
                self.parents@.len() == old(self).parents@.len(),
                self.next_siblings@.len() == old(self).next_siblings@.len(),
                self.first_children@ == old(self).first_children@.update(
                    p as int,
                    Some(cs@[0]),
                ),
                forall|t: int|
                    0 <= t < k ==> self.parents@[#[trigger] cs@[t] as int] == Some(p),
                forall|x: int|
                    0 <= x < self.parents@.len() && (forall|t: int|
                        0 <= t < k ==> (#[trigger] cs@[t]) as int != x) ==> #[trigger] self
                        .parents@[x] == old(self).parents@[x],
                forall|t: int|
                    0 <= t < k && t + 1 < cs@.len() ==> self.next_siblings@[
                        #[trigger] cs@[t] as int] == Some(cs@[t + 1]),
                forall|t: int|
                    0 <= t < k && t + 1 >= cs@.len() ==> self.next_siblings@[
                        #[trigger] cs@[t] as int] == old(self).next_siblings@[cs@[t] as int],
                forall|x: int|
                    0 <= x < self.next_siblings@.len() && (forall|t: int|
                        0 <= t < k ==> (#[trigger] cs@[t]) as int != x) ==> #[trigger] self
                        .next_siblings@[x] == old(self).next_siblings@[x],
            decreases cs@.len() - k,
        {
            let c = cs[k];
            proof {
                assert forall|t: int| 0 <= t < k implies (#[trigger] cs@[t]) as int
                    != c as int by {
                    Self::lemma_pairwise_increasing(cs@, t, k as int);
                }
            }
            self.parents.set(c, Some(p));
            if k + 1 < cs.len() {
                self.next_siblings.set(c, Some(cs[k + 1]));
            }
            k = k + 1;
        }
        proof {
            let t0 = *old(self);
            let t1 = *self;
            let csi = as_ints(cs@);
            assert(t1.n() == t0.n());
            assert(t1.first_children@.len() == t0.first_children@.len());
            // membership in cs, as a reusable fact
            assert forall|x: int|
                csi.contains(x) implies exists|t: int|
                0 <= t < cs@.len() && (#[trigger] cs@[t]) as int == x by {
                let t = choose|t: int| 0 <= t < csi.len() && csi[t] == x;
                assert(cs@[t] as int == x);
            }
            assert(!csi.contains(t0.root as int)) by {
                if csi.contains(t0.root as int) {
                    let t = choose|t: int|
                        0 <= t < cs@.len() && (#[trigger] cs@[t]) as int == t0.root as int;
                }
            }
            // every cs element is above p
            assert forall|t: int| 0 <= t < cs@.len() implies p < #[trigger] cs@[t] by {
                if t > 0 {
                    Self::lemma_pairwise_increasing(cs@, 0, t);
                }
            }
            // edge tables after the loop
            assert(t1.fc_of(p as int) == Some(cs@[0] as int));
            assert forall|x: int| t1.valid(x) && x != p implies #[trigger] t1.fc_of(x)
                == t0.fc_of(x) by {}
            assert forall|x: int| t1.valid(x) && !csi.contains(x) implies #[trigger] t1.parent_of(
                x,
            ) == t0.parent_of(x) by {
                assert forall|t: int| 0 <= t < cs@.len() implies (#[trigger] cs@[t]) as int
                    != x by {
                    if cs@[t] as int == x {
                        assert(csi[t] == x);
                    }
                }
            }
            assert forall|x: int| t1.valid(x) && !csi.contains(x) implies #[trigger] t1.ns_of(x)
                == t0.ns_of(x) by {
                assert forall|t: int| 0 <= t < cs@.len() implies (#[trigger] cs@[t]) as int
                    != x by {
                    if cs@[t] as int == x {
                        assert(csi[t] == x);
                    }
                }
            }
            assert forall|t: int| 0 <= t < cs@.len() implies #[trigger] t1.parent_of(
                cs@[t] as int,
            ) == Some(p as int) by {}
            assert(t1.ns_of(cs@.last() as int) == t0.ns_of(cs@.last() as int));
            assert(t0.ns_of(cs@.last() as int) is None);
            assert forall|t: int| 0 <= t < cs@.len() - 1 implies t1.ns_of(
                #[trigger] cs@[t] as int,
            ) == Some(cs@[t + 1] as int) by {}
            // edge sanity of the new tree
            assert(t1.edges_wf()) by {
                assert forall|i: int| t1.valid(i) implies match #[trigger] t1.fc_of(i) {
                    Some(c) => i < c < t1.n(),
                    None => true,
                } by {
                    if i != p {
                        assert(t1.fc_of(i) == t0.fc_of(i));
                    }
                }
                assert forall|i: int| t1.valid(i) implies match #[trigger] t1.ns_of(i) {
                    Some(s) => i < s < t1.n(),
                    None => true,
                } by {
                    if csi.contains(i) {
                        let t = choose|t: int|
                            0 <= t < cs@.len() && (#[trigger] cs@[t]) as int == i;
                        if t < cs@.len() - 1 {
                            assert(t1.ns_of(i) == Some(cs@[t + 1] as int));
                        }
                    } else {
                        assert(t1.ns_of(i) == t0.ns_of(i));
                    }
                }
                assert forall|i: int| t1.valid(i) implies match #[trigger] t1.parent_of(i) {
                    Some(q) => 0 <= q < i,
                    None => true,
                } by {
                    if csi.contains(i) {
                        let t = choose|t: int|
                            0 <= t < cs@.len() && (#[trigger] cs@[t]) as int == i;
                        assert(t1.parent_of(i) == Some(p as int));
                    } else {
                        assert(t1.parent_of(i) == t0.parent_of(i));
                    }
                }
                assert forall|i: int|
                    t1.valid(i) && #[trigger] t1.parent_of(i) is None implies t1.ns_of(
                    i,
                ) is None by {
                    assert(!csi.contains(i));
                    assert(t1.parent_of(i) == t0.parent_of(i));
                    assert(t1.ns_of(i) == t0.ns_of(i));
                }
                assert(t1.parent_of(t1.root as int) == t0.parent_of(t0.root as int));
            }
            // the chain of the new children
            Self::lemma_new_chain(t1, cs@, 0);
            assert(t1.sib_chain(cs@[0] as int) == csi.skip(0));
            assert(csi.skip(0) =~= csi);
            assert(t1.children_of(p as int) == csi);
            // all other chains are untouched
            assert forall|q: int| t1.valid(q) && q != p implies #[trigger] t1.children_of(q)
                == t0.children_of(q) by {
                assert(t1.fc_of(q) == t0.fc_of(q));
                match t0.fc_of(q) {
                    Some(c0q) => {
                        t0.lemma_chain(c0q);
                        assert forall|kk: int| 0 <= kk < t0.sib_chain(c0q).len() implies t1.ns_of(
                            #[trigger] t0.sib_chain(c0q)[kk],
                        ) == t0.ns_of(t0.sib_chain(c0q)[kk]) by {
                            let e = t0.sib_chain(c0q)[kk];
                            assert(t0.children_of(q)[kk] == e);
                            assert(t0.parent_of(e) == Some(q));
                            assert(!csi.contains(e)) by {
                                if csi.contains(e) {
                                    let t = choose|t: int|
                                        0 <= t < cs@.len() && (#[trigger] cs@[t]) as int == e;
                                    assert(t0.parent_of(e) is None);
                                }
                            }
                        }
                        Self::lemma_chain_stable(t0, t1, c0q);
                    },
                    None => {},
                }
            }
            // the two chain-parent agreement directions
            assert forall|q: int, kk: int|
                t1.valid(q) && 0 <= kk < t1.children_of(q).len() implies t1.parent_of(
                #[trigger] t1.children_of(q)[kk],
            ) == Some(q) by {
                if q == p {
                    assert(t1.children_of(p as int)[kk] == cs@[kk] as int);
                } else {
                    let e = t1.children_of(q)[kk];
                    assert(t0.children_of(q)[kk] == e);
                    assert(t0.parent_of(e) == Some(q));
                    assert(!csi.contains(e)) by {
                        if csi.contains(e) {
                            let t = choose|t: int|
                                0 <= t < cs@.len() && (#[trigger] cs@[t]) as int == e;
                            assert(t0.parent_of(e) is None);
                        }
                    }
                    assert(t1.parent_of(e) == t0.parent_of(e));
                }
            }
            assert forall|j: int| t1.valid(j) implies match #[trigger] t1.parent_of(j) {
                Some(q) => t1.children_of(q).contains(j),
                None => true,
            } by {
                if csi.contains(j) {
                    let t = choose|t: int| 0 <= t < cs@.len() && (#[trigger] cs@[t]) as int == j;
                    assert(t1.parent_of(j) == Some(p as int));
                    assert(t1.children_of(p as int)[t] == j);
                } else {
                    assert(t1.parent_of(j) == t0.parent_of(j));
                    match t0.parent_of(j) {
                        Some(q) => {
                            assert(t0.children_of(q).contains(j));
                            if q == p {
                                assert(t0.children_of(p as int) =~= Seq::<int>::empty());
                                assert(false);
                            } else {
                                assert(t1.children_of(q) == t0.children_of(q));
                            }
                        },
                        None => {},
                    }
                }
            }
        }
    }

    /// The nodes of the root's subtree in the order the placement pass
    /// visits them: pre-order.
    pub fn down_iter(&self) -> (order: Vec<usize>)
        requires
            self.wf(),
        ensures
            as_ints(order@) == self.subtree(self.root as int),
    {
        self.flatten()
    }

    /// The nodes of the root's subtree in the order the measurement pass
    /// visits them: reverse pre-order, every descendant before its
    /// ancestor.
    pub fn up_iter(&self) -> (order: Vec<usize>)
        requires
            self.wf(),
        ensures
            order@.len() == self.subtree(self.root as int).len(),
            forall|k: int|
                0 <= k < order@.len() ==> (#[trigger] order@[k] as int) == self.subtree(
                    self.root as int,
                )[order@.len() - 1 - k],
    {
        let down = self.flatten();
        let mut order: Vec<usize> = Vec::new();
        let mut k: usize = down.len();
        while k > 0
            invariant
                as_ints(down@) == self.subtree(self.root as int),
                k <= down@.len(),
                order@.len() == down@.len() - k,
                forall|i: int|
                    0 <= i < order@.len() ==> (#[trigger] order@[i]) == down@[down@.len() - 1 - i],
            decreases k,
        {
            k = k - 1;
            order.push(down[k]);
        }
        order
    }
}

} // verus!
