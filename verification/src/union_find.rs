//! A disjoint-set (union-find) structure over the nodes `0 .. n`, with
//! union by size and path compression.

use vstd::prelude::*;

use crate::counting::count_eq;
use crate::counting::count_roots;
use crate::counting::lemma_count_eq_merge;
use crate::counting::lemma_count_eq_merge_other;
use crate::counting::lemma_count_eq_pair;
use crate::counting::lemma_count_roots_merge;
use crate::counting::lemma_count_roots_pos;
use crate::counting::lemma_identity_count_eq;
use crate::counting::lemma_identity_count_roots;

verus! {

/// One slot of the union-find forest: a root holds the size of its group,
/// any other node holds its parent.
#[derive(Debug, Clone, Copy)]
enum UnionFindNode {
    Parent(usize),
    Size(usize),
}

/// A disjoint-set structure. Abstractly it is a partition of `0 .. n`,
/// described by the representative (`rep_of`) of each node; concretely it
/// is a forest with parent pointers, kept shallow by path compression.
pub struct UnionFind {
    graph: Vec<UnionFindNode>,
    root_count: usize,
    rep: Ghost<Seq<int>>,
    dist: Ghost<Seq<nat>>,
}

impl UnionFind {
    /// The number of nodes.
    pub closed spec fn spec_len(self) -> nat {
        self.graph@.len()
    }

    /// The representative of node `i`: the root of its group.
    pub closed spec fn rep_of(self, i: int) -> int {
        self.rep@[i]
    }

    /// Whether two nodes belong to the same group.
    pub open spec fn same_group(self, a: int, b: int) -> bool {
        self.rep_of(a) == self.rep_of(b)
    }

    /// The size of the group that node `i` belongs to.
    pub closed spec fn group_size_of(self, i: int) -> nat {
        count_eq(self.rep@, self.rep_of(i))
    }

    /// The number of groups.
    pub closed spec fn spec_root_count(self) -> nat {
        count_roots(self.rep@)
    }

    /// Internal invariant: representatives are idempotent and within
    /// range, parent pointers stay within a group and strictly decrease a
    /// ghost distance measure (so every chain reaches a root), a slot is a
    /// `Size` slot exactly for roots, every `Size` slot holds its group's
    /// size, and `root_count` counts the groups.
    pub closed spec fn wf(self) -> bool {
        let n = self.graph@.len() as int;
        &&& self.rep@.len() == n
        &&& self.dist@.len() == n
        &&& (forall|i: int| 0 <= i < n ==> 0 <= #[trigger] self.rep@[i] < n)
        &&& (forall|i: int| 0 <= i < n ==> self.rep@[#[trigger] self.rep@[i]] == self.rep@[i])
        &&& (forall|i: int|
            0 <= i < n ==> ((#[trigger] self.graph@[i]) is Size <==> self.rep@[i] == i))
        &&& (forall|i: int|
            0 <= i < n ==> ((#[trigger] self.graph@[i]) matches UnionFindNode::Parent(p) ==> {
                &&& 0 <= p < n
                &&& self.rep@[p as int] == self.rep@[i]
                &&& self.dist@[p as int] < self.dist@[i]
            }))
        &&& (forall|i: int|
            0 <= i < n ==> ((#[trigger] self.graph@[i]) matches UnionFindNode::Size(s) ==> s
                == count_eq(self.rep@, i)))
        &&& self.root_count == count_roots(self.rep@)
    }

    /// Creates `size` singleton groups: every node is its own
    /// representative and its own group of size 1.
    pub fn new(size: usize) -> (uf: UnionFind)
        ensures
            uf.wf(),
            uf.spec_len() == size,
            forall|i: int| 0 <= i < size ==> uf.rep_of(i) == i,
            forall|i: int| 0 <= i < size ==> uf.group_size_of(i) == 1,
            uf.spec_root_count() == size,
    {
        let mut graph: Vec<UnionFindNode> = Vec::new();
        let mut i: usize = 0;
        while i < size
            invariant
                i <= size,
                graph@.len() == i,
                forall|k: int| 0 <= k < i ==> (#[trigger] graph@[k]) == UnionFindNode::Size(1),
            decreases size - i,
        {
            graph.push(UnionFindNode::Size(1));
            i += 1;
        }
        let new_union_find = UnionFind {
            graph,
            root_count: size,
            rep: Ghost(Seq::new(size as nat, |i: int| i)),
            dist: Ghost(Seq::new(size as nat, |i: int| 0nat)),
        };
        proof {
            lemma_identity_count_roots(size as nat);
            assert forall|i: int| 0 <= i < size implies count_eq(
                new_union_find.rep@,
                i,
            ) == 1nat by {
                lemma_identity_count_eq(size as nat, i);
            }
            assert forall|i: int| 0 <= i < size implies new_union_find.group_size_of(i)
                == 1nat by {
                assert(new_union_find.rep_of(i) == i);
            }
        }
        new_union_find
    }

    /// The number of groups.
    pub fn get_root_count(&self) -> (r: usize)
        requires
            self.wf(),
        ensures
            r == self.spec_root_count(),
    {
        self.root_count
    }

    /// The root of `node`'s group and that group's size. As a side effect
    /// the node is re-pointed directly at its root (path compression),
    /// which changes no group.
    pub fn get_root_and_size(&mut self, node: usize) -> (r: (usize, usize))
        requires
            old(self).wf(),
            node < old(self).spec_len(),
        ensures
            final(self).wf(),
            final(self).spec_len() == old(self).spec_len(),
            forall|i: int|
                0 <= i < old(self).spec_len() ==> final(self).rep_of(i) == old(self).rep_of(i),
            final(self).spec_root_count() == old(self).spec_root_count(),
            forall|i: int|
                0 <= i < old(self).spec_len() ==> final(self).group_size_of(i) == old(
                    self,
                ).group_size_of(i),
            r.0 == old(self).rep_of(node as int),
            r.1 == old(self).group_size_of(node as int),
    {
        let mut node_tmp: usize = node;
        loop
            invariant
                self.wf(),
                self == old(self),
                node < self.spec_len(),
                node_tmp < self.spec_len(),
                self.rep_of(node_tmp as int) == self.rep_of(node as int),
                node_tmp == node || self.dist@[node_tmp as int] < self.dist@[node as int],
            decreases self.dist@[node_tmp as int],
        {
            let g = self.graph[node_tmp];
            match g {
                UnionFindNode::Parent(parent) => {
                    node_tmp = parent;
                },
                UnionFindNode::Size(size) => {
                    if node != node_tmp {
                        self.graph[node] = UnionFindNode::Parent(node_tmp);
                    }
                    proof {
                        assert(self.rep@[node_tmp as int] == node_tmp);
                        assert(self.rep@ == old(self).rep@);
                    }
                    return (node_tmp, size);
                },
            }
        }
    }

    /// Unites the groups of `node_a` and `node_b`. The smaller group's
    /// root is re-pointed at the larger group's root (the group of
    /// `node_a` wins a tie); nothing changes when the two nodes already
    /// share a group.
    pub fn merge(&mut self, node_a: usize, node_b: usize)
        requires
            old(self).wf(),
            node_a < old(self).spec_len(),
            node_b < old(self).spec_len(),
        ensures
            final(self).wf(),
            final(self).spec_len() == old(self).spec_len(),
            old(self).same_group(node_a as int, node_b as int) ==> {
                &&& (forall|i: int|
                    0 <= i < old(self).spec_len() ==> final(self).rep_of(i) == old(self).rep_of(
                        i,
                    ))
                &&& (forall|i: int|
                    0 <= i < old(self).spec_len() ==> final(self).group_size_of(i) == old(
                        self,
                    ).group_size_of(i))
                &&& final(self).spec_root_count() == old(self).spec_root_count()
            },
            !old(self).same_group(node_a as int, node_b as int) ==> {
                let winner = if old(self).group_size_of(node_a as int) >= old(self).group_size_of(
                    node_b as int,
                ) {
                    old(self).rep_of(node_a as int)
                } else {
                    old(self).rep_of(node_b as int)
                };
                &&& (forall|i: int|
                    0 <= i < old(self).spec_len() ==> final(self).rep_of(i) == (
                    if old(self).rep_of(i) == old(self).rep_of(node_a as int) || old(
                        self,
                    ).rep_of(i) == old(self).rep_of(node_b as int) {
                        winner
                    } else {
                        old(self).rep_of(i)
                    }))
                &&& (forall|i: int|
                    0 <= i < old(self).spec_len() ==> final(self).group_size_of(i) == (
                    if old(self).rep_of(i) == old(self).rep_of(node_a as int) || old(
                        self,
                    ).rep_of(i) == old(self).rep_of(node_b as int) {
                        old(self).group_size_of(node_a as int) + old(self).group_size_of(
                            node_b as int,
                        )
                    } else {
                        old(self).group_size_of(i)
                    }))
                &&& final(self).spec_root_count() == old(self).spec_root_count() - 1
            },
    {
        let (root_a, size_a) = self.get_root_and_size(node_a);
        let (root_b, size_b) = self.get_root_and_size(node_b);
        if root_a != root_b {
            // an executable length read, so the prover sees that the
            // node count (a bound on any group size) fits in usize
            let n_nodes: usize = self.graph.len();
            proof {
                assert(n_nodes == self.graph@.len());
            }
            let ghost mid = *self;
            let ghost n = self.graph@.len() as nat;
            let ghost old_rep = self.rep@;
            let ghost old_dist = self.dist@;
            proof {
                assert forall|i: int| 0 <= i < old_rep.len() implies old_rep[i] == old(
                    self,
                ).rep@[i] by {
                    assert(self.rep_of(i) == old(self).rep_of(i));
                }
                assert(old_rep.len() == old(self).rep@.len());
                assert(old_rep =~= old(self).rep@);
                lemma_count_roots_pos(old_rep, root_a as int);
                lemma_count_eq_pair(old_rep, root_a as int, root_b as int);
                assert(size_a == count_eq(old_rep, root_a as int));
                assert(size_b == count_eq(old_rep, root_b as int));
            }
            self.root_count = self.root_count - 1;
            let (root_bigger, root_smaller) = if size_a >= size_b {
                (root_a, root_b)
            } else {
                (root_b, root_a)
            };
            let ghost rs = root_smaller as int;
            let ghost rb = root_bigger as int;
            self.graph[root_smaller] = UnionFindNode::Parent(root_bigger);
            self.graph[root_bigger] = UnionFindNode::Size(size_a + size_b);
            let ghost new_rep = Seq::new(n, |i: int| if old_rep[i] == rs { rb } else { old_rep[i] });
            let ghost shift = old_dist[rb] + 1;
            let ghost new_dist = Seq::new(
                n,
                |i: int| if old_rep[i] == rs { (old_dist[i] + shift) as nat } else { old_dist[i] },
            );
            proof {
                self.rep@ = new_rep;
                self.dist@ = new_dist;
                lemma_count_eq_merge(old_rep, rs, rb);
                lemma_count_roots_merge(old_rep, rs, rb);
                assert(new_rep[rs] == rb && new_rep[rb] == rb);
                assert forall|i: int|
                    0 <= i < n implies ((#[trigger] self.graph@[i]) matches UnionFindNode::Parent(
                    p,
                ) ==> {
                    &&& 0 <= p < n
                    &&& self.rep@[p as int] == self.rep@[i]
                    &&& self.dist@[p as int] < self.dist@[i]
                }) by {
                    match self.graph@[i] {
                        UnionFindNode::Parent(p) => {
                            if i == rs {
                                assert(p == rb);
                                assert(old_rep[rb] == rb && rb != rs);
                                assert(new_dist[rs] == old_dist[rs] + shift);
                                assert(new_dist[rb] == old_dist[rb]);
                            } else {
                                assert(self.graph@[i] == mid.graph@[i]);
                                assert(old_rep[p as int] == old_rep[i]);
                                assert(old_dist[p as int] < old_dist[i]);
                            }
                        },
                        UnionFindNode::Size(_) => {},
                    }
                }
                assert(count_eq(new_rep, rb) == size_a + size_b);
                assert forall|i: int|
                    0 <= i < n implies ((#[trigger] self.graph@[i]) matches UnionFindNode::Size(
                    s,
                ) ==> s == count_eq(new_rep, i)) by {
                    match self.graph@[i] {
                        UnionFindNode::Size(s) => {
                            if i != rb {
                                assert(i != rs);
                                assert(self.graph@[i] == mid.graph@[i]);
                                assert(s == count_eq(old_rep, i));
                                lemma_count_eq_merge_other(old_rep, rs, rb, i);
                            }
                        },
                        UnionFindNode::Parent(_) => {},
                    }
                }
                assert forall|i: int| 0 <= i < n implies #[trigger] count_eq(
                    new_rep,
                    new_rep[i],
                ) == (if old_rep[i] == root_a as int || old_rep[i] == root_b as int {
                    count_eq(old_rep, root_a as int) + count_eq(old_rep, root_b as int)
                } else {
                    count_eq(old_rep, old_rep[i])
                }) by {
                    if old_rep[i] == rs || old_rep[i] == rb {
                        assert(new_rep[i] == rb);
                    } else {
                        assert(new_rep[i] == old_rep[i]);
                        lemma_count_eq_merge_other(old_rep, rs, rb, old_rep[i]);
                    }
                }
            }
        }
    }

    /// Whether `node_a` and `node_b` belong to the same group. Paths may
    /// be compressed as a side effect; no group changes.
    pub fn same(&mut self, node_a: usize, node_b: usize) -> (r: bool)
        requires
            old(self).wf(),
            node_a < old(self).spec_len(),
            node_b < old(self).spec_len(),
        ensures
            final(self).wf(),
            final(self).spec_len() == old(self).spec_len(),
            forall|i: int|
                0 <= i < old(self).spec_len() ==> final(self).rep_of(i) == old(self).rep_of(i),
            forall|i: int|
                0 <= i < old(self).spec_len() ==> final(self).group_size_of(i) == old(
                    self,
                ).group_size_of(i),
            final(self).spec_root_count() == old(self).spec_root_count(),
            r == old(self).same_group(node_a as int, node_b as int),
    {
        let (ra, _sa) = self.get_root_and_size(node_a);
        let (rb, _sb) = self.get_root_and_size(node_b);
        ra == rb
    }

    /// Law: two nodes of one group have the same group size.
    pub proof fn lemma_same_group_same_size(self, a: int, b: int)
        requires
            0 <= a < self.spec_len(),
            0 <= b < self.spec_len(),
            self.same_group(a, b),
        ensures
            self.group_size_of(a) == self.group_size_of(b),
    {
    }
}

} // verus!
