//! A weighted disjoint-set structure over the nodes `0 .. n`: union-find
//! with union by size and path compression, where each node additionally
//! carries an integer weight relative to the root of its group, and a
//! merge records a required weight difference between two nodes.

use vstd::prelude::*;

use crate::counting::count_eq;
use crate::counting::count_roots;
use crate::counting::lemma_count_eq_merge;
use crate::counting::lemma_count_eq_merge_other;
use crate::counting::lemma_count_eq_pair;
use crate::counting::lemma_count_roots_merge;
use crate::counting::lemma_count_roots_pos;
use crate::counting::lemma_identity_count_eq;
use crate::counting::lemma_identity_count_roots;

verus! {

/// Weights to the root are kept within this bound, so that every weight
/// the structure computes — including a difference of two node weights —
/// fits in an `isize` without overflow.
pub open spec fn weight_bound() -> int {
    isize::MAX as int / 2
}

/// One slot of the forest: a root holds the size of its group, any other
/// node holds its parent and the weight of the edge to that parent.
#[derive(Debug, Clone, Copy)]
enum WeightedUnionFindNode {
    ParentAndWeight(usize, isize),
    Size(usize),
}

/// A weighted disjoint-set structure. Abstractly it is a partition of
/// `0 .. n` (`rep_of`) together with, for each node, the summed weight
/// along its path to the root of its group (`weight_of`).
pub struct WeightedUnionFind {
    graph: Vec<WeightedUnionFindNode>,
    root_count: usize,
    rep: Ghost<Seq<int>>,
    dist: Ghost<Seq<nat>>,
    pot: Ghost<Seq<int>>,
}

impl WeightedUnionFind {
    /// The number of nodes.
    pub closed spec fn spec_len(self) -> nat {
        self.graph@.len()
    }

    /// The representative of node `i`: the root of its group.
    pub closed spec fn rep_of(self, i: int) -> int {
        self.rep@[i]
    }

    /// Whether two nodes belong to the same group.
    pub open spec fn same_group(self, a: int, b: int) -> bool {
        self.rep_of(a) == self.rep_of(b)
    }

    /// The summed weight along node `i`'s path to the root of its group.
    pub closed spec fn weight_of(self, i: int) -> int {
        self.pot@[i]
    }

    /// The size of the group that node `i` belongs to.
    pub closed spec fn group_size_of(self, i: int) -> nat {
        count_eq(self.rep@, self.rep_of(i))
    }

    /// The number of groups.
    pub closed spec fn spec_root_count(self) -> nat {
        count_roots(self.rep@)
    }

    /// The root that survives when the groups of `a` and `b` are united:
    /// the root of the larger group, `a`'s on a tie.
    pub open spec fn merge_winner(self, a: int, b: int) -> int {
        if self.group_size_of(a) >= self.group_size_of(b) {
            self.rep_of(a)
        } else {
            self.rep_of(b)
        }
    }

    /// The root that is re-pointed when the groups of `a` and `b` are
    /// united.
    pub open spec fn merge_loser(self, a: int, b: int) -> int {
        if self.group_size_of(a) >= self.group_size_of(b) {
            self.rep_of(b)
        } else {
            self.rep_of(a)
        }
    }

    /// The amount added to the weight of every node of the losing group
    /// when `merge(a, b, w)` unites two groups, chosen so that afterwards
    /// `weight_of(b) - weight_of(a) == w`.
    pub open spec fn merge_shift(self, a: int, b: int, w: int) -> int {
        if self.group_size_of(a) >= self.group_size_of(b) {
            w + self.weight_of(a) - self.weight_of(b)
        } else {
            self.weight_of(b) - w - self.weight_of(a)
        }
    }

    /// Machine-size bound for a merge: the weights of the losing group
    /// must stay within `weight_bound()` after the shift.
    pub open spec fn merge_fits(self, a: int, b: int, w: int) -> bool {
        self.same_group(a, b) || (forall|x: int|
            0 <= x < self.spec_len() && #[trigger] self.rep_of(x) == self.merge_loser(a, b)
                ==> -weight_bound() <= self.weight_of(x) + self.merge_shift(a, b, w) <= weight_bound())
    }

    /// Internal invariant: the union-find conditions (representatives
    /// idempotent and in range, parent edges stay inside a group and
    /// strictly decrease a ghost distance, `Size` slots exactly at roots
    /// and holding the group sizes, `root_count` counting the groups),
    /// and in addition: a root's weight is 0, each edge weight is the
    /// difference of the two node weights, and all weights are bounded.
    pub closed spec fn wf(self) -> bool {
        let n = self.graph@.len() as int;
        &&& self.rep@.len() == n
        &&& self.dist@.len() == n
        &&& self.pot@.len() == n
        &&& (forall|i: int| 0 <= i < n ==> 0 <= #[trigger] self.rep@[i] < n)
        &&& (forall|i: int| 0 <= i < n ==> self.rep@[#[trigger] self.rep@[i]] == self.rep@[i])
        &&& (forall|i: int|
            0 <= i < n ==> ((#[trigger] self.graph@[i]) is Size <==> self.rep@[i] == i))
        &&& (forall|i: int|
            0 <= i < n ==> ((#[trigger] self.graph@[i]) matches
                WeightedUnionFindNode::ParentAndWeight(p, w) ==> {
                &&& 0 <= p < n
                &&& self.rep@[p as int] == self.rep@[i]
                &&& self.dist@[p as int] < self.dist@[i]
                &&& self.pot@[i] == w + self.pot@[p as int]
            }))
        &&& (forall|i: int|
            0 <= i < n ==> ((#[trigger] self.graph@[i]) matches WeightedUnionFindNode::Size(s)
                ==> s == count_eq(self.rep@, i)))
        &&& (forall|i: int|
            0 <= i < n ==> ((#[trigger] self.graph@[i]) is Size ==> self.pot@[i] == 0))
        &&& (forall|i: int|
            0 <= i < n ==> -weight_bound() <= #[trigger] self.pot@[i] <= weight_bound())
        &&& self.root_count == count_roots(self.rep@)
    }

    /// Creates `size` singleton groups: every node is its own
    /// representative, in a group of size 1, with weight 0.
    pub fn new(size: usize) -> (uf: WeightedUnionFind)
        ensures
            uf.wf(),
            uf.spec_len() == size,
            forall|i: int| 0 <= i < size ==> uf.rep_of(i) == i,
            forall|i: int| 0 <= i < size ==> uf.group_size_of(i) == 1,
            forall|i: int| 0 <= i < size ==> uf.weight_of(i) == 0,
            uf.spec_root_count() == size,
    {
        let mut graph: Vec<WeightedUnionFindNode> = Vec::new();
        let mut i: usize = 0;
        while i < size
            invariant
                i <= size,
                graph@.len() == i,
                forall|k: int|
                    0 <= k < i ==> (#[trigger] graph@[k]) == WeightedUnionFindNode::Size(1),
            decreases size - i,
        {
            graph.push(WeightedUnionFindNode::Size(1));
            i += 1;
        }
        let new_union_find = WeightedUnionFind {
            graph,
            root_count: size,
            rep: Ghost(Seq::new(size as nat, |i: int| i)),
            dist: Ghost(Seq::new(size as nat, |i: int| 0nat)),
            pot: Ghost(Seq::new(size as nat, |i: int| 0int)),
        };
        proof {
            lemma_identity_count_roots(size as nat);
            assert forall|i: int| 0 <= i < size implies count_eq(new_union_find.rep@, i)
                == 1nat by {
                lemma_identity_count_eq(size as nat, i);
            }
            assert forall|i: int| 0 <= i < size implies new_union_find.group_size_of(i)
                == 1nat by {
                assert(new_union_find.rep_of(i) == i);
            }
        }
        new_union_find
    }

    /// The number of groups.
    pub fn get_root_count(&self) -> (r: usize)
        requires
            self.wf(),
        ensures
            r == self.spec_root_count(),
    {
        self.root_count
    }

    /// The root of `node`'s group, that group's size, and the weight from
    /// `node` to the root. As a side effect the node is re-pointed
    /// directly at its root (path compression), which changes no group
    /// and no weight.
    pub fn get_root_size_weight(&mut self, node: usize) -> (r: (usize, usize, isize))
        requires
            old(self).wf(),
            node < old(self).spec_len(),
        ensures
            final(self).wf(),
            final(self).spec_len() == old(self).spec_len(),
            forall|i: int|
                0 <= i < old(self).spec_len() ==> final(self).rep_of(i) == old(self).rep_of(i),
            forall|i: int|
                0 <= i < old(self).spec_len() ==> final(self).weight_of(i) == old(
                    self,
                ).weight_of(i),
            final(self).spec_root_count() == old(self).spec_root_count(),
            forall|i: int|
                0 <= i < old(self).spec_len() ==> final(self).group_size_of(i) == old(
                    self,
                ).group_size_of(i),
            r.0 == old(self).rep_of(node as int),
            r.1 == old(self).group_size_of(node as int),
            r.2 == old(self).weight_of(node as int),
    {
        let mut node_tmp: usize = node;
        let mut weight_tmp: isize = 0;
        loop
            invariant
                self.wf(),
                self == old(self),
                node < self.spec_len(),
                node_tmp < self.spec_len(),
                self.rep_of(node_tmp as int) == self.rep_of(node as int),
                weight_tmp == self.pot@[node as int] - self.pot@[node_tmp as int],
                node_tmp == node || self.dist@[node_tmp as int] < self.dist@[node as int],
            decreases self.dist@[node_tmp as int],
        {
            let g = self.graph[node_tmp];
            match g {
                WeightedUnionFindNode::ParentAndWeight(parent, weight) => {
                    proof {
                        assert(self.pot@[node_tmp as int] == weight + self.pot@[parent as int]);
                    }
                    weight_tmp = weight_tmp + weight;
                    node_tmp = parent;
                },
                WeightedUnionFindNode::Size(size) => {
                    proof {
                        assert(self.pot@[node_tmp as int] == 0);
                        assert(self.rep@[node_tmp as int] == node_tmp);
                    }
                    if node != node_tmp {
                        self.graph[node] = WeightedUnionFindNode::ParentAndWeight(
                            node_tmp,
                            weight_tmp,
                        );
                    }
                    return (node_tmp, size, weight_tmp);
                },
            }
        }
    }

    /// Unites the groups of `node_a` and `node_b` so that afterwards the
    /// weight of `node_b` minus the weight of `node_a` equals `weight`.
    /// Returns `true` on success, and also when the two nodes already
    /// share a group and their weights agree with `weight`; returns
    /// `false` — changing nothing — when they share a group but their
    /// weights contradict `weight`.
    pub fn merge(&mut self, node_a: usize, node_b: usize, weight: isize) -> (r: bool)
        requires
            old(self).wf(),
            node_a < old(self).spec_len(),
            node_b < old(self).spec_len(),
            old(self).merge_fits(node_a as int, node_b as int, weight as int),
        ensures
            final(self).wf(),
            final(self).spec_len() == old(self).spec_len(),
            r == (!old(self).same_group(node_a as int, node_b as int) || old(self).weight_of(
                node_b as int,
            ) - old(self).weight_of(node_a as int) == weight),
            old(self).same_group(node_a as int, node_b as int) ==> {
                &&& (forall|i: int|
                    0 <= i < old(self).spec_len() ==> final(self).rep_of(i) == old(self).rep_of(
                        i,
                    ))
                &&& (forall|i: int|
                    0 <= i < old(self).spec_len() ==> final(self).weight_of(i) == old(
                        self,
                    ).weight_of(i))
                &&& (forall|i: int|
                    0 <= i < old(self).spec_len() ==> final(self).group_size_of(i) == old(
                        self,
                    ).group_size_of(i))
                &&& final(self).spec_root_count() == old(self).spec_root_count()
            },
            !old(self).same_group(node_a as int, node_b as int) ==> {
                let winner = old(self).merge_winner(node_a as int, node_b as int);
                let loser = old(self).merge_loser(node_a as int, node_b as int);
                let shift = old(self).merge_shift(node_a as int, node_b as int, weight as int);
                &&& (forall|i: int|
                    0 <= i < old(self).spec_len() ==> final(self).rep_of(i) == (
                    if old(self).rep_of(i) == old(self).rep_of(node_a as int) || old(
                        self,
                    ).rep_of(i) == old(self).rep_of(node_b as int) {
                        winner
                    } else {
                        old(self).rep_of(i)
                    }))
                &&& (forall|i: int|
                    0 <= i < old(self).spec_len() ==> final(self).weight_of(i) == (
                    if old(self).rep_of(i) == loser {
                        old(self).weight_of(i) + shift
                    } else {
                        old(self).weight_of(i)
                    }))
                &&& (forall|i: int|
                    0 <= i < old(self).spec_len() ==> final(self).group_size_of(i) == (
                    if old(self).rep_of(i) == old(self).rep_of(node_a as int) || old(
                        self,
                    ).rep_of(i) == old(self).rep_of(node_b as int) {
                        old(self).group_size_of(node_a as int) + old(self).group_size_of(
                            node_b as int,
                        )
                    } else {
                        old(self).group_size_of(i)
                    }))
                &&& final(self).spec_root_count() == old(self).spec_root_count() - 1
            },
    {
        let (root_a, size_a, weight_a_to_root) = self.get_root_size_weight(node_a);
        let (root_b, size_b, weight_b_to_root) = self.get_root_size_weight(node_b);
        if root_a != root_b {
            // an executable length read, so the prover sees that the
            // node count (a bound on any group size) fits in usize
            let n_nodes: usize = self.graph.len();
            proof {
                assert(n_nodes == self.graph@.len());
            }
            let ghost mid = *self;
            let ghost n = self.graph@.len() as nat;
            let ghost old_rep = self.rep@;
            let ghost old_dist = self.dist@;
            let ghost old_pot = self.pot@;
            proof {
                assert forall|i: int| 0 <= i < old_rep.len() implies old_rep[i] == old(
                    self,
                ).rep@[i] by {
                    assert(self.rep_of(i) == old(self).rep_of(i));
                }
                assert(old_rep.len() == old(self).rep@.len());
                assert(old_rep =~= old(self).rep@);
                assert forall|i: int| 0 <= i < old_pot.len() implies old_pot[i] == old(
                    self,
                ).pot@[i] by {
                    assert(self.weight_of(i) == old(self).weight_of(i));
                }
                assert(old_pot.len() == old(self).pot@.len());
                assert(old_pot =~= old(self).pot@);
                lemma_count_roots_pos(old_rep, root_a as int);
                lemma_count_eq_pair(old_rep, root_a as int, root_b as int);
                assert(size_a == count_eq(old_rep, root_a as int));
                assert(size_b == count_eq(old_rep, root_b as int));
            }
            self.root_count = self.root_count - 1;
            let (root_bigger, root_smaller, set_weight128) = if size_a >= size_b {
                (
                    root_a,
                    root_b,
                    weight as i128 + weight_a_to_root as i128 - weight_b_to_root as i128,
                )
            } else {
                (
                    root_b,
                    root_a,
                    weight_b_to_root as i128 - weight as i128 - weight_a_to_root as i128,
                )
            };
            let ghost rs = root_smaller as int;
            let ghost rb = root_bigger as int;
            let ghost shift = old(self).merge_shift(node_a as int, node_b as int, weight as int);
            proof {
                assert(old_rep[root_a as int] == root_a as int);
                assert(old_rep[root_b as int] == root_b as int);
                assert(self.graph@[rs] is Size && self.graph@[rb] is Size);
                assert(old_pot[rs] == 0 && old_pot[rb] == 0);
                assert(set_weight128 == shift);
                assert(old(self).rep_of(rs) == rs);
                assert(-weight_bound() <= 0 + shift <= weight_bound());
            }
            let set_weight: isize = set_weight128 as isize;
            self.graph[root_smaller] = WeightedUnionFindNode::ParentAndWeight(
                root_bigger,
                set_weight,
            );
            self.graph[root_bigger] = WeightedUnionFindNode::Size(size_a + size_b);
            let ghost new_rep = Seq::new(n, |i: int| if old_rep[i] == rs { rb } else { old_rep[i] });
            let ghost dshift = old_dist[rb] + 1;
            let ghost new_dist = Seq::new(
                n,
                |i: int| if old_rep[i] == rs { (old_dist[i] + dshift) as nat } else { old_dist[i] },
            );
            let ghost new_pot = Seq::new(
                n,
                |i: int| if old_rep[i] == rs { old_pot[i] + shift } else { old_pot[i] },
            );
            proof {
                self.rep@ = new_rep;
                self.dist@ = new_dist;
                self.pot@ = new_pot;
                lemma_count_eq_merge(old_rep, rs, rb);
                lemma_count_roots_merge(old_rep, rs, rb);
                assert(new_rep[rs] == rb && new_rep[rb] == rb);
                assert forall|i: int|
                    0 <= i < n implies ((#[trigger] self.graph@[i]) matches
                    WeightedUnionFindNode::ParentAndWeight(p, w) ==> {
                    &&& 0 <= p < n
                    &&& self.rep@[p as int] == self.rep@[i]
                    &&& self.dist@[p as int] < self.dist@[i]
                    &&& self.pot@[i] == w + self.pot@[p as int]
                }) by {
                    match self.graph@[i] {
                        WeightedUnionFindNode::ParentAndWeight(p, w) => {
                            if i == rs {
                                assert(p == rb && w == set_weight);
                                assert(old_rep[rb] == rb && rb != rs);
                                assert(new_dist[rs] == old_dist[rs] + dshift);
                                assert(new_dist[rb] == old_dist[rb]);
                                assert(new_pot[rs] == shift && new_pot[rb] == 0);
                            } else {
                                assert(self.graph@[i] == mid.graph@[i]);
                                assert(old_rep[p as int] == old_rep[i]);
                                assert(old_dist[p as int] < old_dist[i]);
                                assert(old_pot[i] == w + old_pot[p as int]);
                            }
                        },
                        WeightedUnionFindNode::Size(_) => {},
                    }
                }
                assert(count_eq(new_rep, rb) == size_a + size_b);
                assert forall|i: int|
                    0 <= i < n implies ((#[trigger] self.graph@[i]) matches
                    WeightedUnionFindNode::Size(s) ==> s == count_eq(new_rep, i)) by {
                    match self.graph@[i] {
                        WeightedUnionFindNode::Size(s) => {
                            if i != rb {
                                assert(i != rs);
                                assert(self.graph@[i] == mid.graph@[i]);
                                assert(s == count_eq(old_rep, i));
                                lemma_count_eq_merge_other(old_rep, rs, rb, i);
                            }
                        },
                        WeightedUnionFindNode::ParentAndWeight(_, _) => {},
                    }
                }
                assert forall|i: int| 0 <= i < n implies #[trigger] count_eq(
                    new_rep,
                    new_rep[i],
                ) == (if old_rep[i] == root_a as int || old_rep[i] == root_b as int {
                    count_eq(old_rep, root_a as int) + count_eq(old_rep, root_b as int)
                } else {
                    count_eq(old_rep, old_rep[i])
                }) by {
                    if old_rep[i] == rs || old_rep[i] == rb {
                        assert(new_rep[i] == rb);
                    } else {
                        assert(new_rep[i] == old_rep[i]);
                        lemma_count_eq_merge_other(old_rep, rs, rb, old_rep[i]);
                    }
                }
                assert forall|i: int|
                    0 <= i < n implies -weight_bound() <= #[trigger] self.pot@[i] <= weight_bound() by {
                    if old_rep[i] == rs {
                        assert(old(self).rep_of(i) == rs);
                        assert(new_pot[i] == old_pot[i] + shift);
                    }
                }
            }
            true
        } else {
            let diff: isize = weight_b_to_root - weight_a_to_root;
            diff == weight
        }
    }

    /// Whether `node_a` and `node_b` belong to the same group. Paths may
    /// be compressed as a side effect; no group and no weight changes.
    pub fn same(&mut self, node_a: usize, node_b: usize) -> (r: bool)
        requires
            old(self).wf(),
            node_a < old(self).spec_len(),
            node_b < old(self).spec_len(),
        ensures
            final(self).wf(),
            final(self).spec_len() == old(self).spec_len(),
            forall|i: int|
                0 <= i < old(self).spec_len() ==> final(self).rep_of(i) == old(self).rep_of(i),
            forall|i: int|
                0 <= i < old(self).spec_len() ==> final(self).weight_of(i) == old(
                    self,
                ).weight_of(i),
            forall|i: int|
                0 <= i < old(self).spec_len() ==> final(self).group_size_of(i) == old(
                    self,
                ).group_size_of(i),
            final(self).spec_root_count() == old(self).spec_root_count(),
            r == old(self).same_group(node_a as int, node_b as int),
    {
        let (ra, _sa, _wa) = self.get_root_size_weight(node_a);
        let (rb, _sb, _wb) = self.get_root_size_weight(node_b);
        ra == rb
    }

    /// Law: two nodes of one group have the same group size.
    pub proof fn lemma_same_group_same_size(self, a: int, b: int)
        requires
            0 <= a < self.spec_len(),
            0 <= b < self.spec_len(),
            self.same_group(a, b),
        ensures
            self.group_size_of(a) == self.group_size_of(b),
    {
    }
}

} // verus!
