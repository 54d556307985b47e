//! Looking for a cycle.
//!
//! A genome made by this library has none. Genes that come from elsewhere,
//! from a file say, may form one, and are checked before a genome is made
//! of them. The check strips the graph: it takes away, again and again, a
//! node that no connection from a node still there ends in. The connections
//! form no cycle exactly if every node can be taken away.

use crate::neural_net::nets::{ConnectionIndex, Genome, Net};
use crate::neural_net::populations::FitnessInfo;
use vstd::prelude::*;

verus! {

/// How many of the first `upto` marks are set.
pub open spec fn count_set(marks: Seq<bool>, upto: int) -> int
    decreases upto,
{
    if upto <= 0 {
        0
    } else {
        count_set(marks, upto - 1) + if marks[upto - 1] {
            1int
        } else {
            0int
        }
    }
}

/// No more marks are set than there are, and if as many are set as there
/// are, all are.
pub proof fn lemma_count_set(marks: Seq<bool>, upto: int)
    requires
        0 <= upto <= marks.len(),
    ensures
        0 <= count_set(marks, upto) <= upto,
        count_set(marks, upto) == upto ==> forall|i: int| 0 <= i < upto ==> #[trigger] marks[i],
        count_set(marks, upto) < upto ==> exists|i: int| 0 <= i < upto && !#[trigger] marks[i],
    decreases upto,
{
    if upto > 0 {
        lemma_count_set(marks, upto - 1);
        if count_set(marks, upto) < upto {
            if !marks[upto - 1] {
                assert(!marks[upto - 1]);
            } else {
                let i = choose|i: int| 0 <= i < upto - 1 && !#[trigger] marks[i];
                assert(!marks[i]);
            }
        }
    }
}

/// Setting a mark that was not set makes one more set mark.
pub proof fn lemma_count_set_update(marks: Seq<bool>, at: int, upto: int)
    requires
        0 <= at < marks.len(),
        0 <= upto <= marks.len(),
        !marks[at],
    ensures
        count_set(marks.update(at, true), upto) == count_set(marks, upto) + if at < upto {
            1int
        } else {
            0int
        },
    decreases upto,
{
    if upto > 0 {
        lemma_count_set_update(marks, at, upto - 1);
    }
}

impl Genome {
    /// Whether a connection from a node that is not taken away ends in the
    /// node at `v`.
    pub open spec fn blocked(self, removed: Seq<bool>, v: int) -> bool {
        exists|j: int|
            0 <= j < self.connections.len() && #[trigger] self.dst(j) == v && !removed[self.src(j)]
    }

    /// What holds while the graph is stripped: a node that was taken away
    /// has a rank below `round`, and every connection that ends in it
    /// starts from a node that was taken away before it.
    pub open spec fn stripped(self, removed: Seq<bool>, rank: Seq<nat>, round: int) -> bool {
        &&& removed.len() == self.nodes.len()
        &&& rank.len() == self.nodes.len()
        &&& count_set(removed, removed.len() as int) == round
        &&& forall|i: int| 0 <= i < removed.len() && #[trigger] removed[i] ==> rank[i] < round
        &&& forall|j: int|
            0 <= j < self.connections.len() && removed[#[trigger] self.dst(j)] ==> removed[self.src(
                j,
            )] && rank[self.src(j)] < rank[self.dst(j)]
    }
}

/// Among the nodes that are not taken away, one has a rank that none of
/// them goes below.
pub proof fn lemma_least_left(removed: Seq<bool>, rank: Seq<nat>, upto: int) -> (least: int)
    requires
        0 <= upto <= removed.len(),
        removed.len() == rank.len(),
        exists|i: int| 0 <= i < upto && !#[trigger] removed[i],
    ensures
        0 <= least < upto,
        !removed[least],
        forall|i: int| 0 <= i < upto && !#[trigger] removed[i] ==> rank[least] <= rank[i],
    decreases upto,
{
    if exists|i: int| 0 <= i < upto - 1 && !#[trigger] removed[i] {
        let before = lemma_least_left(removed, rank, upto - 1);
        if !removed[upto - 1] && rank[upto - 1] < rank[before] {
            upto - 1
        } else {
            before
        }
    } else {
        let i = choose|i: int| 0 <= i < upto && !#[trigger] removed[i];
        assert(i == upto - 1);
        upto - 1
    }
}

/// Where nodes are left and each of them is blocked, the connections form
/// a cycle.
pub proof fn lemma_stuck(g: Genome, removed: Seq<bool>)
    requires
        g.endpoints_ok(),
        removed.len() == g.nodes.len(),
        exists|i: int| 0 <= i < removed.len() && !#[trigger] removed[i],
        forall|v: int| 0 <= v < removed.len() && !#[trigger] removed[v] ==> g.blocked(removed, v),
    ensures
        !g.acyclic(),
{
    if g.acyclic() {
        let rank = choose|rank: Seq<nat>| g.ranked_by(rank);
        let least = lemma_least_left(removed, rank, removed.len() as int);
        assert(g.blocked(removed, least));
        let j = choose|j: int|
            0 <= j < g.connections.len() && #[trigger] g.dst(j) == least && !removed[g.src(j)];
        assert(g.node_in_range(g.connections[j].input_node));
        assert(rank[g.src(j)] < rank[g.dst(j)]);
        assert(!removed[g.src(j)]);
    }
}

impl<F: FitnessInfo> Net<F> {
    /// Whether every connection that ends in the node at `v` starts from a
    /// node that was taken away.
    fn is_free(&self, removed: &Vec<bool>, v: usize) -> (free: bool)
        requires
            self.structure_ok(),
            removed@.len() == self.nodes.len(),
            v < self.nodes.len(),
        ensures
            free == !self.genome().blocked(removed@, v as int),
    {
        let ghost g = self.genome();
        assert(g.nodes[v as int] == self.nodes[v as int]@);
        let count = self.nodes[v].input_connections.len();
        let mut k: usize = 0;
        while k < count
            invariant
                k <= count,
                v < self.nodes.len(),
                count == self.nodes[v as int].input_connections.len(),
                g == self.genome(),
                g.structure_ok(),
                removed@.len() == self.nodes.len(),
                forall|x: int|
                    0 <= x < k ==> removed@[g.src(
                        (#[trigger] g.nodes[v as int].input_connections[x]).1 as int,
                    )],
            decreases count - k,
        {
            let at = self.nodes[v].input_connections[k];
            proof {
                assert(g.nodes[v as int] == self.nodes[v as int]@);
                let c = g.nodes[v as int].input_connections[k as int];
                assert(c == at);
                assert(g.connection_in_range(c) && g.dst(c.1 as int) == v);
                assert(g.node_in_range(g.connections[c.1 as int].input_node));
            }
            if !removed[self.connections[at.1].input_node.1] {
                assert(g.src(at.1 as int) == self.connections[at.1 as int].input_node.1);
                return false;
            }
            k += 1;
        }
        proof {
            if g.blocked(removed@, v as int) {
                let j = choose|j: int|
                    0 <= j < g.connections.len() && #[trigger] g.dst(j) == v && !removed@[g.src(j)];
                assert(g.connections.len() == self.connections.len());
                let list = g.nodes[v as int].input_connections;
                assert(list.contains(ConnectionIndex(g.id, j as usize)));
                let x = choose|x: int|
                    0 <= x < list.len() && list[x] == ConnectionIndex(g.id, j as usize);
                assert(removed@[g.src((g.nodes[v as int].input_connections[x]).1 as int)]);
            }
        }
        true
    }

    /// A node that was not taken away and that nothing blocks, if there is
    /// one.
    fn find_free(&self, removed: &Vec<bool>) -> (found: Option<usize>)
        requires
            self.structure_ok(),
            removed@.len() == self.nodes.len(),
        ensures
            match found {
                Some(v) => v < self.nodes.len() && !removed@[v as int] && !self.genome().blocked(
                    removed@,
                    v as int,
                ),
                None => forall|v: int|
                    0 <= v < removed@.len() && !#[trigger] removed@[v] ==> self.genome().blocked(
                        removed@,
                        v,
                    ),
            },
    {
        let mut v: usize = 0;
        while v < self.nodes.len()
            invariant
                v <= self.nodes.len(),
                self.structure_ok(),
                removed@.len() == self.nodes.len(),
                forall|x: int|
                    0 <= x < v && !#[trigger] removed@[x] ==> self.genome().blocked(removed@, x),
            decreases self.nodes.len() - v,
        {
            if !removed[v] && self.is_free(removed, v) {
                return Some(v);
            }
            v += 1;
        }
        None
    }

    /// Whether the connections of the genome, enabled or not, form no
    /// cycle.
    pub fn is_acyclic(&self) -> (acyclic: bool)
        requires
            self.structure_ok(),
        ensures
            acyclic == self.genome().acyclic(),
    {
        let ghost g = self.genome();
        let n = self.nodes.len();
        let mut removed: Vec<bool> = vec![false; n];
        let ghost mut rank: Seq<nat> = Seq::new(n as nat, |i: int| 0nat);
        let mut round: usize = 0;
        proof {
            lemma_none_set(removed@, n as int);
        }
        while round < n
            invariant
                round <= n,
                n == self.nodes.len(),
                g == self.genome(),
                self.structure_ok(),
                g.stripped(removed@, rank, round as int),
            decreases n - round,
        {
            match self.find_free(&removed) {
                None => {
                    proof {
                        lemma_count_set(removed@, n as int);
                        lemma_stuck(g, removed@);
                    }
                    return false;
                },
                Some(v) => {
                    let ghost before = removed@;
                    let ghost rank_before = rank;
                    removed[v] = true;
                    proof {
                        rank = rank.update(v as int, round as nat);
                        lemma_count_set_update(before, v as int, n as int);
                        assert forall|j: int|
                            0 <= j < g.connections.len() && removed@[#[trigger] g.dst(
                                j,
                            )] implies removed@[g.src(j)] && rank[g.src(j)] < rank[g.dst(j)] by {
                            assert(g.node_in_range(g.connections[j].input_node));
                            if g.dst(j) == v {
                                if !before[g.src(j)] {
                                    assert(g.blocked(before, v as int));
                                }
                                assert(rank_before[g.src(j)] < round);
                            } else {
                                assert(before[g.dst(j)]);
                                assert(before[g.src(j)]);
                            }
                        }
                    }
                    round += 1;
                },
            }
        }
        proof {
            lemma_count_set(removed@, n as int);
            assert(g.ranked_by(rank)) by {
                assert forall|j: int| 0 <= j < g.connections.len() implies rank[#[trigger] g.src(j)]
                    < rank[g.dst(j)] by {
                    assert(g.node_in_range(g.connections[j].output_node));
                    assert(removed@[g.dst(j)]);
                }
            }
        }
        true
    }
}

/// Of marks none of which is set, none is counted.
pub proof fn lemma_none_set(marks: Seq<bool>, upto: int)
    requires
        0 <= upto <= marks.len(),
        forall|i: int| 0 <= i < marks.len() ==> !#[trigger] marks[i],
    ensures
        count_set(marks, upto) == 0,
    decreases upto,
{
    if upto > 0 {
        lemma_none_set(marks, upto - 1);
    }
}

} // verus!
