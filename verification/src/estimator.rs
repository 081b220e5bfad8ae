//! The contraction-driven minimum-cut estimator: a single randomized trial
//! of repeated edge contraction.
//!
//! The estimator clones the stored graph and, while the clone has more than
//! two nodes and more than one edge, draws a random edge (weighted by
//! multiplicity) and contracts it.  The labels of the first two surviving
//! nodes name the two sides of the estimated cut; the underscore-joined
//! composite labels record which original nodes each side absorbed.

use vstd::prelude::*;

use crate::graph::merged_label;
use crate::graph::Graph;

verus! {

/// `b` holds the same graph as `a`: the same labels, the same matrix, and
/// the same counts (a clone of `a` satisfies this).
pub open spec fn same_graph(a: Graph, b: Graph) -> bool {
    &&& b.labels() == a.labels()
    &&& b.mat() == a.mat()
    &&& b.nodes == a.nodes
    &&& b.edges == a.edges
}

/// One valid contraction step: contracting some present edge between two
/// distinct nodes turns `pre` into `post`.
pub open spec fn contraction_step(pre: Graph, post: Graph) -> bool {
    exists|i: int, j: int|
        0 <= i < pre.n() && 0 <= j < pre.n() && i != j && pre.mult(i, j) > 0
            && #[trigger] Graph::contracted(pre, post, i, j)
}

/// `post` arises from `pre` by `k` valid contraction steps.
pub open spec fn reachable_by_contractions(pre: Graph, post: Graph, k: nat) -> bool
    decreases k,
{
    if k == 0 {
        same_graph(pre, post)
    } else {
        exists|mid: Graph|
            #[trigger] contraction_step(mid, post) && reachable_by_contractions(
                pre,
                mid,
                (k - 1) as nat,
            )
    }
}

/// The one early stop a run allows itself: contracting some present edge
/// would create a label that already names a node, so that contraction was
/// refused and the run reported the surviving nodes as they stood.
pub open spec fn collision_stop(g: Graph) -> bool {
    exists|i: int, j: int|
        0 <= i < g.n() && 0 <= j < g.n() && i != j && #[trigger] g.mult(i, j) > 0 && g.has_label(
            merged_label(g.labels()[i], g.labels()[j]),
        )
}

/// A single-trial randomized minimum-cut estimator over one stored graph.
pub struct Krager {
    /// The graph each trial starts from; an estimation run works on a clone
    /// and never mutates this original.
    pub graph: Graph,
}

impl Krager {
    /// Wrap a graph for estimation.
    pub fn new(g: Graph) -> (k: Krager)
        ensures
            k.graph == g,
    {
        Krager { graph: g }
    }

    /// One full contraction run on a clone of the stored graph: while more
    /// than two nodes and more than one edge remain, contract a random edge.
    ///
    /// Exactly when the stored graph has at least two nodes, the run returns
    /// the first two labels of a well-formed graph reached from the stored
    /// one by a sequence of valid edge contractions, at which the run's exit
    /// condition held: at most two nodes, at most one edge, or the one
    /// recovery stop, a merged label that would collide with an existing
    /// node's (`collision_stop`).  With exactly two stored nodes no
    /// contraction happens and their labels come back as they stand.  The
    /// stored graph itself is untouched.
    pub fn krager_iteration(&mut self) -> (r: Option<(String, String)>)
        requires
            old(self).graph.wf(),
            old(self).graph.nodes < usize::MAX,
            old(self).graph.edges <= usize::MAX / 3,
        ensures
            *final(self) == *old(self),
            r is Some <==> old(self).graph.n() >= 2,
            match r {
                Some(pair) => {
                    &&& pair.0@ != pair.1@
                    &&& exists|g: Graph, k: nat|
                        {
                            &&& #[trigger] reachable_by_contractions(old(self).graph, g, k)
                            &&& g.wf()
                            &&& g.n() >= 2
                            &&& pair.0@ == g.labels()[0]
                            &&& pair.1@ == g.labels()[1]
                            &&& (g.nodes <= 2 || g.edges <= 1 || collision_stop(g))
                        }
                },
                None => old(self).graph.n() < 2,
            },
            old(self).graph.n() == 2 ==> (r matches Some(pair) && pair.0@
                == old(self).graph.labels()[0] && pair.1@ == old(self).graph.labels()[1]),
    {
        let mut g1 = self.graph.clone();
        let mut collided = false;
        proof {
            assert(reachable_by_contractions(self.graph, g1, 0));
        }
        while !collided && g1.nodes > 2 && g1.edges > 1
            invariant
                g1.wf(),
                g1.nodes <= self.graph.nodes,
                g1.edges <= self.graph.edges,
                self.graph.nodes >= 2 ==> g1.nodes >= 2,
                self.graph.nodes < 2 ==> g1.nodes == self.graph.nodes,
                self.graph.nodes <= 2 ==> g1.labels() == self.graph.labels(),
                exists|k: nat| reachable_by_contractions(self.graph, g1, k),
                collided ==> collision_stop(g1),
            decreases (if collided {
                0int
            } else {
                1int
            }), g1.nodes,
        {
            if let Some(pair) = g1.random_edge() {
                let ghost pre = g1;
                let ghost (wa, wb): (int, int) = choose|a: int, b: int|
                    0 <= a < b < pre.n() && pre.mult(a, b) > 0 && pair.0@ == pre.labels()[a]
                        && pair.1@ == pre.labels()[b];
                proof {
                    assert(pre.has_label(pair.0@));
                    assert(pre.has_label(pair.1@));
                    assert(pair.0@ != pair.1@);
                    pre.lemma_label_index_agrees(pair.0@, wa);
                    pre.lemma_label_index_agrees(pair.1@, wb);
                }
                let outcome = g1.contract_edge(pair.0.as_str(), pair.1.as_str());
                if outcome.is_err() {
                    // the merged label collided with an existing one; stop
                    // contracting and report the nodes that remain
                    proof {
                        assert(g1.has_label(merged_label(g1.labels()[wa], g1.labels()[wb])));
                        assert(collision_stop(g1));
                    }
                    collided = true;
                } else {
                    proof {
                        assert(Graph::contracted(pre, g1, wa, wb));
                        assert(contraction_step(pre, g1));
                        let k0 = choose|k: nat| reachable_by_contractions(self.graph, pre, k);
                        assert(reachable_by_contractions(self.graph, g1, k0 + 1));
                    }
                }
            } else {
                proof {
                    assert(false);
                }
                collided = true;
            }
        }
        if g1.nodes >= 2 {
            let u = g1.node_names[0].clone();
            let v = g1.node_names[1].clone();
            proof {
                assert(u@ == g1.labels()[0]);
                assert(v@ == g1.labels()[1]);
                let k0 = choose|k: nat| reachable_by_contractions(self.graph, g1, k);
                assert(reachable_by_contractions(old(self).graph, g1, k0));
            }
            Some((u, v))
        } else {
            None
        }
    }
}

} // verus!
