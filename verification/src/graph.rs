//! An undirected multigraph over string-labelled nodes, stored as a dense
//! symmetric adjacency matrix of edge multiplicities.
//!
//! Each node carries a unique string label; the position of a label in
//! `node_names` is the node's dense identifier, used to address the matrix.
//! The matrix is always square, symmetric, and zero on the diagonal (no
//! self-loops), and `edges` caches the number of undirected edges, i.e. the
//! sum of the strict upper triangle of the matrix.

use vstd::prelude::*;

use rand::RngExt;

use crate::sums::lemma_cell_le_tri;
use crate::sums::lemma_col_sum_pair;
use crate::sums::lemma_col_sum_row_sum;
use crate::sums::lemma_mat_delete_cell;
use crate::sums::lemma_row_sum_congruent;
use crate::sums::lemma_row_sum_elem;
use crate::sums::lemma_row_sum_nonneg;
use crate::sums::lemma_row_sum_prefix;
use crate::sums::lemma_row_sum_remove_mid;
use crate::sums::lemma_row_total_le_tri;
use crate::sums::lemma_tri_delete;
use crate::sums::lemma_tri_fill;
use crate::sums::lemma_tri_grow;
use crate::sums::lemma_tri_sum_prefix;
use crate::sums::lemma_tri_update;
use crate::sums::lemma_two_cells_le_tri;
use crate::sums::mat_delete;
use crate::sums::row_sum;
use crate::sums::tri_sum;
use vstd::pervasive::VecAdditionalExecFns;
use vstd::string::StringExecFns;

verus! {

/// Why a mutation was refused.
#[derive(Debug, Clone, Copy, PartialEq, Eq, Structural)]
pub enum GraphError {
    /// The label to be inserted is already the label of a node.
    DuplicateLabel,
    /// The two endpoints of the requested edge are the same node.
    InvalidEdge,
}

/// The label of the node that a contraction creates: the two endpoint
/// labels joined by an underscore.
pub open spec fn merged_label(a: Seq<char>, b: Seq<char>) -> Seq<char> {
    a + seq!['_'] + b
}

/// The old dense identifier of the survivor with new identifier `a`, after
/// the two nodes `lo < hi` were deleted (the contraction's merged node,
/// which is new, is not a survivor).
pub open spec fn surv(a: int, lo: int, hi: int) -> int {
    if a < lo {
        a
    } else if a + 1 < hi {
        a + 1
    } else {
        a + 2
    }
}

/// The number of occurrences of the pair `p` among the first `k` entries of
/// `s`.
pub open spec fn occ(s: Seq<(usize, usize)>, p: (usize, usize), k: int) -> int
    decreases k,
{
    if k <= 0 {
        0
    } else {
        occ(s, p, k - 1) + if s[k - 1] == p {
            1int
        } else {
            0int
        }
    }
}

/// Appending an entry does not change occurrence counts over an unchanged
/// prefix.
pub proof fn lemma_occ_push(s: Seq<(usize, usize)>, p: (usize, usize), q: (usize, usize), k: int)
    requires
        0 <= k <= s.len(),
    ensures
        occ(s.push(p), q, k) == occ(s, q, k),
    decreases k,
{
    if k > 0 {
        lemma_occ_push(s, p, q, k - 1);
        assert(s.push(p)[k - 1] == s[k - 1]);
    }
}

/// Relies on `rand::rng` and `rand::RngExt::random_range`: a sample drawn
/// from the non-empty range `0..n` lies in that range.  Nothing is assumed
/// about which value comes back.
#[verifier::external_body]
fn random_below(n: usize) -> (r: usize)
    requires
        n > 0,
    ensures
        r < n,
{
    let mut rng = rand::rng();
    rng.random_range(0..n)
}

/// An undirected multigraph with string node labels and per-pair edge
/// multiplicities.
#[derive(Debug)]
pub struct Graph {
    /// `adjacency_matrix[i][j]` is the number of parallel edges between the
    /// nodes with dense identifiers `i` and `j`.
    pub adjacency_matrix: Vec<Vec<usize>>,
    /// The node labels; the position of a label is the node's dense
    /// identifier.
    pub node_names: Vec<String>,
    /// The number of nodes; always `node_names.len()`.
    pub nodes: usize,
    /// The number of undirected edges, counting multiplicity; always the sum
    /// of the strict upper triangle of `adjacency_matrix`.
    pub edges: usize,
}

impl Graph {
    /// The number of nodes, as a mathematical integer.
    pub open spec fn n(self) -> int {
        self.node_names@.len() as int
    }

    /// The adjacency matrix as a sequence of rows of multiplicities.
    pub open spec fn mat(self) -> Seq<Seq<usize>> {
        Seq::new(self.adjacency_matrix@.len(), |r: int| self.adjacency_matrix@[r]@)
    }

    /// The node labels as sequences of characters, in identifier order.
    pub open spec fn labels(self) -> Seq<Seq<char>> {
        Seq::new(self.node_names@.len(), |k: int| self.node_names@[k]@)
    }

    /// The multiplicity of the edge between the nodes with identifiers `a`
    /// and `b`.
    pub open spec fn mult(self, a: int, b: int) -> int {
        self.mat()[a][b] as int
    }

    /// Whether some node carries the label `name`.
    pub open spec fn has_label(self, name: Seq<char>) -> bool {
        exists|k: int| 0 <= k < self.n() && self.labels()[k] == name
    }

    /// The dense identifier of the node labelled `name` (meaningful only when
    /// `has_label(name)` holds; unique because labels are distinct).
    pub open spec fn label_index(self, name: Seq<char>) -> int {
        choose|k: int| 0 <= k < self.n() && self.labels()[k] == name
    }

    /// The structural part of well-formedness: the label sequence and the
    /// matrix have matching dimensions, labels are unique, and the matrix is
    /// symmetric with a zero diagonal.  (During a contraction the cached
    /// `edges` value is briefly stale, so this part is kept separate.)
    pub open spec fn wf_shape(self) -> bool {
        &&& self.nodes == self.n()
        &&& self.mat().len() == self.n()
        &&& (forall|r: int| 0 <= r < self.n() ==> (#[trigger] self.mat()[r]).len() == self.n())
        &&& (forall|a: int, b: int|
            0 <= a < self.n() && 0 <= b < self.n() ==> #[trigger] self.mat()[a][b]
                == self.mat()[b][a])
        &&& (forall|a: int| 0 <= a < self.n() ==> #[trigger] self.mat()[a][a] == 0)
        &&& (forall|a: int, b: int|
            #![trigger self.labels()[a], self.labels()[b]]
            0 <= a < b < self.n() ==> self.labels()[a] != self.labels()[b])
    }

    /// Well-formedness: the shape invariants hold and `edges` equals the sum
    /// of the strict upper triangle of the matrix.
    pub open spec fn wf(self) -> bool {
        &&& self.wf_shape()
        &&& self.edges == tri_sum(self.mat(), self.n())
    }

    /// `after` is `before` with exactly one more parallel edge between the
    /// distinct nodes `i` and `j`: those two symmetric cells grew by one,
    /// every other cell and all labels are unchanged, and the edge count grew
    /// by one.
    pub open spec fn edge_added(before: Graph, after: Graph, i: int, j: int) -> bool {
        &&& after.n() == before.n()
        &&& after.labels() == before.labels()
        &&& after.mult(i, j) == before.mult(i, j) + 1
        &&& after.mult(j, i) == before.mult(j, i) + 1
        &&& (forall|a: int, b: int|
            0 <= a < before.n() && 0 <= b < before.n() && !(a == i && b == j) && !(a == j && b
                == i) ==> #[trigger] after.mult(a, b) == before.mult(a, b))
        &&& after.edges == before.edges + 1
    }

    /// `after` is `before` with the node `i` deleted: its matrix row and
    /// column are gone, its label is gone (later identifiers drop by one),
    /// and the recomputed edge count is the old triangle sum less the weight
    /// that was incident to `i` (for a well-formed `before` that is
    /// `before.edges` less the incident weight).
    pub open spec fn node_deleted(before: Graph, after: Graph, i: int) -> bool {
        &&& after.n() == before.n() - 1
        &&& after.labels() == before.labels().remove(i)
        &&& after.mat() == mat_delete(before.mat(), i)
        &&& after.edges == tri_sum(before.mat(), before.n()) - row_sum(
            before.mat()[i],
            0,
            before.n(),
        )
    }

    /// `after` is `before` with the edge `(i, j)` contracted: the two
    /// endpoints are gone, a node labelled with their labels joined by an
    /// underscore stands at the end, its weight to every survivor is the sum
    /// of the endpoints' weights to that survivor (no weight is lost), the
    /// weights among survivors are untouched, and the edge count dropped by
    /// exactly the multiplicity of the contracted edge itself.
    pub open spec fn contracted(before: Graph, after: Graph, i: int, j: int) -> bool {
        let n = before.n();
        let lo = if i < j {
            i
        } else {
            j
        };
        let hi = if i < j {
            j
        } else {
            i
        };
        &&& after.n() == n - 1
        &&& after.labels() == before.labels().remove(hi).remove(lo).push(
            merged_label(before.labels()[i], before.labels()[j]),
        )
        &&& (forall|a: int, b: int|
            0 <= a < n - 2 && 0 <= b < n - 2 ==> #[trigger] after.mult(a, b) == before.mult(
                surv(a, lo, hi),
                surv(b, lo, hi),
            ))
        &&& (forall|a: int|
            0 <= a < n - 2 ==> #[trigger] after.mult(a, n - 2) == before.mult(surv(a, lo, hi), i)
                + before.mult(surv(a, lo, hi), j))
        &&& after.edges == before.edges - before.mult(i, j)
    }

    /// A present label's identifier is a valid dense identifier and looks
    /// back up to the label: together with `lemma_label_index_agrees`, the
    /// identifier map is the exact inverse of the label sequence.
    pub proof fn lemma_label_index_valid(self, name: Seq<char>)
        requires
            self.wf_shape(),
            self.has_label(name),
        ensures
            0 <= self.label_index(name) < self.n(),
            self.labels()[self.label_index(name)] == name,
    {
    }

    /// In a well-formed graph the identifier of a present label is the unique
    /// position holding it.
    pub proof fn lemma_label_index_agrees(self, name: Seq<char>, i: int)
        requires
            self.wf_shape(),
            0 <= i < self.n(),
            self.labels()[i] == name,
        ensures
            self.label_index(name) == i,
            self.has_label(name),
    {
        assert(self.has_label(name));
        let k = self.label_index(name);
        if k < i {
            assert(self.labels()[k] != self.labels()[i]);
        } else if k > i {
            assert(self.labels()[i] != self.labels()[k]);
        }
    }

    /// Create an empty graph: no nodes, no edges.
    pub fn new() -> (g: Graph)
        ensures
            g.wf(),
            g.n() == 0,
            g.edges == 0,
    {
        Graph {
            adjacency_matrix: Vec::new(),
            nodes: 0,
            node_names: Vec::new(),
            edges: 0,
        }
    }

    /// The dense identifier of the node labelled `name`, if any.
    pub fn find_index(&self, name: &str) -> (r: Option<usize>)
        ensures
            match r {
                Some(i) => 0 <= i < self.n() && self.labels()[i as int] == name@,
                None => !self.has_label(name@),
            },
    {
        let key: String = name.to_owned();
        let n = self.node_names.len();
        let mut k: usize = 0;
        while k < n
            invariant
                n == self.node_names@.len(),
                k <= n,
                key@ == name@,
                forall|t: int| 0 <= t < k ==> self.labels()[t] != name@,
            decreases n - k,
        {
            if self.node_names[k] == key {
                return Some(k);
            }
            k = k + 1;
        }
        None
    }

    /// Add a node labelled `name`, assigning it the next dense identifier.
    ///
    /// The new node starts with no incident edges: a zero entry is appended
    /// to every existing row and a zero row is appended to the matrix.
    /// Fails with `DuplicateLabel`, leaving the graph unchanged, when a node
    /// with this label already exists.
    pub fn add_node(&mut self, name: &str) -> (r: Result<(), GraphError>)
        requires
            old(self).wf(),
            old(self).nodes < usize::MAX,
        ensures
            final(self).wf(),
            match r {
                Ok(()) => {
                    &&& !old(self).has_label(name@)
                    &&& final(self).n() == old(self).n() + 1
                    &&& final(self).labels() == old(self).labels().push(name@)
                    &&& (forall|a: int, b: int|
                        0 <= a < old(self).n() && 0 <= b < old(self).n() ==> final(self).mult(a, b)
                            == old(self).mult(a, b))
                    &&& (forall|a: int|
                        0 <= a <= old(self).n() ==> final(self).mult(a, old(self).n()) == 0
                            && final(self).mult(old(self).n(), a) == 0)
                    &&& final(self).edges == old(self).edges
                },
                Err(e) => {
                    &&& e == GraphError::DuplicateLabel
                    &&& old(self).has_label(name@)
                    &&& *final(self) == *old(self)
                },
            },
    {
        if let Some(i) = self.find_index(name) {
            proof {
                self.lemma_label_index_agrees(name@, i as int);
            }
            return Err(GraphError::DuplicateLabel);
        }
        let ghost g0 = *self;
        self.nodes = self.nodes + 1;
        self.node_names.push(name.to_owned());
        let ghost g1 = *self;

        let n = self.adjacency_matrix.len();
        let mut r: usize = 0;
        while r < n
            invariant
                r <= n,
                self.node_names == g1.node_names,
                self.nodes == g1.nodes,
                self.edges == g1.edges,
                self.adjacency_matrix@.len() == n,
                forall|t: int| 0 <= t < r ==> #[trigger] self.mat()[t] == g0.mat()[t].push(0),
                forall|t: int| r <= t < n ==> #[trigger] self.mat()[t] == g0.mat()[t],
            decreases n - r,
        {
            let ghost pre = *self;
            self.adjacency_matrix[r].push(0);
            proof {
                assert(self.mat()[r as int] =~= pre.mat()[r as int].push(0));
                assert forall|t: int| 0 <= t < n && t != r implies #[trigger] self.mat()[t]
                    == pre.mat()[t] by {
                    assert(self.adjacency_matrix@[t] == pre.adjacency_matrix@[t]);
                }
                assert(pre.mat()[r as int] == g0.mat()[r as int]);
            }
            r = r + 1;
        }
        let mut fresh_row: Vec<usize> = Vec::new();
        let mut c: usize = 0;
        while c <= n
            invariant
                c <= n + 1,
                fresh_row@.len() == c,
                forall|t: int| 0 <= t < c ==> fresh_row@[t] == 0,
            decreases n + 1 - c,
        {
            fresh_row.push(0);
            c = c + 1;
        }
        let ghost g2 = *self;
        self.adjacency_matrix.push(fresh_row);

        proof {
            let m1 = g0.mat();
            let m2 = self.mat();
            assert forall|t: int| 0 <= t < n implies #[trigger] m2[t] == m1[t].push(0) by {
                assert(self.adjacency_matrix@[t] == g2.adjacency_matrix@[t]);
                assert(g2.mat()[t] == m1[t].push(0));
            }
            lemma_tri_grow(m1, m2);
            assert(self.labels() =~~= g0.labels().push(name@));
            assert forall|a: int, b: int|
                0 <= a < self.n() && 0 <= b < self.n() implies #[trigger] m2[a][b] == m2[b][a] by {
                if a < n && b < n {
                    assert(m2[a][b] == m1[a][b]);
                    assert(m2[b][a] == m1[b][a]);
                } else if a < n && b == n {
                    assert(m2[a][b] == 0);
                    assert(m2[b][a] == 0);
                } else if a == n && b < n {
                    assert(m2[a][b] == 0);
                    assert(m2[b][a] == 0);
                }
            }
            assert(self.wf());
        }
        Ok(())
    }

    /// Add one parallel edge between the nodes labelled `from` and `to`.
    ///
    /// A no-op when either label is unknown (callers may probe freely); fails
    /// with `InvalidEdge`, leaving the graph unchanged, when both labels name
    /// the same node (self-loops are never stored).
    pub fn add_edge(&mut self, from: &str, to: &str) -> (r: Result<(), GraphError>)
        requires
            old(self).wf(),
            old(self).edges < usize::MAX,
        ensures
            final(self).wf(),
            match r {
                Ok(()) => {
                    if old(self).has_label(from@) && old(self).has_label(to@) && from@ != to@ {
                        Self::edge_added(
                            *old(self),
                            *final(self),
                            old(self).label_index(from@),
                            old(self).label_index(to@),
                        )
                    } else {
                        *final(self) == *old(self)
                    }
                },
                Err(e) => {
                    &&& e == GraphError::InvalidEdge
                    &&& old(self).has_label(from@)
                    &&& old(self).has_label(to@)
                    &&& from@ == to@
                    &&& *final(self) == *old(self)
                },
            },
            r is Err <==> (old(self).has_label(from@) && old(self).has_label(to@) && from@
                == to@),
    {
        let oi = self.find_index(from);
        let oj = self.find_index(to);
        if let (Some(i), Some(j)) = (oi, oj) {
            proof {
                self.lemma_label_index_agrees(from@, i as int);
                self.lemma_label_index_agrees(to@, j as int);
            }
            if i == j {
                return Err(GraphError::InvalidEdge);
            }
            let ghost g0 = *self;
            let ghost m0 = g0.mat();
            proof {
                if i < j {
                    lemma_cell_le_tri(m0, i as int, j as int);
                } else {
                    lemma_cell_le_tri(m0, j as int, i as int);
                }
            }
            let vij = self.adjacency_matrix[i][j];
            self.adjacency_matrix[i].set(j, vij + 1);
            let ghost m1 = m0.update(i as int, m0[i as int].update(j as int, (vij + 1) as usize));
            proof {
                assert(self.mat() =~~= m1);
                lemma_tri_update(m0, i as int, j as int, (vij + 1) as usize);
            }
            let vji = self.adjacency_matrix[j][i];
            self.adjacency_matrix[j].set(i, vji + 1);
            let ghost m2 = m1.update(j as int, m1[j as int].update(i as int, (vji + 1) as usize));
            proof {
                assert(self.mat() =~~= m2);
                lemma_tri_update(m1, j as int, i as int, (vji + 1) as usize);
            }
            self.edges = self.edges + 1;
            proof {
                let n = g0.n();
                assert forall|a: int, b: int|
                    0 <= a < n && 0 <= b < n implies #[trigger] self.mat()[a][b]
                    == self.mat()[b][a] by {
                    assert(m0[a][b] == m0[b][a]);
                }
                assert(self.wf());
            }
            Ok(())
        } else {
            Ok(())
        }
    }

    /// Recompute the cached edge count as the sum of the strict upper
    /// triangle of the adjacency matrix; nothing else changes.
    pub fn recompute_edges(&mut self)
        requires
            old(self).nodes == old(self).n(),
            old(self).mat().len() == old(self).n(),
            forall|r: int|
                0 <= r < old(self).n() ==> (#[trigger] old(self).mat()[r]).len() == old(self).n(),
            tri_sum(old(self).mat(), old(self).n()) <= usize::MAX,
        ensures
            final(self).adjacency_matrix == old(self).adjacency_matrix,
            final(self).node_names == old(self).node_names,
            final(self).nodes == old(self).nodes,
            final(self).edges == tri_sum(final(self).mat(), final(self).n()),
    {
        let n = self.nodes;
        let mut e: usize = 0;
        let mut i: usize = 0;
        while i < n
            invariant
                i <= n,
                e == tri_sum(self.mat(), i as int),
            decreases n - i,
        {
            let mut j: usize = i + 1;
            while j < n
                invariant
                    i < n,
                    i + 1 <= j <= n,
                    e == tri_sum(self.mat(), i as int) + row_sum(
                        self.mat()[i as int],
                        i as int + 1,
                        j as int,
                    ),
                decreases n - j,
            {
                proof {
                    lemma_row_sum_prefix(self.mat()[i as int], i as int + 1, j as int + 1, n as int);
                    lemma_tri_sum_prefix(self.mat(), i as int + 1, n as int);
                    assert(tri_sum(self.mat(), i as int + 1) == tri_sum(self.mat(), i as int)
                        + row_sum(self.mat()[i as int], i as int + 1, n as int));
                }
                e = e + self.adjacency_matrix[i][j];
                j = j + 1;
            }
            i = i + 1;
        }
        self.edges = e;
    }

    /// Delete the node labelled `name`, if present: its matrix row and
    /// column disappear, every later node's dense identifier drops by one,
    /// and the cached edge count is recomputed from the smaller matrix.
    /// A no-op when the label is unknown.
    pub fn delete_node(&mut self, name: &str)
        requires
            old(self).wf_shape(),
            tri_sum(old(self).mat(), old(self).n()) <= usize::MAX,
        ensures
            final(self).wf_shape(),
            old(self).wf() ==> final(self).wf(),
            if old(self).has_label(name@) {
                &&& Self::node_deleted(*old(self), *final(self), old(self).label_index(name@))
                &&& final(self).wf()
            } else {
                *final(self) == *old(self)
            },
    {
        let oi = self.find_index(name);
        if let Some(i) = oi {
            proof {
                self.lemma_label_index_agrees(name@, i as int);
            }
            let ghost g0 = *self;
            let ghost m0 = g0.mat();
            let ghost n0 = g0.n();
            self.adjacency_matrix.remove(i);
            proof {
                m0.remove_ensures(i as int);
                g0.adjacency_matrix@.remove_ensures(i as int);
                assert forall|t: int| 0 <= t < n0 - 1 implies #[trigger] self.mat()[t]
                    == m0.remove(i as int)[t] by {
                    assert(self.adjacency_matrix@[t] == g0.adjacency_matrix@.remove(i as int)[t]);
                }
            }
            let n1 = self.adjacency_matrix.len();
            let mut r: usize = 0;
            while r < n1
                invariant
                    r <= n1,
                    self.adjacency_matrix@.len() == n1,
                    self.node_names == g0.node_names,
                    self.nodes == g0.nodes,
                    self.edges == g0.edges,
                    forall|t: int|
                        0 <= t < r ==> #[trigger] self.mat()[t] == m0.remove(i as int)[t].remove(
                            i as int,
                        ),
                    forall|t: int| r <= t < n1 ==> #[trigger] self.mat()[t] == m0.remove(i as int)[t],
                decreases n1 - r,
            {
                proof {
                    m0.remove_ensures(i as int);
                    assert(self.mat()[r as int] == m0.remove(i as int)[r as int]);
                    assert(self.mat()[r as int].len() == n0);
                }
                let ghost pre = *self;
                self.adjacency_matrix[r].remove(i);
                proof {
                    assert(self.mat()[r as int] =~= pre.mat()[r as int].remove(i as int));
                    assert forall|t: int| 0 <= t < n1 && t != r implies #[trigger] self.mat()[t]
                        == pre.mat()[t] by {
                        assert(self.adjacency_matrix@[t] == pre.adjacency_matrix@[t]);
                    }
                }
                r = r + 1;
            }
            proof {
                m0.remove_ensures(i as int);
                assert forall|t: int| 0 <= t < n0 - 1 implies #[trigger] self.adjacency_matrix@[t]@
                    == mat_delete(m0, i as int)[t] by {
                    assert(self.mat()[t] == m0.remove(i as int)[t].remove(i as int));
                    assert(mat_delete(m0, i as int)[t] == m0.remove(i as int)[t].remove(i as int));
                }
            }
            self.node_names.remove(i);
            self.nodes = self.nodes - 1;
            proof {
                m0.remove_ensures(i as int);
                let d = mat_delete(m0, i as int);
                assert forall|t: int| 0 <= t < n0 - 1 implies self.mat()[t] == d[t] by {
                    assert(self.adjacency_matrix@[t]@ == d[t]);
                }
                assert(self.mat() =~= d);
                lemma_tri_delete(m0, i as int);
                lemma_row_sum_nonneg(m0[i as int], 0, n0);
                g0.node_names@.remove_ensures(i as int);
                assert(self.labels() =~~= g0.labels().remove(i as int));
                g0.labels().remove_ensures(i as int);
            }
            self.recompute_edges();
            proof {
                m0.remove_ensures(i as int);
                assert forall|a: int, b: int|
                    0 <= a < self.n() && 0 <= b < self.n() implies #[trigger] self.mat()[a][b]
                    == self.mat()[b][a] by {
                    let sa: int = if a < i { a } else { a + 1 };
                    let sb: int = if b < i { b } else { b + 1 };
                    assert(m0.remove(i as int)[a] == m0[sa]);
                    assert(m0.remove(i as int)[b] == m0[sb]);
                    m0[sa].remove_ensures(i as int);
                    m0[sb].remove_ensures(i as int);
                    assert(self.mat()[a][b] == m0[sa][sb]);
                    assert(self.mat()[b][a] == m0[sb][sa]);
                }
                assert forall|a: int| 0 <= a < self.n() implies #[trigger] self.mat()[a][a]
                    == 0 by {
                    let sa: int = if a < i { a } else { a + 1 };
                    assert(m0.remove(i as int)[a] == m0[sa]);
                    m0[sa].remove_ensures(i as int);
                    assert(self.mat()[a][a] == m0[sa][sa]);
                }
                assert(self.wf());
            }
        }
    }

    /// Delete one parallel edge between the nodes labelled `from` and `to`.
    ///
    /// A no-op when either label is unknown or when no edge is currently
    /// present between the two nodes (which covers a requested self-loop,
    /// since the diagonal is always zero).
    pub fn delete_edge(&mut self, from: &str, to: &str)
        requires
            old(self).wf(),
        ensures
            final(self).wf(),
            if old(self).has_label(from@) && old(self).has_label(to@) && old(self).mult(
                old(self).label_index(from@),
                old(self).label_index(to@),
            ) > 0 {
                Self::edge_added(
                    *final(self),
                    *old(self),
                    old(self).label_index(from@),
                    old(self).label_index(to@),
                )
            } else {
                *final(self) == *old(self)
            },
    {
        let oi = self.find_index(from);
        let oj = self.find_index(to);
        if let (Some(i), Some(j)) = (oi, oj) {
            proof {
                self.lemma_label_index_agrees(from@, i as int);
                self.lemma_label_index_agrees(to@, j as int);
            }
            proof {
                assert(self.adjacency_matrix@.len() == self.n());
                assert(self.mat()[i as int].len() == self.n());
                assert(self.mat()[j as int].len() == self.n());
            }
            let vij = self.adjacency_matrix[i][j];
            if vij > 0 {
                proof {
                    if i == j {
                        assert(self.mat()[i as int][i as int] == 0);
                    }
                }
                let ghost g0 = *self;
                let ghost m0 = g0.mat();
                proof {
                    if i < j {
                        lemma_cell_le_tri(m0, i as int, j as int);
                    } else {
                        lemma_cell_le_tri(m0, j as int, i as int);
                    }
                }
                self.adjacency_matrix[i].set(j, vij - 1);
                let ghost m1 = m0.update(
                    i as int,
                    m0[i as int].update(j as int, (vij - 1) as usize),
                );
                proof {
                    assert(self.mat() =~~= m1);
                    lemma_tri_update(m0, i as int, j as int, (vij - 1) as usize);
                }
                let vji = self.adjacency_matrix[j][i];
                self.adjacency_matrix[j].set(i, vji - 1);
                let ghost m2 = m1.update(
                    j as int,
                    m1[j as int].update(i as int, (vji - 1) as usize),
                );
                proof {
                    assert(self.mat() =~~= m2);
                    lemma_tri_update(m1, j as int, i as int, (vji - 1) as usize);
                }
                self.edges = self.edges - 1;
                proof {
                    let n = g0.n();
                    assert forall|a: int, b: int|
                        0 <= a < n && 0 <= b < n implies #[trigger] self.mat()[a][b]
                        == self.mat()[b][a] by {
                        assert(m0[a][b] == m0[b][a]);
                    }
                    assert(self.wf());
                }
            }
        }
    }

    /// Contract the edge between the nodes labelled `from` and `to`: a node
    /// labelled with the two labels joined by an underscore replaces them,
    /// its weight to every remaining node is the sum of the two endpoints'
    /// weights to that node, and the parallel edges between the endpoints
    /// disappear from the edge count.
    ///
    /// A no-op when either label is unknown.  Fails with `InvalidEdge`,
    /// leaving the graph unchanged, when both labels name the same node, and
    /// with `DuplicateLabel` when the merged label already names a node.
    #[verifier::rlimit(50)]
    #[verifier::spinoff_prover]
    pub fn contract_edge(&mut self, from: &str, to: &str) -> (r: Result<(), GraphError>)
        requires
            old(self).wf(),
            old(self).nodes < usize::MAX,
            old(self).edges <= usize::MAX / 3,
        ensures
            final(self).wf(),
            match r {
                Ok(()) => {
                    if old(self).has_label(from@) && old(self).has_label(to@) && from@ != to@ {
                        Self::contracted(
                            *old(self),
                            *final(self),
                            old(self).label_index(from@),
                            old(self).label_index(to@),
                        )
                    } else {
                        *final(self) == *old(self)
                    }
                },
                Err(GraphError::InvalidEdge) => {
                    &&& old(self).has_label(from@)
                    &&& old(self).has_label(to@)
                    &&& from@ == to@
                    &&& *final(self) == *old(self)
                },
                Err(GraphError::DuplicateLabel) => {
                    &&& old(self).has_label(from@)
                    &&& old(self).has_label(to@)
                    &&& from@ != to@
                    &&& old(self).has_label(merged_label(from@, to@))
                    &&& *final(self) == *old(self)
                },
            },
            r is Ok <==> !(old(self).has_label(from@) && old(self).has_label(to@) && (from@ == to@
                || old(self).has_label(merged_label(from@, to@)))),
    {
        let oi = self.find_index(from);
        let oj = self.find_index(to);
        if let (Some(i), Some(j)) = (oi, oj) {
            proof {
                self.lemma_label_index_agrees(from@, i as int);
                self.lemma_label_index_agrees(to@, j as int);
            }
            if i == j {
                return Err(GraphError::InvalidEdge);
            }
            let merged: String = from.to_owned().concat("_").concat(to);
            proof {
                reveal_strlit("_");
                assert(merged@ =~= merged_label(from@, to@));
            }
            if let Some(k) = self.find_index(merged.as_str()) {
                proof {
                    self.lemma_label_index_agrees(merged@, k as int);
                }
                return Err(GraphError::DuplicateLabel);
            }
            let ghost g0 = *self;
            let ghost m0 = g0.mat();
            let ghost n0 = g0.n();
            let ghost iq = i as int;
            let ghost jq = j as int;
            let ghost lo: int = if iq < jq {
                iq
            } else {
                jq
            };
            let ghost hi: int = if iq < jq {
                jq
            } else {
                iq
            };
            match self.add_node(merged.as_str()) {
                Err(_) => {
                    proof {
                        assert(false);
                    }
                    return Err(GraphError::DuplicateLabel);
                },
                Ok(()) => {},
            }
            let n = self.nodes;
            let ghost g1 = *self;
            proof {
                assert forall|a: int, b: int|
                    0 <= a < n - 1 && 0 <= b < n - 1 implies #[trigger] self.mat()[a][b]
                    == m0[a][b] by {
                    assert(g1.mult(a, b) == g0.mult(a, b));
                }
                assert(g1.mult(n0, n0) == 0);
            }
            let mut x: usize = 0;
            while x < n - 1
                invariant
                    x <= n - 1,
                    self.node_names == g1.node_names,
                    self.nodes == g1.nodes,
                    self.edges == g1.edges,
                    self.adjacency_matrix@.len() == n,
                    forall|t: int| 0 <= t < n ==> (#[trigger] self.mat()[t]).len() == n,
                    forall|a: int, b: int|
                        0 <= a < n - 1 && 0 <= b < n - 1 ==> #[trigger] self.mat()[a][b] == m0[a][b],
                    forall|a: int|
                        0 <= a < x ==> #[trigger] self.mat()[a][n - 1] == m0[a][iq] + m0[a][jq],
                    forall|a: int|
                        0 <= a < x ==> #[trigger] self.mat()[n - 1][a] == m0[a][iq] + m0[a][jq],
                    self.mat()[n - 1][n - 1] == 0,
                decreases n - 1 - x,
            {
                proof {
                    assert(self.mat()[x as int].len() == n);
                    assert(self.mat()[(n - 1) as int].len() == n);
                }
                let vi = self.adjacency_matrix[x][i];
                let vj = self.adjacency_matrix[x][j];
                proof {
                    let xi = x as int;
                    assert(vi == m0[xi][iq]);
                    assert(vj == m0[xi][jq]);
                    if lo < hi {
                        lemma_cell_le_tri(m0, lo, hi);
                    }
                    if xi != iq && xi != jq {
                        let a1: int = if xi < iq {
                            xi
                        } else {
                            iq
                        };
                        let b1: int = if xi < iq {
                            iq
                        } else {
                            xi
                        };
                        let a2: int = if xi < jq {
                            xi
                        } else {
                            jq
                        };
                        let b2: int = if xi < jq {
                            jq
                        } else {
                            xi
                        };
                        lemma_two_cells_le_tri(m0, a1, b1, a2, b2);
                    }
                }
                let w = vi + vj;
                let ghost pre = *self;
                self.adjacency_matrix[x].set(n - 1, w);
                proof {
                    assert forall|t: int| 0 <= t < n && t != x implies #[trigger] self.mat()[t]
                        == pre.mat()[t] by {
                        assert(self.adjacency_matrix@[t] == pre.adjacency_matrix@[t]);
                    }
                    assert(self.mat()[x as int] =~= pre.mat()[x as int].update((n - 1) as int, w));
                }
                let ghost pre2 = *self;
                self.adjacency_matrix[n - 1].set(x, w);
                proof {
                    assert forall|t: int| 0 <= t < n && t != n - 1 implies #[trigger] self.mat()[t]
                        == pre2.mat()[t] by {
                        assert(self.adjacency_matrix@[t] == pre2.adjacency_matrix@[t]);
                    }
                    assert(self.mat()[n - 1] =~= pre2.mat()[n - 1].update(x as int, w));
                }
                x = x + 1;
            }
            let ghost gf = *self;
            let ghost fm = gf.mat();
            proof {
                assert(self.labels() =~~= g1.labels());
                assert forall|a: int, b: int|
                    0 <= a < n0 + 1 && 0 <= b < n0 + 1 implies #[trigger] fm[a][b] == fm[b][a] by {
                    if a < n0 && b < n0 {
                        assert(fm[a][b] == m0[a][b]);
                        assert(fm[b][a] == m0[b][a]);
                        assert(m0[a][b] == m0[b][a]);
                    } else if a < n0 && b == n0 {
                        assert(fm[a][b] == m0[a][iq] + m0[a][jq]);
                        assert(fm[b][a] == m0[a][iq] + m0[a][jq]);
                    } else if a == n0 && b < n0 {
                        assert(fm[a][b] == m0[b][iq] + m0[b][jq]);
                        assert(fm[b][a] == m0[b][iq] + m0[b][jq]);
                    }
                }
                assert forall|a: int| 0 <= a < n0 + 1 implies #[trigger] fm[a][a] == 0 by {
                    if a < n0 {
                        assert(fm[a][a] == m0[a][a]);
                    }
                }
                assert(gf.wf_shape());
                lemma_tri_fill(fm, m0);
                lemma_col_sum_pair(fm, m0, n0, iq, jq, n0);
                lemma_col_sum_row_sum(m0, iq, n0);
                lemma_col_sum_row_sum(m0, jq, n0);
                lemma_row_sum_nonneg(m0[iq], 0, n0);
                lemma_row_sum_nonneg(m0[jq], 0, n0);
                assert(tri_sum(fm, n0 + 1) == g0.edges + row_sum(m0[iq], 0, n0) + row_sum(
                    m0[jq],
                    0,
                    n0,
                ));
                assert(m0[iq][iq] == 0);
                assert(m0[jq][jq] == 0);
                lemma_row_total_le_tri(m0, iq);
                lemma_row_total_le_tri(m0, jq);
                self.lemma_label_index_agrees(from@, iq);
            }
            self.delete_node(from);
            let ghost g2 = *self;
            let ghost m2 = g2.mat();
            let ghost j2: int = if jq < iq {
                jq
            } else {
                jq - 1
            };
            proof {
                g1.labels().remove_ensures(iq);
                assert(g2.labels() == gf.labels().remove(iq));
                assert(g2.labels()[j2] == to@);
                self.lemma_label_index_agrees(to@, j2);
                // the weight incident to the merged matrix's copy of `from`
                fm.remove_ensures(iq);
                lemma_row_sum_congruent(fm[iq], m0[iq], 0, n0);
                assert(row_sum(fm[iq], 0, n0 + 1) == row_sum(fm[iq], 0, n0) + fm[iq][n0]);
                assert(fm[iq][n0] == m0[iq][iq] + m0[iq][jq]);
                assert(g2.edges == g0.edges + row_sum(m0[jq], 0, n0) - m0[iq][jq]);
                // the row of `to` in the once-deleted matrix
                assert(m2 == mat_delete(fm, iq));
                assert(m2[j2] == fm[jq].remove(iq));
                lemma_row_sum_remove_mid(fm[jq], iq, 0, n0 + 1);
                lemma_row_sum_congruent(fm[jq], m0[jq], 0, n0);
                assert(row_sum(fm[jq], 0, n0 + 1) == row_sum(fm[jq], 0, n0) + fm[jq][n0]);
                assert(fm[jq][n0] == m0[jq][iq] + m0[jq][jq]);
                assert(row_sum(m2[j2], 0, n0) == row_sum(m0[jq], 0, n0));
            }
            self.delete_node(to);
            proof {
                let g3 = *self;
                let m3 = g3.mat();
                assert(m3 == mat_delete(m2, j2));
                assert(g3.edges == g0.edges - m0[iq][jq]);
                // weights among survivors are untouched
                assert forall|a: int, b: int|
                    0 <= a < n0 - 2 && 0 <= b < n0 - 2 implies #[trigger] g3.mult(a, b)
                    == g0.mult(surv(a, lo, hi), surv(b, lo, hi)) by {
                    lemma_mat_delete_cell(m2, j2, a, b);
                    let c: int = if a < j2 {
                        a
                    } else {
                        a + 1
                    };
                    let d: int = if b < j2 {
                        b
                    } else {
                        b + 1
                    };
                    lemma_mat_delete_cell(fm, iq, c, d);
                    let e: int = if c < iq {
                        c
                    } else {
                        c + 1
                    };
                    let f2: int = if d < iq {
                        d
                    } else {
                        d + 1
                    };
                    assert(e == surv(a, lo, hi));
                    assert(f2 == surv(b, lo, hi));
                    assert(fm[e][f2] == m0[e][f2]);
                }
                // the merged node accumulates both endpoints' weights
                assert forall|a: int| 0 <= a < n0 - 2 implies #[trigger] g3.mult(a, n0 - 2)
                    == g0.mult(surv(a, lo, hi), iq) + g0.mult(surv(a, lo, hi), jq) by {
                    lemma_mat_delete_cell(m2, j2, a, n0 - 2);
                    let c: int = if a < j2 {
                        a
                    } else {
                        a + 1
                    };
                    lemma_mat_delete_cell(fm, iq, c, n0 - 1);
                    let e: int = if c < iq {
                        c
                    } else {
                        c + 1
                    };
                    assert(e == surv(a, lo, hi));
                    assert(fm[e][n0] == m0[e][iq] + m0[e][jq]);
                }
                // the final label sequence
                let labels0 = g0.labels();
                let labels1 = g1.labels();
                let labels2 = g2.labels();
                let target = labels0.remove(hi).remove(lo).push(merged_label(from@, to@));
                labels1.remove_ensures(iq);
                labels2.remove_ensures(j2);
                labels0.remove_ensures(hi);
                labels0.remove(hi).remove_ensures(lo);
                assert(g3.labels().len() == n0 - 1);
                assert(target.len() == n0 - 1);
                assert forall|a: int| 0 <= a < n0 - 1 implies g3.labels()[a] == target[a] by {
                    let c: int = if a < j2 {
                        a
                    } else {
                        a + 1
                    };
                    let e: int = if c < iq {
                        c
                    } else {
                        c + 1
                    };
                    assert(g3.labels()[a] == labels2[c]);
                    assert(labels2[c] == labels1[e]);
                    if a < n0 - 2 {
                        assert(labels1[e] == labels0[e]);
                        assert(e == surv(a, lo, hi));
                        assert(target[a] == labels0.remove(hi).remove(lo)[a]);
                    } else {
                        assert(e == n0);
                        assert(labels1[e] == merged@);
                    }
                }
                assert(g3.labels() =~= target);
                assert(Self::contracted(g0, g3, iq, jq));
            }
            Ok(())
        } else {
            Ok(())
        }
    }

    /// Every edge of the graph as an identifier pair `(i, j)` with `i < j`,
    /// repeated once per unit of multiplicity: the pool `random_edge` draws
    /// from uniformly, in which an edge of multiplicity `m` stands `m`
    /// times.
    pub fn weighted_edges(&self) -> (pool: Vec<(usize, usize)>)
        requires
            self.wf(),
        ensures
            pool@.len() == self.edges,
            forall|t: int|
                0 <= t < pool@.len() ==> (#[trigger] pool@[t]).0 < pool@[t].1 < self.n()
                    && self.mult(pool@[t].0 as int, pool@[t].1 as int) > 0,
            forall|a: int, b: int|
                0 <= a < b < self.n() ==> #[trigger] occ(
                    pool@,
                    ((a as usize), (b as usize)),
                    pool@.len() as int,
                ) == self.mult(a, b),
    {
        let n = self.nodes;
        let mut pool: Vec<(usize, usize)> = Vec::new();
        let mut i: usize = 0;
        while i < n
            invariant
                i <= n,
                pool@.len() == tri_sum(self.mat(), i as int),
                forall|t: int|
                    0 <= t < pool@.len() ==> (#[trigger] pool@[t]).0 < pool@[t].1 < self.n()
                        && self.mult(pool@[t].0 as int, pool@[t].1 as int) > 0,
                forall|a: int, b: int|
                    0 <= a < b < self.n() && a < i ==> #[trigger] occ(
                        pool@,
                        ((a as usize), (b as usize)),
                        pool@.len() as int,
                    ) == self.mult(a, b),
                forall|a: int, b: int|
                    0 <= a < b < self.n() && a >= i ==> #[trigger] occ(
                        pool@,
                        ((a as usize), (b as usize)),
                        pool@.len() as int,
                    ) == 0,
            decreases n - i,
        {
            proof {
                let ai = i as int;
                assert forall|b: int| i + 1 <= b < self.n() implies #[trigger] occ(
                    pool@,
                    (i, (b as usize)),
                    pool@.len() as int,
                ) == 0 by {
                    assert(occ(pool@, ((ai as usize), (b as usize)), pool@.len() as int) == 0);
                }
            }
            let mut j: usize = i + 1;
            while j < n
                invariant
                    i < n,
                    i + 1 <= j <= n,
                    pool@.len() == tri_sum(self.mat(), i as int) + row_sum(
                        self.mat()[i as int],
                        i as int + 1,
                        j as int,
                    ),
                    forall|t: int|
                        0 <= t < pool@.len() ==> (#[trigger] pool@[t]).0 < pool@[t].1 < self.n()
                            && self.mult(pool@[t].0 as int, pool@[t].1 as int) > 0,
                    forall|a: int, b: int|
                        0 <= a < b < self.n() && a < i ==> #[trigger] occ(
                            pool@,
                            ((a as usize), (b as usize)),
                            pool@.len() as int,
                        ) == self.mult(a, b),
                    forall|b: int|
                        i < b < j ==> #[trigger] occ(
                            pool@,
                            (i, (b as usize)),
                            pool@.len() as int,
                        ) == self.mult(i as int, b),
                    forall|b: int|
                        j <= b < self.n() ==> #[trigger] occ(
                            pool@,
                            (i, (b as usize)),
                            pool@.len() as int,
                        ) == 0,
                    forall|a: int, b: int|
                        0 <= a < b < self.n() && a > i ==> #[trigger] occ(
                            pool@,
                            ((a as usize), (b as usize)),
                            pool@.len() as int,
                        ) == 0,
                decreases n - j,
            {
                let count = self.adjacency_matrix[i][j];
                proof {
                    let bj = j as int;
                    assert(occ(pool@, (i, (bj as usize)), pool@.len() as int) == 0);
                }
                let mut c: usize = 0;
                while c < count
                    invariant
                        c <= count,
                        count == self.mult(i as int, j as int),
                        i < j < n,
                        pool@.len() == tri_sum(self.mat(), i as int) + row_sum(
                            self.mat()[i as int],
                            i as int + 1,
                            j as int,
                        ) + c,
                        forall|t: int|
                            0 <= t < pool@.len() ==> (#[trigger] pool@[t]).0 < pool@[t].1
                                < self.n() && self.mult(pool@[t].0 as int, pool@[t].1 as int) > 0,
                        forall|a: int, b: int|
                            0 <= a < b < self.n() && a < i ==> #[trigger] occ(
                                pool@,
                                ((a as usize), (b as usize)),
                                pool@.len() as int,
                            ) == self.mult(a, b),
                        forall|b: int|
                            i < b < j ==> #[trigger] occ(
                                pool@,
                                (i, (b as usize)),
                                pool@.len() as int,
                            ) == self.mult(i as int, b),
                        occ(pool@, (i, j), pool@.len() as int) == c,
                        forall|b: int|
                            j < b < self.n() ==> #[trigger] occ(
                                pool@,
                                (i, (b as usize)),
                                pool@.len() as int,
                            ) == 0,
                        forall|a: int, b: int|
                            0 <= a < b < self.n() && a > i ==> #[trigger] occ(
                                pool@,
                                ((a as usize), (b as usize)),
                                pool@.len() as int,
                            ) == 0,
                    decreases count - c,
                {
                    let ghost pre = pool@;
                    pool.push((i, j));
                    proof {
                        assert forall|a: int, b: int|
                            0 <= a < b < self.n() implies #[trigger] occ(
                            pool@,
                            ((a as usize), (b as usize)),
                            pool@.len() as int,
                        ) == occ(pre, ((a as usize), (b as usize)), pre.len() as int) + (if a
                            == i as int && b == j as int {
                            1int
                        } else {
                            0int
                        }) by {
                            lemma_occ_push(pre, (i, j), ((a as usize), (b as usize)), pre.len() as int);
                        }
                        lemma_row_sum_prefix(self.mat()[i as int], i as int + 1, j as int, n as int);
                        lemma_tri_sum_prefix(self.mat(), i as int + 1, n as int);
                        assert(tri_sum(self.mat(), i as int + 1) == tri_sum(self.mat(), i as int)
                            + row_sum(self.mat()[i as int], i as int + 1, n as int));
                        lemma_row_sum_elem(self.mat()[i as int], i as int + 1, j as int, n as int);
                    }
                    c = c + 1;
                }
                proof {
                    assert(row_sum(self.mat()[i as int], i as int + 1, j as int + 1) == row_sum(
                        self.mat()[i as int],
                        i as int + 1,
                        j as int,
                    ) + self.mat()[i as int][j as int]);
                }
                j = j + 1;
            }
            proof {
                assert(tri_sum(self.mat(), i as int + 1) == tri_sum(self.mat(), i as int)
                    + row_sum(self.mat()[i as int], i as int + 1, n as int));
                assert forall|a: int, b: int|
                    0 <= a < b < self.n() && a <= i implies #[trigger] occ(
                    pool@,
                    ((a as usize), (b as usize)),
                    pool@.len() as int,
                ) == self.mult(a, b) by {
                    if a == i as int {
                        assert(occ(pool@, (i, (b as usize)), pool@.len() as int) == self.mult(
                            i as int,
                            b,
                        ));
                    }
                }
            }
            i = i + 1;
        }
        pool
    }

    /// One edge drawn at random from the multiset of edges, weighted by
    /// multiplicity (an edge of multiplicity 3 is three times as likely as
    /// one of multiplicity 1): the labels of its endpoints, lower identifier
    /// first.  `None` exactly when the graph has no edges.
    pub fn random_edge(&self) -> (r: Option<(String, String)>)
        requires
            self.wf(),
        ensures
            r is Some <==> self.edges > 0,
            match r {
                Some(pair) => exists|a: int, b: int|
                    0 <= a < b < self.n() && self.mult(a, b) > 0 && pair.0@ == self.labels()[a]
                        && pair.1@ == self.labels()[b],
                None => self.edges == 0,
            },
    {
        let pool = self.weighted_edges();
        if pool.len() == 0 {
            return None;
        }
        let t = random_below(pool.len());
        let pair = pool[t];
        let a = pair.0;
        let b = pair.1;
        let u = self.node_names[a].clone();
        let v = self.node_names[b].clone();
        proof {
            assert(a < b && (b as int) < self.n());
            assert(self.mult(a as int, b as int) > 0);
            assert(u@ == self.labels()[a as int] && v@ == self.labels()[b as int]);
        }
        Some((u, v))
    }
}

impl Clone for Graph {
    /// A deep copy: the clone has the same labels, the same matrix, and the
    /// same counts as the original.
    fn clone(&self) -> (g: Graph)
        ensures
            g.n() == self.n(),
            g.labels() == self.labels(),
            g.mat() == self.mat(),
            g.nodes == self.nodes,
            g.edges == self.edges,
            self.wf() ==> g.wf(),
    {
        let g = Graph {
            adjacency_matrix: self.adjacency_matrix.clone(),
            node_names: self.node_names.clone(),
            nodes: self.nodes,
            edges: self.edges,
        };
        proof {
            assert forall|t: int| 0 <= t < self.adjacency_matrix@.len() implies g.mat()[t]
                =~= self.mat()[t] by {
                assert(cloned::<Vec<usize>>(self.adjacency_matrix@[t], g.adjacency_matrix@[t]));
            }
            assert(g.mat() =~~= self.mat());
            assert forall|t: int| 0 <= t < self.node_names@.len() implies g.labels()[t]
                == self.labels()[t] by {
                assert(cloned::<String>(self.node_names@[t], g.node_names@[t]));
            }
            assert(g.labels() =~~= self.labels());
        }
        g
    }
}

} // verus!
