//! The first pass over the cuckoo graph: a depth-first search that grows a
//! spanning forest and turns every edge outside it into a linear constraint
//! on the right part of the code vector.

use crate::field::{lemma_add_laws, F128b};
use crate::solver::gaussian_eliminations::independence::{
    colsum, dependent, lemma_colsum_agree, lemma_colsum_composed, lemma_colsum_single,
    lemma_colsum_unit, lemma_colsum_xor, lemma_colsum_zero, picks, recombined, vanishes,
};
use crate::solver::gaussian_eliminations::bits_of;

use crate::solver::gaussian_eliminations::system_of;
use crate::solver::paxos::graph::{
    count_unseen, lemma_count_unseen_le, lemma_count_unseen_mono, lemma_count_unseen_strict,
    parts_add, parts_zero, ConstraintParts, CuckooGraph, Edge, Forest, Mode, Parts, VisitStatus,
};
use crate::solver::paxos::{r, r_bits, PaxosAux, PaxosSolverParams};
use vstd::prelude::*;

verus! {

/// Sums of constraints may be regrouped.
pub proof fn lemma_parts_shuffle(a: Parts, l: Parts, b: Parts)
    requires
        a.0.len() == l.0.len(),
        a.0.len() == b.0.len(),
    ensures
        parts_add(parts_add(a, l), b) == parts_add(parts_add(a, b), l),
        parts_add(parts_add(a, l), b) == parts_add(parts_add(b, a), l),
{
    lemma_add_laws(a.1, l.1, b.1);
    lemma_add_laws(a.1, b.1, l.1);
    lemma_add_laws(l.1, b.1, a.1);
    lemma_add_laws(b.1, a.1, l.1);
    assert(parts_add(parts_add(a, l), b).0 =~= parts_add(parts_add(a, b), l).0);
    assert(parts_add(parts_add(a, l), b).0 =~= parts_add(parts_add(b, a), l).0);
}

impl CuckooGraph {
    /// The constraint that the point of edge `k` contributes.
    pub open spec fn label(&self, k: int) -> Parts {
        (r_bits(self.k3@, self.edges@[k].point.0, self.r_size), self.edges@[k].point.1)
    }

    /// The accumulator of a node.
    pub open spec fn acc(&self, w: int) -> Parts {
        self.nodes@[w].accumulator@
    }

    pub open spec fn node_seen(&self, w: int) -> bool {
        self.nodes@[w].visit_status != VisitStatus::NotVisited
    }

    pub open spec fn edge_seen(&self, k: int) -> bool {
        self.edges@[k].visit_status != VisitStatus::NotVisited
    }

    /// The forest record has an entry for every node and edge.
    pub open spec fn shaped(&self) -> bool {
        &&& self.forest@.child.len() == self.edges@.len()
        &&& self.forest@.row.len() == self.edges@.len()
        &&& self.forest@.parent_edge.len() == self.nodes@.len()
        &&& self.forest@.comp.len() == self.nodes@.len()
        &&& self.forest@.depth.len() == self.nodes@.len()
        &&& self.forest@.path.len() == self.nodes@.len()
        &&& self.forest@.cycle.len() == self.rows@.len()
        &&& self.forest@.owner.len() == self.rows@.len()
    }

    /// The bit vectors of the edges' labels.
    pub open spec fn lbits(&self) -> Seq<Seq<bool>> {
        Seq::new(self.edges@.len(), |k: int| self.label(k).0)
    }

    /// For every edge, the nodes that it touches once: its two ends, unless
    /// they are one.
    pub open spec fn inc(&self) -> Seq<Seq<bool>> {
        Seq::new(
            self.edges@.len(),
            |k: int|
                Seq::new(
                    self.nodes@.len(),
                    |w: int| (self.edges@[k].u == w) != (self.edges@[k].v == w),
                ),
        )
    }

    /// Edge `k` is settled as a tree edge.
    pub open spec fn tree_edge(&self, k: int, pending: int) -> bool {
        self.edge_seen(k) && !self.edges@[k].back_edge && k != pending
    }

    /// The recorded path of node `w` consists of tree edges; it sums to the
    /// node's accumulator, and touches the root and the node once and every
    /// other node twice or not at all.
    pub open spec fn path_ok(&self, w: int, pending: int) -> bool {
        let path = self.forest@.path[w];
        let e = self.edges@.len() as int;
        self.node_seen(w) ==> {
            &&& path.len() == e
            &&& forall|k: int| 0 <= k < e && #[trigger] path[k] ==> self.tree_edge(k, pending)
            &&& forall|c: int|
                0 <= c < self.r_size ==> #[trigger] self.acc(w).0[c] == colsum(
                    self.lbits(),
                    path,
                    c,
                    e,
                )
            &&& forall|z: int|
                0 <= z < self.nodes@.len() ==> #[trigger] colsum(self.inc(), path, z, e) == ((z
                    == self.forest@.comp[w]) != (z == w))
        }
    }

    /// The recorded cycle of constraint `i` consists of its back edge and
    /// tree edges; it sums to the constraint's bits, and touches every node
    /// twice or not at all.
    pub open spec fn cycle_ok(&self, i: int, pending: int) -> bool {
        let cyc = self.forest@.cycle[i];
        let k = self.forest@.owner[i];
        let e = self.edges@.len() as int;
        &&& cyc.len() == e
        &&& 0 <= k < e
        &&& self.edge_seen(k)
        &&& self.edges@[k].back_edge
        &&& self.forest@.row[k] == i
        &&& cyc[k]
        &&& forall|j: int| 0 <= j < e && j != k && #[trigger] cyc[j] ==> self.tree_edge(j, pending)
        &&& forall|c: int|
            0 <= c < self.r_size ==> #[trigger] self.rows@[i].0[c] == colsum(self.lbits(), cyc, c, e)
        &&& forall|z: int| 0 <= z < self.nodes@.len() ==> !#[trigger] colsum(self.inc(), cyc, z, e)
    }

    /// Every edge at node `w` has been visited.
    pub open spec fn closed(&self, w: int) -> bool {
        forall|d: int|
            0 <= d < self.nodes@[w].dirs@.len() ==> #[trigger] self.edge_seen(
                self.nodes@[w].dirs@[d].edge as int,
            )
    }

    /// Edge `k` is in the forest: it leads from a visited parent to its child,
    /// whose accumulator is the parent's plus the edge's label.
    pub open spec fn tree_ok(&self, k: int) -> bool {
        let e = self.edges@[k];
        let c = self.forest@.child[k];
        let p = self.other_end(k, c);
        &&& (c == e.u || c == e.v)
        &&& c != p
        &&& self.node_seen(c)
        &&& self.node_seen(p)
        &&& self.forest@.parent_edge[c] == k
        &&& self.acc(c) == parts_add(self.acc(p), self.label(k))
        &&& self.forest@.comp[c] == self.forest@.comp[p]
        &&& self.forest@.depth[c] == self.forest@.depth[p] + 1
    }

    /// Edge `k` is outside the forest: its ends lie in one tree, and its row
    /// is the sum of their accumulators and its label.
    pub open spec fn back_ok(&self, k: int) -> bool {
        let e = self.edges@[k];
        &&& self.node_seen(e.u as int)
        &&& self.node_seen(e.v as int)
        &&& self.forest@.comp[e.u as int] == self.forest@.comp[e.v as int]
        &&& 0 <= self.forest@.row[k] < self.rows@.len()
        &&& self.forest@.owner[self.forest@.row[k]] == k
        &&& self.rows@[self.forest@.row[k]] == parts_add(
            parts_add(self.acc(e.u as int), self.acc(e.v as int)),
            self.label(k),
        )
    }

    pub open spec fn edge_ok(&self, k: int, pending: int) -> bool {
        &&& !self.edge_seen(k) ==> !self.edges@[k].back_edge
        &&& self.edge_seen(k) && k != pending ==> if self.edges@[k].back_edge {
            self.back_ok(k)
        } else {
            self.tree_ok(k)
        }
    }

    pub open spec fn node_ok(&self, w: int, pending: int) -> bool {
        let pe = self.forest@.parent_edge[w];
        self.node_seen(w) ==> {
            &&& 0 <= self.forest@.comp[w] < self.nodes@.len()
            &&& pe != pending || pe < 0
            &&& if pe < 0 {
                &&& self.forest@.comp[w] == w
                &&& self.acc(w) == parts_zero(self.r_size as nat)
                &&& self.forest@.depth[w] == 0
            } else {
                &&& pe < self.edges@.len()
                &&& self.edge_seen(pe)
                &&& !self.edges@[pe].back_edge
                &&& self.forest@.child[pe] == w
            }
        }
    }

    pub open spec fn comp_closed(&self, w: int, root: int) -> bool {
        self.node_seen(w) && self.forest@.comp[w] != root ==> self.closed(w)
    }

    /// What holds of the graph while the first pass grows the tree of `root`,
    /// with edge `pending` visited but not yet classified.
    pub open spec fn forest_ok(&self, root: int, pending: int) -> bool {
        &&& self.wf()
        &&& self.shaped()
        &&& forall|w: int| 0 <= w < self.nodes@.len() ==> #[trigger] self.node_ok(w, pending)
        &&& forall|k: int| 0 <= k < self.edges@.len() ==> #[trigger] self.edge_ok(k, pending)
        &&& forall|w: int| 0 <= w < self.nodes@.len() ==> #[trigger] self.comp_closed(w, root)
        &&& forall|i: int| 0 <= i < self.rows@.len() ==> (#[trigger] self.rows@[i]).0.len() == self.r_size
        &&& forall|w: int| 0 <= w < self.nodes@.len() ==> #[trigger] self.path_ok(w, pending)
        &&& forall|i: int| 0 <= i < self.rows@.len() ==> #[trigger] self.cycle_ok(i, pending)
    }

    /// Nothing has been visited a second time.
    pub open spec fn no_twice(&self) -> bool {
        &&& forall|w: int|
            0 <= w < self.nodes@.len() ==> (#[trigger] self.nodes@[w]).visit_status
                != VisitStatus::VisitedTwice
        &&& forall|k: int|
            0 <= k < self.edges@.len() ==> (#[trigger] self.edges@[k]).visit_status
                != VisitStatus::VisitedTwice
    }

    /// The arena is that of `old`: the same cells, nodes, lists, edges and
    /// points. Marks and accumulators may differ.
    pub open spec fn same_arena(&self, old: CuckooGraph) -> bool {
        &&& self.l_size == old.l_size
        &&& self.r_size == old.r_size
        &&& self.slots@ == old.slots@
        &&& self.nodes@.len() == old.nodes@.len()
        &&& self.edges@.len() == old.edges@.len()
        &&& forall|w: int|
            0 <= w < self.nodes@.len() ==> {
                &&& (#[trigger] self.nodes@[w]).id == old.nodes@[w].id
                &&& self.nodes@[w].dirs@ == old.nodes@[w].dirs@
            }
        &&& forall|k: int|
            0 <= k < self.edges@.len() ==> {
                &&& (#[trigger] self.edges@[k]).u == old.edges@[k].u
                &&& self.edges@[k].v == old.edges@[k].v
                &&& self.edges@[k].point == old.edges@[k].point
                &&& self.edges@[k].pu@ == old.edges@[k].pu@
                &&& self.edges@[k].pv@ == old.edges@[k].pv@
            }
    }

    pub open spec fn same_frame(&self, old: CuckooGraph) -> bool {
        self.same_arena(old) && self.k3@ == old.k3@
    }

    pub open spec fn node_kept(&self, old: CuckooGraph, w: int) -> bool {
        old.node_seen(w) ==> {
            &&& self.nodes@[w] == old.nodes@[w]
            &&& self.forest@.comp[w] == old.forest@.comp[w]
            &&& self.forest@.depth[w] == old.forest@.depth[w]
            &&& self.forest@.parent_edge[w] == old.forest@.parent_edge[w]
        }
    }

    pub open spec fn edge_kept(&self, old: CuckooGraph, k: int, pending: int) -> bool {
        old.edge_seen(k) ==> {
            &&& self.edge_seen(k)
            &&& k != pending ==> {
                &&& self.edges@[k] == old.edges@[k]
                &&& self.forest@.child[k] == old.forest@.child[k]
                &&& self.forest@.row[k] == old.forest@.row[k]
            }
        }
    }

    /// The graph has grown out of `old` by the first pass: the arena is the
    /// same, and what was visited then is as it was.
    pub open spec fn grown_from(&self, old: CuckooGraph, pending: int) -> bool {
        &&& self.same_frame(old)
        &&& self.roots@ == old.roots@
        &&& forall|w: int| 0 <= w < self.nodes@.len() ==> #[trigger] self.node_kept(old, w)
        &&& forall|k: int| 0 <= k < self.edges@.len() ==> #[trigger] self.edge_kept(old, k, pending)
        &&& old.rows@.len() <= self.rows@.len()
        &&& forall|i: int| 0 <= i < old.rows@.len() ==> #[trigger] self.rows@[i] == old.rows@[i]
    }

    /// Number of edges that the first pass has not visited.
    pub open spec fn unseen_edges(&self) -> nat {
        count_unseen(self.edges@, Mode::FindConstraints, self.edges@.len() as int)
    }
}

/// The arena's consistency does not depend on marks and accumulators.
pub proof fn lemma_wf_kept(old: CuckooGraph, new: CuckooGraph)
    requires
        old.wf(),
        new.same_arena(old),
        forall|w: int|
            0 <= w < new.nodes@.len() ==> (#[trigger] new.nodes@[w]).accumulator.v@.len()
                == new.r_size,
    ensures
        new.wf(),
{
    assert forall|i: int| 0 <= i < new.l_size implies #[trigger] new.slot_ok(i) by {
        assert(old.slot_ok(i));
        if new.slots@[i] is Some {
            let a = new.slots@[i]->0;
            let _ = new.nodes@[a as int];
        }
    }
    assert forall|a: int| 0 <= a < new.nodes@.len() implies #[trigger] new.node_wf(a) by {
        assert(old.node_wf(a));
        let _ = new.nodes@[a];
        assert forall|d: int| 0 <= d < new.nodes@[a].dirs@.len() implies #[trigger] new.dir_ok(
            a,
            d,
        ) by {
            assert(old.dir_ok(a, d));
            let _ = new.edges@[new.nodes@[a].dirs@[d].edge as int];
        }
    }
    assert forall|k: int| 0 <= k < new.edges@.len() implies #[trigger] new.edge_wf(k) by {
        assert(old.edge_wf(k));
        let e = new.edges@[k];
        let _ = new.nodes@[e.u as int];
        let _ = new.nodes@[e.v as int];
    }
}

/// A node stays closed while visited edges stay visited.
pub proof fn lemma_closed_kept(old: CuckooGraph, new: CuckooGraph, w: int)
    requires
        old.closed(w),
        old.node_wf(w),
        new.nodes@[w].dirs@ == old.nodes@[w].dirs@,
        forall|k: int| 0 <= k < old.edges@.len() && old.edge_seen(k) ==> #[trigger] new.edge_seen(k),
    ensures
        new.closed(w),
{
    assert forall|d: int| 0 <= d < new.nodes@[w].dirs@.len() implies #[trigger] new.edge_seen(
        new.nodes@[w].dirs@[d].edge as int,
    ) by {
        assert(old.dir_ok(w, d));
        assert(old.edge_seen(old.nodes@[w].dirs@[d].edge as int));
    }
}

/// Growth composes.
pub proof fn lemma_grown_trans(a: CuckooGraph, b: CuckooGraph, c: CuckooGraph, pa: int, pb: int)
    requires
        b.grown_from(a, pa),
        c.grown_from(b, pb),
        pb < 0 || pb >= a.edges@.len() || !a.edge_seen(pb) || pb == pa,
    ensures
        c.grown_from(a, pa),
{
    assert forall|w: int| 0 <= w < c.nodes@.len() implies {
        &&& (#[trigger] c.nodes@[w]).id == a.nodes@[w].id
        &&& c.nodes@[w].dirs@ == a.nodes@[w].dirs@
    } by {
        let _ = b.nodes@[w];
    }
    assert forall|k: int| 0 <= k < c.edges@.len() implies {
        &&& (#[trigger] c.edges@[k]).u == a.edges@[k].u
        &&& c.edges@[k].v == a.edges@[k].v
        &&& c.edges@[k].point == a.edges@[k].point
        &&& c.edges@[k].pu@ == a.edges@[k].pu@
        &&& c.edges@[k].pv@ == a.edges@[k].pv@
    } by {
        let _ = b.edges@[k];
    }
    assert forall|w: int| 0 <= w < c.nodes@.len() implies #[trigger] c.node_kept(a, w) by {
        assert(b.node_kept(a, w));
        assert(c.node_kept(b, w));
    }
    assert forall|k: int| 0 <= k < c.edges@.len() implies #[trigger] c.edge_kept(a, k, pa) by {
        assert(b.edge_kept(a, k, pa));
        assert(c.edge_kept(b, k, pb));
    }
    assert forall|i: int| 0 <= i < a.rows@.len() implies #[trigger] c.rows@[i] == a.rows@[i] by {
        assert(b.rows@[i] == a.rows@[i]);
    }
}

/// Recorded paths and cycles stay valid while the arena stays, visited
/// nodes keep their accumulators, and settled edges stay settled.
pub proof fn lemma_paths_kept(old: CuckooGraph, new: CuckooGraph, p_old: int, p_new: int)
    requires
        old.shaped(),
        new.same_frame(old),
        forall|w: int| 0 <= w < old.nodes@.len() ==> #[trigger] old.path_ok(w, p_old),
        forall|i: int| 0 <= i < old.rows@.len() ==> #[trigger] old.cycle_ok(i, p_old),
        forall|w: int|
            0 <= w < old.nodes@.len() && old.node_seen(w) ==> {
                &&& #[trigger] new.node_seen(w)
                &&& new.acc(w) == old.acc(w)
                &&& new.forest@.path[w] == old.forest@.path[w]
                &&& new.forest@.comp[w] == old.forest@.comp[w]
            },
        forall|k: int|
            0 <= k < old.edges@.len() && old.tree_edge(k, p_old) ==> #[trigger] new.tree_edge(
                k,
                p_new,
            ),
        forall|k: int|
            0 <= k < old.edges@.len() && old.edge_seen(k) && old.edges@[k].back_edge ==> {
                &&& #[trigger] new.edge_seen(k)
                &&& new.edges@[k].back_edge
                &&& new.forest@.row[k] == old.forest@.row[k]
            },
        old.rows@.len() <= new.rows@.len(),
        forall|i: int|
            0 <= i < old.rows@.len() ==> {
                &&& #[trigger] new.rows@[i] == old.rows@[i]
                &&& new.forest@.cycle[i] == old.forest@.cycle[i]
                &&& new.forest@.owner[i] == old.forest@.owner[i]
            },
    ensures
        new.lbits() == old.lbits(),
        new.inc() == old.inc(),
        forall|w: int|
            0 <= w < old.nodes@.len() && old.node_seen(w) ==> #[trigger] new.path_ok(w, p_new),
        forall|i: int| 0 <= i < old.rows@.len() ==> #[trigger] new.cycle_ok(i, p_new),
{
    assert(new.lbits() =~= old.lbits()) by {
        assert forall|k: int| 0 <= k < old.edges@.len() implies new.label(k) == old.label(k) by {
            let _ = new.edges@[k];
        }
    }
    assert(new.inc() =~= old.inc()) by {
        assert forall|k: int| 0 <= k < old.edges@.len() implies new.inc()[k] =~= old.inc()[k] by {
            let _ = new.edges@[k];
        }
    }
    assert forall|w: int| 0 <= w < old.nodes@.len() && old.node_seen(w) implies #[trigger] new.path_ok(
        w,
        p_new,
    ) by {
        assert(old.path_ok(w, p_old));
        assert(new.node_seen(w));
        let path = old.forest@.path[w];
        assert forall|k: int| 0 <= k < new.edges@.len() && #[trigger] path[k] implies new.tree_edge(
            k,
            p_new,
        ) by {
            assert(old.tree_edge(k, p_old));
        }
    }
    assert forall|i: int| 0 <= i < old.rows@.len() implies #[trigger] new.cycle_ok(i, p_new) by {
        assert(old.cycle_ok(i, p_old));
        assert(new.rows@[i] == old.rows@[i]);
        let cyc = old.forest@.cycle[i];
        let k = old.forest@.owner[i];
        assert(new.edge_seen(k));
        assert forall|j: int|
            0 <= j < new.edges@.len() && j != k && #[trigger] cyc[j] implies new.tree_edge(j, p_new) by {
            assert(old.tree_edge(j, p_old));
        }
    }
}

/// Marking an unvisited edge keeps the invariant, with that edge pending.
pub proof fn lemma_mark_edge(old: CuckooGraph, new: CuckooGraph, k: int, root: int)
    requires
        old.forest_ok(root, -1),
        0 <= k < old.edges@.len(),
        !old.edge_seen(k),
        new.same_frame(old),
        new.roots@ == old.roots@,
        new.forest@ == old.forest@,
        new.rows@ == old.rows@,
        new.nodes@ == old.nodes@,
        forall|j: int| 0 <= j < old.edges@.len() && j != k ==> new.edges@[j] == old.edges@[j],
        new.edges@[k].visit_status == VisitStatus::VisitedOnce,
        new.edges@[k].back_edge == old.edges@[k].back_edge,
    ensures
        new.forest_ok(root, k),
        new.grown_from(old, -1),
{
    assert forall|w: int| 0 <= w < new.nodes@.len() implies (
    #[trigger] new.nodes@[w]).accumulator.v@.len() == new.r_size by {
        assert(old.node_wf(w));
    }
    lemma_wf_kept(old, new);
    assert(old.edge_ok(k, -1));
    assert forall|w: int| 0 <= w < new.nodes@.len() implies #[trigger] new.node_ok(w, k) by {
        assert(old.node_ok(w, -1));
    }
    assert forall|j: int| 0 <= j < new.edges@.len() implies #[trigger] new.edge_ok(j, k) by {
        assert(old.edge_ok(j, -1));
    }
    assert forall|j: int| 0 <= j < old.edges@.len() && old.edge_seen(j) implies #[trigger] new.edge_seen(
        j,
    ) by {
        if j != k {
            assert(new.edges@[j] == old.edges@[j]);
        }
    }
    assert forall|w: int| 0 <= w < new.nodes@.len() implies #[trigger] new.comp_closed(w, root) by {
        assert(old.comp_closed(w, root));
        assert(old.node_wf(w));
        if old.closed(w) {
            lemma_closed_kept(old, new, w);
        }
    }
    assert forall|w: int| 0 <= w < new.nodes@.len() implies #[trigger] new.node_kept(old, w) by {}
    assert forall|j: int| 0 <= j < new.edges@.len() implies #[trigger] new.edge_kept(old, j, -1) by {}
    assert forall|j: int|
        0 <= j < old.edges@.len() && old.tree_edge(j, -1) implies #[trigger] new.tree_edge(j, k) by {}
    assert forall|j: int|
        0 <= j < old.edges@.len() && old.edge_seen(j) && old.edges@[j].back_edge implies {
        &&& #[trigger] new.edge_seen(j)
        &&& new.edges@[j].back_edge
        &&& new.forest@.row[j] == old.forest@.row[j]
    } by {}
    lemma_paths_kept(old, new, -1, k);
    assert forall|w: int| 0 <= w < new.nodes@.len() implies #[trigger] new.path_ok(w, k) by {}
}

/// Entering an unvisited node, as a root or over the pending edge, keeps the
/// invariant and settles the pending edge as a tree edge.
pub proof fn lemma_enter_node(
    old: CuckooGraph,
    new: CuckooGraph,
    node: int,
    root: int,
    came: int,
    total: Parts,
)
    requires
        old.forest_ok(root, came),
        0 <= node < old.nodes@.len(),
        0 <= root < old.nodes@.len(),
        !old.node_seen(node),
        total.0.len() == old.r_size,
        came < 0 ==> node == root && total == parts_zero(old.r_size as nat),
        came >= 0 ==> {
            let p = old.other_end(came, node);
            &&& came < old.edges@.len()
            &&& old.edge_seen(came)
            &&& !old.edges@[came].back_edge
            &&& (old.edges@[came].u == node || old.edges@[came].v == node)
            &&& old.node_seen(p)
            &&& old.forest@.comp[p] == root
            &&& total == parts_add(old.acc(p), old.label(came))
        },
        new.same_frame(old),
        new.roots@ == old.roots@,
        new.rows@ == old.rows@,
        new.edges@ == old.edges@,
        forall|w: int| 0 <= w < old.nodes@.len() && w != node ==> new.nodes@[w] == old.nodes@[w],
        new.nodes@[node].visit_status == VisitStatus::VisitedOnce,
        new.nodes@[node].accumulator@ == total,
        new.forest@ == (Forest {
            comp: old.forest@.comp.update(node, root),
            depth: old.forest@.depth.update(
                node,
                if came < 0 {
                    0nat
                } else {
                    old.forest@.depth[old.other_end(came, node)] + 1
                },
            ),
            parent_edge: old.forest@.parent_edge.update(node, came),
            child: if came < 0 {
                old.forest@.child
            } else {
                old.forest@.child.update(came, node)
            },
            row: old.forest@.row,
            path: old.forest@.path.update(node, old.path_to(node, came)),
            cycle: old.forest@.cycle,
            owner: old.forest@.owner,
        }),
    ensures
        new.forest_ok(root, -1),
        new.grown_from(old, came),
        new.node_seen(node),
        new.forest@.comp[node] == root,
        new.forest@.parent_edge[node] == came,
        new.acc(node) == total,
{
    assert forall|w: int| 0 <= w < new.nodes@.len() implies (
    #[trigger] new.nodes@[w]).accumulator.v@.len() == new.r_size by {
        if w != node {
            assert(old.node_wf(w));
        }
    }
    lemma_wf_kept(old, new);
    assert forall|w: int| 0 <= w < new.nodes@.len() implies #[trigger] new.node_ok(w, -1) by {
        if w != node {
            assert(old.node_ok(w, came));
        }
    }
    assert forall|j: int| 0 <= j < new.edges@.len() implies #[trigger] new.edge_ok(j, -1) by {
        assert(old.edge_ok(j, came));
        assert(old.edge_wf(j));
        if old.edge_seen(j) {
            if j == came {
                assert(new.tree_ok(j));
            } else if old.edges@[j].back_edge {
                assert(old.back_ok(j));
                assert(new.back_ok(j));
            } else {
                assert(old.tree_ok(j));
                assert(new.tree_ok(j));
            }
        }
    }
    assert forall|j: int| 0 <= j < old.edges@.len() && old.edge_seen(j) implies #[trigger] new.edge_seen(
        j,
    ) by {}
    assert forall|w: int| 0 <= w < new.nodes@.len() implies #[trigger] new.comp_closed(w, root) by {
        if w != node {
            assert(old.comp_closed(w, root));
            assert(old.node_wf(w));
            if old.closed(w) {
                lemma_closed_kept(old, new, w);
            }
        }
    }
    assert forall|w: int| 0 <= w < new.nodes@.len() implies #[trigger] new.node_kept(old, w) by {}
    assert forall|j: int| 0 <= j < new.edges@.len() implies #[trigger] new.edge_kept(old, j, came) by {}
    assert forall|j: int|
        0 <= j < old.edges@.len() && old.tree_edge(j, came) implies #[trigger] new.tree_edge(j, -1) by {}
    assert forall|w: int| 0 <= w < old.nodes@.len() && old.node_seen(w) implies {
        &&& #[trigger] new.node_seen(w)
        &&& new.acc(w) == old.acc(w)
        &&& new.forest@.path[w] == old.forest@.path[w]
        &&& new.forest@.comp[w] == old.forest@.comp[w]
    } by {}
    lemma_paths_kept(old, new, came, -1);
    let e = old.edges@.len() as int;
    let path = old.path_to(node, came);
    assert(new.path_ok(node, -1)) by {
        assert(new.forest@.path[node] == path);
        if came < 0 {
            assert forall|c: int| 0 <= c < new.r_size implies #[trigger] new.acc(node).0[c] == colsum(
                new.lbits(),
                path,
                c,
                e,
            ) by {
                lemma_colsum_zero(new.lbits(), path, c, e);
            }
            assert forall|z: int| 0 <= z < new.nodes@.len() implies #[trigger] colsum(
                new.inc(),
                path,
                z,
                e,
            ) == ((z == new.forest@.comp[node]) != (z == node)) by {
                lemma_colsum_zero(new.inc(), path, z, e);
            }
        } else {
            let p = old.other_end(came, node);
            assert(old.edge_wf(came));
            assert(old.path_ok(p, came));
            let before = old.forest@.path[p];
            let one = old.only(came);
            assert forall|k: int| 0 <= k < e && #[trigger] path[k] implies new.tree_edge(k, -1) by {
                if k != came {
                    assert(before[k]);
                    assert(old.tree_edge(k, came));
                }
            }
            assert forall|c: int| 0 <= c < new.r_size implies #[trigger] new.acc(node).0[c] == colsum(
                new.lbits(),
                path,
                c,
                e,
            ) by {
                lemma_colsum_xor(old.lbits(), before, one, path, c, e);
                lemma_colsum_unit(old.lbits(), one, came, c, e);
                assert(old.acc(p).0[c] == colsum(old.lbits(), before, c, e));
                assert(old.node_wf(p));
            }
            assert forall|z: int| 0 <= z < new.nodes@.len() implies #[trigger] colsum(
                new.inc(),
                path,
                z,
                e,
            ) == ((z == new.forest@.comp[node]) != (z == node)) by {
                lemma_colsum_xor(old.inc(), before, one, path, z, e);
                lemma_colsum_unit(old.inc(), one, came, z, e);
                assert(colsum(old.inc(), before, z, e) == ((z == old.forest@.comp[p]) != (z == p)));
            }
        }
    }
    assert forall|w: int| 0 <= w < new.nodes@.len() implies #[trigger] new.path_ok(w, -1) by {
        if w != node && !old.node_seen(w) {
            assert(!new.node_seen(w));
        }
    }
}

/// Settling the pending edge as a back edge, with its row appended, keeps
/// the invariant.
pub proof fn lemma_close_back_edge(
    old: CuckooGraph,
    new: CuckooGraph,
    k: int,
    root: int,
    cur: int,
    row: Parts,
)
    requires
        old.forest_ok(root, k),
        0 <= k < old.edges@.len(),
        old.edge_seen(k),
        !old.edges@[k].back_edge,
        0 <= cur < old.nodes@.len(),
        old.edges@[k].u == cur || old.edges@[k].v == cur,
        old.node_seen(cur),
        old.node_seen(old.other_end(k, cur)),
        old.forest@.comp[cur] == old.forest@.comp[old.other_end(k, cur)],
        row == parts_add(parts_add(old.acc(cur), old.label(k)), old.acc(old.other_end(k, cur))),
        new.same_frame(old),
        new.roots@ == old.roots@,
        new.nodes@ == old.nodes@,
        forall|j: int| 0 <= j < old.edges@.len() && j != k ==> new.edges@[j] == old.edges@[j],
        new.edges@[k].back_edge,
        new.edges@[k].visit_status == old.edges@[k].visit_status,
        new.rows@ == old.rows@.push(row),
        new.forest@ == (Forest {
            row: old.forest@.row.update(k, old.rows@.len() as int),
            cycle: old.forest@.cycle.push(old.cycle_through(k, cur)),
            owner: old.forest@.owner.push(k),
            ..old.forest@
        }),
    ensures
        new.forest_ok(root, -1),
        new.grown_from(old, k),
{
    assert forall|w: int| 0 <= w < new.nodes@.len() implies (
    #[trigger] new.nodes@[w]).accumulator.v@.len() == new.r_size by {
        assert(old.node_wf(w));
    }
    lemma_wf_kept(old, new);
    let to = old.other_end(k, cur);
    assert(old.edge_wf(k));
    assert(old.node_wf(cur));
    assert(old.node_wf(to));
    lemma_parts_shuffle(old.acc(cur), old.label(k), old.acc(to));
    assert forall|w: int| 0 <= w < new.nodes@.len() implies #[trigger] new.node_ok(w, -1) by {
        assert(old.node_ok(w, k));
    }
    assert forall|j: int| 0 <= j < new.edges@.len() implies #[trigger] new.edge_ok(j, -1) by {
        assert(old.edge_ok(j, k));
        if old.edge_seen(j) {
            if j == k {
                assert(new.back_ok(j));
            } else if old.edges@[j].back_edge {
                assert(old.back_ok(j));
                assert(new.back_ok(j));
            } else {
                assert(old.tree_ok(j));
                assert(new.tree_ok(j));
            }
        }
    }
    assert forall|j: int| 0 <= j < old.edges@.len() && old.edge_seen(j) implies #[trigger] new.edge_seen(
        j,
    ) by {
        if j != k {
            assert(new.edges@[j] == old.edges@[j]);
        }
    }
    assert forall|w: int| 0 <= w < new.nodes@.len() implies #[trigger] new.comp_closed(w, root) by {
        assert(old.comp_closed(w, root));
        assert(old.node_wf(w));
        if old.closed(w) {
            lemma_closed_kept(old, new, w);
        }
    }
    assert forall|i: int| 0 <= i < new.rows@.len() implies (#[trigger] new.rows@[i]).0.len()
        == new.r_size by {
        if i < old.rows@.len() {
            assert(old.rows@[i] == new.rows@[i]);
        }
    }
    assert forall|w: int| 0 <= w < new.nodes@.len() implies #[trigger] new.node_kept(old, w) by {}
    assert forall|j: int| 0 <= j < new.edges@.len() implies #[trigger] new.edge_kept(old, j, k) by {}
    assert forall|j: int|
        0 <= j < old.edges@.len() && old.tree_edge(j, k) implies #[trigger] new.tree_edge(j, -1) by {}
    assert forall|j: int|
        0 <= j < old.edges@.len() && old.edge_seen(j) && old.edges@[j].back_edge implies {
        &&& #[trigger] new.edge_seen(j)
        &&& new.edges@[j].back_edge
        &&& new.forest@.row[j] == old.forest@.row[j]
    } by {
        assert(old.edge_ok(j, k));
    }
    lemma_paths_kept(old, new, k, -1);
    assert forall|w: int| 0 <= w < new.nodes@.len() implies #[trigger] new.path_ok(w, -1) by {}
    let e = old.edges@.len() as int;
    let fresh = old.rows@.len() as int;
    let cyc = old.cycle_through(k, cur);
    assert(new.cycle_ok(fresh, -1)) by {
        assert(old.path_ok(cur, k));
        assert(old.path_ok(to, k));
        let a = old.forest@.path[cur];
        let b = old.forest@.path[to];
        let ab = Seq::new(old.edges@.len(), |j: int| a[j] != b[j]);
        let one = old.only(k);
        assert(new.forest@.cycle[fresh] == cyc);
        assert(!a[k] && !b[k]) by {
            if a[k] {
                assert(old.tree_edge(k, k));
            }
            if b[k] {
                assert(old.tree_edge(k, k));
            }
        }
        assert forall|j: int| 0 <= j < e && j != k && #[trigger] cyc[j] implies new.tree_edge(j, -1) by {
            if a[j] {
                assert(old.tree_edge(j, k));
            } else {
                assert(b[j]);
                assert(old.tree_edge(j, k));
            }
        }
        assert forall|c: int| 0 <= c < new.r_size implies #[trigger] new.rows@[fresh].0[c] == colsum(
            new.lbits(),
            cyc,
            c,
            e,
        ) by {
            lemma_colsum_xor(old.lbits(), a, b, ab, c, e);
            lemma_colsum_xor(old.lbits(), ab, one, cyc, c, e);
            lemma_colsum_unit(old.lbits(), one, k, c, e);
            assert(old.acc(cur).0[c] == colsum(old.lbits(), a, c, e));
            assert(old.acc(to).0[c] == colsum(old.lbits(), b, c, e));
        }
        assert forall|z: int| 0 <= z < new.nodes@.len() implies !#[trigger] colsum(
            new.inc(),
            cyc,
            z,
            e,
        ) by {
            lemma_colsum_xor(old.inc(), a, b, ab, z, e);
            lemma_colsum_xor(old.inc(), ab, one, cyc, z, e);
            lemma_colsum_unit(old.inc(), one, k, z, e);
            assert(colsum(old.inc(), a, z, e) == ((z == old.forest@.comp[cur]) != (z == cur)));
            assert(colsum(old.inc(), b, z, e) == ((z == old.forest@.comp[to]) != (z == to)));
        }
    }
    assert forall|i: int| 0 <= i < new.rows@.len() implies #[trigger] new.cycle_ok(i, -1) by {}
}

/// What the search reports of the node it was sent to.
enum TofcRecRes {
    /// The node was new, and the search has been through everything below it.
    NoProblem,
    /// The node had been visited: the edge that led here closes a cycle. The
    /// accumulator of the node comes back.
    BackEdge(ConstraintParts),
}

impl CuckooGraph {
    /// The selection of edge `k` alone.
    pub open spec fn only(&self, k: int) -> Seq<bool> {
        Seq::new(self.edges@.len(), |j: int| j == k)
    }

    /// The path of a node entered over edge `came`: the path of the node at
    /// the other end, and that edge. A root has the empty path.
    pub open spec fn path_to(&self, node: int, came: int) -> Seq<bool> {
        if came < 0 {
            Seq::new(self.edges@.len(), |j: int| false)
        } else {
            let before = self.forest@.path[self.other_end(came, node)];
            Seq::new(self.edges@.len(), |j: int| before[j] != (j == came))
        }
    }

    /// The cycle that back edge `k` closes: the edge itself and the paths
    /// of its two ends, where they differ.
    pub open spec fn cycle_through(&self, k: int, cur: int) -> Seq<bool> {
        let a = self.forest@.path[cur];
        let b = self.forest@.path[self.other_end(k, cur)];
        Seq::new(self.edges@.len(), |j: int| (a[j] != b[j]) != (j == k))
    }

    /// The state in which [`dfs_tofc_rec`] may be sent to `node`.
    pub open spec fn may_search(&self, node: int, root: int, came: int, total: Parts) -> bool {
        &&& self.forest_ok(root, came)
        &&& self.no_twice()
        &&& 0 <= node < self.nodes@.len()
        &&& 0 <= root < self.nodes@.len()
        &&& total.0.len() == self.r_size
        &&& came < 0 ==> node == root && total == parts_zero(self.r_size as nat) && !self.node_seen(node)
        &&& came >= 0 ==> {
            let p = self.other_end(came, node);
            &&& came < self.edges@.len()
            &&& self.edge_seen(came)
            &&& !self.edges@[came].back_edge
            &&& (self.edges@[came].u == node || self.edges@[came].v == node)
            &&& self.node_seen(p)
            &&& self.forest@.comp[p] == root
            &&& total == parts_add(self.acc(p), self.label(came))
        }
    }

    /// Every node that was visited since `old` lies in the tree of `root` and
    /// is closed.
    pub open spec fn fresh_closed(&self, old: CuckooGraph, w: int, root: int) -> bool {
        self.node_seen(w) && !old.node_seen(w) ==> self.closed(w) && self.forest@.comp[w] == root
    }
}

/// Searches from `node`, which was reached with the accumulated constraint
/// `total`. Rows for the back edges found are appended to `result`.
fn dfs_tofc_rec(
    g: &mut CuckooGraph,
    node: usize,
    total: ConstraintParts,
    k3: u64,
    r_size: usize,
    result: &mut Vec<(Vec<bool>, F128b)>,
    Ghost(root): Ghost<int>,
    Ghost(came): Ghost<int>,
) -> (res: TofcRecRes)
    requires
        old(g).may_search(node as int, root, came, total@),
        k3 == old(g).k3@,
        r_size == old(g).r_size,
        system_of(old(result)@) == old(g).rows@,
    ensures
        final(g).grown_from(*old(g), came),
        final(g).no_twice(),
        system_of(final(result)@) == final(g).rows@,
        final(g).rows@.len() + final(g).unseen_edges() <= old(g).rows@.len() + old(g).unseen_edges(),
        match res {
            TofcRecRes::BackEdge(cp) => {
                &&& old(g).node_seen(node as int)
                &&& *final(g) == *old(g)
                &&& cp@ == old(g).acc(node as int)
            },
            TofcRecRes::NoProblem => {
                &&& !old(g).node_seen(node as int)
                &&& final(g).forest_ok(root, -1)
                &&& final(g).node_seen(node as int)
                &&& final(g).forest@.parent_edge[node as int] == came
                &&& forall|w: int|
                    0 <= w < final(g).nodes@.len() ==> #[trigger] final(g).fresh_closed(*old(g), w, root)
            },
        },
    decreases old(g).unseen_edges(),
{
    let ghost entry = *g;
    if g.nodes[node].is_visited(Mode::FindConstraints) {
        let cp = g.nodes[node].accumulator.duplicate();
        proof {
            assert forall|w: int| 0 <= w < g.nodes@.len() implies #[trigger] g.node_kept(entry, w) by {}
            assert forall|k: int| 0 <= k < g.edges@.len() implies #[trigger] g.edge_kept(
                entry,
                k,
                came,
            ) by {}
        }
        return TofcRecRes::BackEdge(cp);
    }
    g.nodes[node].visit_status = VisitStatus::VisitedOnce;
    g.nodes[node].accumulator = total.duplicate();
    proof {
        let f = entry.forest@;
        g.forest = Ghost(
            Forest {
                comp: f.comp.update(node as int, root),
                depth: f.depth.update(
                    node as int,
                    if came < 0 {
                        0nat
                    } else {
                        f.depth[entry.other_end(came, node as int)] + 1
                    },
                ),
                parent_edge: f.parent_edge.update(node as int, came),
                child: if came < 0 {
                    f.child
                } else {
                    f.child.update(came, node as int)
                },
                row: f.row,
                path: f.path.update(node as int, entry.path_to(node as int, came)),
                cycle: f.cycle,
                owner: f.owner,
            },
        );
        assert forall|w: int| 0 <= w < g.nodes@.len() implies {
            &&& (#[trigger] g.nodes@[w]).id == entry.nodes@[w].id
            &&& g.nodes@[w].dirs@ == entry.nodes@[w].dirs@
        } by {}
        lemma_enter_node(entry, *g, node as int, root, came, total@);
    }
    let n_dirs = g.nodes[node].dirs.len();
    let mut d: usize = 0;
    while d < n_dirs
        invariant
            d <= n_dirs,
            n_dirs == g.nodes@[node as int].dirs@.len(),
            0 <= node < g.nodes@.len(),
            0 <= root < g.nodes@.len(),
            k3 == g.k3@,
            r_size == g.r_size,
            g.forest_ok(root, -1),
            g.no_twice(),
            g.grown_from(entry, came),
            !entry.node_seen(node as int),
            g.node_seen(node as int),
            g.acc(node as int) == total@,
            total@.0.len() == r_size,
            g.forest@.comp[node as int] == root,
            g.forest@.parent_edge[node as int] == came,
            system_of(result@) == g.rows@,
            g.unseen_edges() <= entry.unseen_edges(),
            entry.unseen_edges() == old(g).unseen_edges(),
            entry.rows@.len() == old(g).rows@.len(),
            g.rows@.len() + g.unseen_edges() <= entry.rows@.len() + entry.unseen_edges(),
            forall|c: int|
                0 <= c < d ==> #[trigger] g.edge_seen(g.nodes@[node as int].dirs@[c].edge as int),
            forall|w: int|
                0 <= w < g.nodes@.len() && w != node ==> #[trigger] g.fresh_closed(entry, w, root),
        decreases n_dirs - d,
    {
        let dir = g.nodes[node].dirs[d];
        let k = dir.edge;
        proof {
            assert(g.node_wf(node as int));
            assert(g.dir_ok(node as int, d as int));
            assert(g.edge_wf(k as int));
            assert(g.edge_ok(k as int, -1));
        }
        if !(g.edges[k].is_visited(Mode::FindConstraints) || g.edges[k].back_edge) {
            let ghost g1 = *g;
            let ghost to = dir.to as int;
            proof {
                assert(g1.other_end(k as int, to) == node);
                assert(g1.comp_closed(to, root));
                if g1.node_seen(to) && g1.forest@.comp[to] != root {
                    if g1.edges@[k as int].v == to {
                        assert(g1.edge_seen(
                            g1.nodes@[to].dirs@[g1.edges@[k as int].pv@].edge as int,
                        ));
                    } else {
                        assert(g1.edge_seen(
                            g1.nodes@[to].dirs@[g1.edges@[k as int].pu@].edge as int,
                        ));
                    }
                }
            }
            g.edges[k].visit_status = VisitStatus::VisitedOnce;
            let ghost g2 = *g;
            proof {
                assert forall|j: int| 0 <= j < g2.edges@.len() implies {
                    &&& (#[trigger] g2.edges@[j]).u == g1.edges@[j].u
                    &&& g2.edges@[j].v == g1.edges@[j].v
                    &&& g2.edges@[j].point == g1.edges@[j].point
                    &&& g2.edges@[j].pu@ == g1.edges@[j].pu@
                    &&& g2.edges@[j].pv@ == g1.edges@[j].pv@
                } by {}
                lemma_mark_edge(g1, g2, k as int, root);
                lemma_grown_trans(entry, g1, g2, came, -1);
                assert(g1.edge_kept(entry, k as int, came));
                assert forall|j: int|
                    0 <= j < entry.edges@.len() && (#[trigger] entry.edges@[j]).seen(
                        Mode::FindConstraints,
                    ) implies g2.edges@[j].seen(Mode::FindConstraints) by {
                    assert(g2.edge_kept(entry, j, came));
                }
                lemma_count_unseen_strict(
                    entry.edges@,
                    g2.edges@,
                    Mode::FindConstraints,
                    entry.edges@.len() as int,
                    k as int,
                );
                assert forall|j: int|
                    0 <= j < g1.edges@.len() && (#[trigger] g1.edges@[j]).seen(
                        Mode::FindConstraints,
                    ) implies g2.edges@[j].seen(Mode::FindConstraints) by {
                    assert(g2.edge_kept(g1, j, -1));
                }
                lemma_count_unseen_strict(
                    g1.edges@,
                    g2.edges@,
                    Mode::FindConstraints,
                    g1.edges@.len() as int,
                    k as int,
                );
                assert forall|w: int| 0 <= w < g2.nodes@.len() implies (
                #[trigger] g2.nodes@[w]).visit_status != VisitStatus::VisitedTwice by {
                    let _ = g1.nodes@[w];
                }
                assert forall|j: int| 0 <= j < g2.edges@.len() implies (
                #[trigger] g2.edges@[j]).visit_status != VisitStatus::VisitedTwice by {
                    let _ = g1.edges@[j];
                }
            }
            let x = g.edges[k].point.0;
            let y = g.edges[k].point.1;
            let cp = ConstraintParts::new(r(k3, x, r_size), y);
            let next_total = total.add_other(&cp);
            let res = dfs_tofc_rec(
                g,
                dir.to,
                next_total.duplicate(),
                k3,
                r_size,
                result,
                Ghost(root),
                Ghost(k as int),
            );
            let ghost g3 = *g;
            let ghost was_back = res is BackEdge;
            proof {
                lemma_grown_trans(entry, g2, g3, came, k as int);
            }
            match res {
                TofcRecRes::BackEdge(reached) => {
                    g.edges[k].back_edge = true;
                    proof {
                        assert(g3.node_wf(to));
                    }
                    let row = next_total.add_other(&reached);
                    let ghost row_parts = row@;
                    result.push(row.into());
                    proof {
                        g.rows = Ghost(g3.rows@.push(row_parts));
                        g.forest = Ghost(
                            Forest {
                                row: g3.forest@.row.update(k as int, g3.rows@.len() as int),
                                cycle: g3.forest@.cycle.push(g3.cycle_through(k as int, node as int)),
                                owner: g3.forest@.owner.push(k as int),
                                ..g3.forest@
                            },
                        );
                        assert forall|j: int| 0 <= j < g.edges@.len() implies {
                            &&& (#[trigger] g.edges@[j]).u == g3.edges@[j].u
                            &&& g.edges@[j].v == g3.edges@[j].v
                            &&& g.edges@[j].point == g3.edges@[j].point
                            &&& g.edges@[j].pu@ == g3.edges@[j].pu@
                            &&& g.edges@[j].pv@ == g3.edges@[j].pv@
                        } by {}
                        lemma_close_back_edge(g3, *g, k as int, root, node as int, row_parts);
                        assert forall|j: int|
                            0 <= j < g3.edges@.len() && (#[trigger] g3.edges@[j]).seen(
                                Mode::FindConstraints,
                            ) implies g.edges@[j].seen(Mode::FindConstraints) by {
                            assert(g.edge_kept(g3, j, k as int));
                        }
                        lemma_count_unseen_mono(
                            g3.edges@,
                            g.edges@,
                            Mode::FindConstraints,
                            g3.edges@.len() as int,
                        );
                        lemma_grown_trans(entry, g3, *g, came, k as int);
                        assert(system_of(result@) =~= g.rows@);
                        assert forall|w: int| 0 <= w < g.nodes@.len() implies (
                        #[trigger] g.nodes@[w]).visit_status != VisitStatus::VisitedTwice by {
                            let _ = g3.nodes@[w];
                        }
                        assert forall|j: int| 0 <= j < g.edges@.len() implies (
                        #[trigger] g.edges@[j]).visit_status != VisitStatus::VisitedTwice by {
                            let _ = g3.edges@[j];
                        }
                    }
                },
                TofcRecRes::NoProblem => {},
            }
            proof {
                assert forall|j: int|
                    0 <= j < entry.edges@.len() && (#[trigger] entry.edges@[j]).seen(
                        Mode::FindConstraints,
                    ) implies g.edges@[j].seen(Mode::FindConstraints) by {
                    assert(g.edge_kept(entry, j, came));
                }
                lemma_count_unseen_mono(
                    entry.edges@,
                    g.edges@,
                    Mode::FindConstraints,
                    entry.edges@.len() as int,
                );
                lemma_grown_trans(g1, g2, g3, -1, k as int);
                if was_back {
                    lemma_grown_trans(g1, g3, *g, -1, k as int);
                }
                assert(g.grown_from(g1, -1));
                assert forall|j: int|
                    0 <= j < g1.edges@.len() && g1.edge_seen(j) implies #[trigger] g.edge_seen(j) by {
                    assert(g.edge_kept(g1, j, -1));
                }
                assert forall|j: int|
                    0 <= j < g3.edges@.len() && g3.edge_seen(j) implies #[trigger] g.edge_seen(j) by {
                    if was_back && j != k {
                        assert(g.edges@[j] == g3.edges@[j]);
                    }
                }
                assert forall|w: int| 0 <= w < g.nodes@.len() && w != node implies #[trigger] g.fresh_closed(
                    entry,
                    w,
                    root,
                ) by {
                    assert(g1.fresh_closed(entry, w, root));
                    assert(g.node_kept(g1, w));
                    assert(g1.node_wf(w));
                    assert(g3.node_wf(w));
                    if g1.node_seen(w) {
                        if !entry.node_seen(w) {
                            lemma_closed_kept(g1, *g, w);
                        }
                    } else if !was_back {
                        assert(g3.fresh_closed(g2, w, root));
                    }
                }
                assert forall|c: int| 0 <= c < d + 1 implies #[trigger] g.edge_seen(
                    g.nodes@[node as int].dirs@[c].edge as int,
                ) by {
                    assert(g1.dir_ok(node as int, c));
                    let j = g1.nodes@[node as int].dirs@[c].edge as int;
                    assert(g.nodes@[node as int].dirs@[c].edge == j);
                    if c < d {
                        assert(g1.edge_seen(g1.nodes@[node as int].dirs@[c].edge as int));
                    } else {
                        assert(g2.edge_seen(k as int));
                        assert(g3.edge_kept(g2, k as int, k as int));
                    }
                }
                assert(g.node_kept(g1, node as int));
            }
        }
        d = d + 1;
    }
    proof {
        assert(g.closed(node as int));
        assert forall|w: int| 0 <= w < g.nodes@.len() implies #[trigger] g.fresh_closed(
            entry,
            w,
            root,
        ) by {}
    }
    TofcRecRes::NoProblem
}

impl CuckooGraph {
    pub open spec fn root_listed(&self, w: int) -> bool {
        self.forest@.parent_edge[w] < 0 ==> self.roots@.contains(w as usize)
    }

    /// The first pass is over: every node and edge has been visited once,
    /// every edge is a tree edge or a back edge with its row, and the nodes
    /// without a parent are the listed roots.
    pub open spec fn root_ok(&self, i: int) -> bool {
        &&& self.roots@[i] < self.nodes@.len()
        &&& self.node_seen(self.roots@[i] as int)
        &&& self.forest@.parent_edge[self.roots@[i] as int] < 0
    }

    pub open spec fn searched(&self) -> bool {
        &&& self.forest_ok(-1, -1)
        &&& forall|w: int| 0 <= w < self.nodes@.len() ==> #[trigger] self.node_seen(w)
        &&& forall|i: int| 0 <= i < self.roots@.len() ==> #[trigger] self.root_ok(i)
        &&& forall|w: int| 0 <= w < self.nodes@.len() ==> #[trigger] self.root_listed(w)
    }
}

/// After the first pass every edge has been visited.
pub proof fn lemma_searched_edges_seen(g: CuckooGraph, k: int)
    requires
        g.searched(),
        0 <= k < g.edges@.len(),
    ensures
        g.edge_seen(k),
{
    let u = g.edges@[k].u as int;
    assert(g.edge_wf(k));
    assert(g.node_seen(u));
    assert(g.node_ok(u, -1));
    assert(g.comp_closed(u, -1));
    assert(g.closed(u));
    let d = g.edges@[k].pu@;
    assert(g.edge_seen(g.nodes@[u].dirs@[d].edge as int));
    assert(g.nodes@[u].dirs@[d].edge == k as usize);
    assert(g.edges.len() == g.edges@.len());
    assert((k as usize) as int == k);
}

/// Runs the first pass: a depth-first search from every node not yet
/// reached. Returns one constraint per back edge, in the order found.
pub fn dfs_to_find_constraints(
    graph: &mut CuckooGraph,
    keys: PaxosAux,
    params: PaxosSolverParams,
) -> (constraints: Vec<(Vec<bool>, F128b)>)
    requires
        old(graph).wf(),
        old(graph).fresh(),
        params.right() == old(graph).r_size,
    ensures
        final(graph).searched(),
        final(graph).no_twice(),
        final(graph).same_arena(*old(graph)),
        final(graph).k3@ == keys.2,
        system_of(constraints@) == final(graph).rows@,
        constraints@.len() <= final(graph).edges@.len(),
{
    let k3 = keys.2;
    let r_size = params.r_size();
    let mut constraints: Vec<(Vec<bool>, F128b)> = Vec::new();
    let ghost entry = *graph;
    let n = graph.nodes.len();
    proof {
        graph.k3 = Ghost(k3);
        graph.rows = Ghost(Seq::empty());
        graph.forest = Ghost(
            Forest {
                child: Seq::new(entry.edges@.len(), |i: int| -1),
                row: Seq::new(entry.edges@.len(), |i: int| -1),
                parent_edge: Seq::new(entry.nodes@.len(), |i: int| -1),
                comp: Seq::new(entry.nodes@.len(), |i: int| -1),
                depth: Seq::new(entry.nodes@.len(), |i: int| 0nat),
                path: Seq::new(entry.nodes@.len(), |i: int| Seq::empty()),
                cycle: Seq::empty(),
                owner: Seq::empty(),
            },
        );
        assert forall|w: int| 0 <= w < graph.nodes@.len() implies (
        #[trigger] graph.nodes@[w]).accumulator.v@.len() == graph.r_size by {
            assert(entry.node_wf(w));
        }
        lemma_wf_kept(entry, *graph);
        assert forall|w: int| 0 <= w < graph.nodes@.len() implies #[trigger] graph.node_ok(w, -1) by {
            assert(entry.node_fresh(w));
        }
        assert forall|k: int| 0 <= k < graph.edges@.len() implies #[trigger] graph.edge_ok(k, -1) by {
            assert(entry.edge_fresh(k));
        }
        assert forall|w: int| 0 <= w < graph.nodes@.len() implies #[trigger] graph.comp_closed(
            w,
            -1,
        ) by {
            assert(entry.node_fresh(w));
        }
        assert forall|w: int| 0 <= w < graph.nodes@.len() implies (
        #[trigger] graph.nodes@[w]).visit_status != VisitStatus::VisitedTwice by {
            assert(entry.node_fresh(w));
        }
        assert forall|k: int| 0 <= k < graph.edges@.len() implies (
        #[trigger] graph.edges@[k]).visit_status != VisitStatus::VisitedTwice by {
            assert(entry.edge_fresh(k));
        }
        assert forall|w: int| 0 <= w < graph.nodes@.len() implies #[trigger] graph.path_ok(w, -1) by {
            assert(entry.node_fresh(w));
        }
        assert forall|w: int| 0 <= w < graph.nodes@.len() implies #[trigger] graph.root_listed(w)
            || !graph.node_seen(w) by {
            assert(entry.node_fresh(w));
        }
        assert(system_of(constraints@) =~= graph.rows@);
        lemma_count_unseen_le(graph.edges@, Mode::FindConstraints, graph.edges@.len() as int);
    }
    let mut a: usize = 0;
    while a < n
        invariant
            a <= n,
            n == graph.nodes@.len(),
            k3 == graph.k3@,
            keys.2 == k3,
            r_size == graph.r_size,
            graph.forest_ok(-1, -1),
            graph.no_twice(),
            graph.same_arena(entry),
            system_of(constraints@) == graph.rows@,
            graph.rows@.len() + graph.unseen_edges() <= graph.edges@.len(),
            forall|w: int| 0 <= w < a ==> #[trigger] graph.node_seen(w),
            forall|i: int| 0 <= i < graph.roots@.len() ==> #[trigger] graph.root_ok(i),
            forall|w: int|
                0 <= w < n ==> #[trigger] graph.root_listed(w) || !graph.node_seen(w),
        decreases n - a,
    {
        if !graph.nodes[a].is_visited(Mode::FindConstraints) {
            let ghost g0 = *graph;
            graph.roots.push(a);
            let ghost g1 = *graph;
            let total = ConstraintParts::zero(r_size);
            proof {
                assert forall|w: int| 0 <= w < g1.nodes@.len() implies (
                #[trigger] g1.nodes@[w]).accumulator.v@.len() == g1.r_size by {
                    assert(g0.node_wf(w));
                }
                lemma_wf_kept(g0, g1);
                assert forall|w: int| 0 <= w < g1.nodes@.len() implies #[trigger] g1.node_ok(
                    w,
                    -1,
                ) by {
                    assert(g0.node_ok(w, -1));
                }
                assert forall|k: int| 0 <= k < g1.edges@.len() implies #[trigger] g1.edge_ok(
                    k,
                    -1,
                ) by {
                    assert(g0.edge_ok(k, -1));
                    assert(g0.edge_wf(k));
                    if g0.edge_seen(k) {
                        if g0.edges@[k].back_edge {
                            assert(g0.back_ok(k));
                            assert(g1.back_ok(k));
                        } else {
                            assert(g0.tree_ok(k));
                            assert(g1.tree_ok(k));
                        }
                    }
                }
                assert forall|w: int| 0 <= w < g1.nodes@.len() implies #[trigger] g1.comp_closed(
                    w,
                    a as int,
                ) by {
                    assert(g0.comp_closed(w, -1));
                    assert(g0.node_ok(w, -1));
                    assert(g0.node_wf(w));
                    if g0.closed(w) {
                        lemma_closed_kept(g0, g1, w);
                    }
                }
                assert forall|j: int|
                    0 <= j < g0.edges@.len() && g0.tree_edge(j, -1) implies #[trigger] g1.tree_edge(
                    j,
                    -1,
                ) by {}
                assert forall|j: int|
                    0 <= j < g0.edges@.len() && g0.edge_seen(j) && g0.edges@[j].back_edge implies {
                    &&& #[trigger] g1.edge_seen(j)
                    &&& g1.edges@[j].back_edge
                    &&& g1.forest@.row[j] == g0.forest@.row[j]
                } by {}
                lemma_paths_kept(g0, g1, -1, -1);
                assert forall|w: int| 0 <= w < g1.nodes@.len() implies #[trigger] g1.path_ok(w, -1) by {}
                assert forall|i: int| 0 <= i < g1.rows@.len() implies #[trigger] g1.cycle_ok(i, -1) by {}
            }
            dfs_tofc_rec(graph, a, total, k3, r_size, &mut constraints, Ghost(a as int), Ghost(-1));
            proof {
                assert forall|w: int| 0 <= w < graph.nodes@.len() implies {
                    &&& (#[trigger] graph.nodes@[w]).id == entry.nodes@[w].id
                    &&& graph.nodes@[w].dirs@ == entry.nodes@[w].dirs@
                } by {
                    let _ = g1.nodes@[w];
                    let _ = g0.nodes@[w];
                }
                assert forall|k: int| 0 <= k < graph.edges@.len() implies {
                    &&& (#[trigger] graph.edges@[k]).u == entry.edges@[k].u
                    &&& graph.edges@[k].v == entry.edges@[k].v
                    &&& graph.edges@[k].point == entry.edges@[k].point
                    &&& graph.edges@[k].pu@ == entry.edges@[k].pu@
                    &&& graph.edges@[k].pv@ == entry.edges@[k].pv@
                } by {
                    let _ = g1.edges@[k];
                    let _ = g0.edges@[k];
                }
                assert forall|j: int|
                    0 <= j < g1.edges@.len() && g1.edge_seen(j) implies #[trigger] graph.edge_seen(
                    j,
                ) by {
                    assert(graph.edge_kept(g1, j, -1));
                }
                assert forall|w: int| 0 <= w < graph.nodes@.len() implies #[trigger] graph.comp_closed(
                    w,
                    -1,
                ) by {
                    assert(graph.fresh_closed(g1, w, a as int));
                    assert(graph.node_kept(g1, w));
                    assert(g0.comp_closed(w, -1));
                    assert(g0.node_ok(w, -1));
                    assert(g1.node_wf(w));
                    if g1.node_seen(w) {
                        lemma_closed_kept(g0, g1, w);
                        lemma_closed_kept(g1, *graph, w);
                    }
                }
                assert forall|i: int| 0 <= i < graph.roots@.len() implies #[trigger] graph.root_ok(
                    i,
                ) by {
                    if i < g0.roots@.len() {
                        assert(g0.root_ok(i));
                        assert(g1.roots@[i] == g0.roots@[i]);
                        assert(graph.node_kept(g1, g0.roots@[i] as int));
                    } else {
                        assert(g1.roots@[i] == a);
                    }
                }
                assert forall|w: int| 0 <= w < a + 1 implies #[trigger] graph.node_seen(w) by {
                    if w < a {
                        assert(g0.node_seen(w));
                        assert(graph.node_kept(g1, w));
                    }
                }
                assert forall|w: int| 0 <= w < n implies #[trigger] graph.root_listed(w)
                    || !graph.node_seen(w) by {
                    assert(graph.node_kept(g1, w));
                    assert(graph.fresh_closed(g1, w, a as int));
                    assert(graph.node_ok(w, -1));
                    assert(g0.root_listed(w) || !g0.node_seen(w));
                    if g1.node_seen(w) {
                        if g0.forest@.parent_edge[w] < 0 {
                            let i = choose|i: int|
                                0 <= i < g0.roots@.len() && g0.roots@[i] == w as usize;
                            assert(g1.roots@[i] == w as usize);
                        }
                    } else if graph.node_seen(w) {
                        if graph.forest@.parent_edge[w] < 0 {
                            assert(g1.roots@[g0.roots@.len() as int] == a);
                        }
                    }
                }
            }
        }
        a = a + 1;
    }
    proof {
        assert forall|w: int| 0 <= w < graph.nodes@.len() implies #[trigger] graph.root_listed(w) by {
            assert(graph.node_seen(w));
            assert(graph.root_listed(w) || !graph.node_seen(w));
        }
    }
    constraints
}

impl CuckooGraph {
    /// Some edges, at least one, touch every node an even number of times
    /// while the bits of their labels sum to zero.
    pub open spec fn tangled(&self) -> bool {
        exists|sel: Seq<bool>|
            {
                &&& sel.len() == self.edges@.len()
                &&& picks(sel)
                &&& #[trigger] vanishes(self.inc(), sel, self.nodes@.len() as int)
                &&& vanishes(self.lbits(), sel, self.r_size as int)
            }
    }
}

/// If the constraints of the first pass are dependent, the graph is
/// tangled: the cycles behind the dependent constraints sum to edges that
/// show it.
pub proof fn lemma_dependent_rows_tangle(g: CuckooGraph)
    requires
        g.searched(),
        dependent(bits_of(g.rows@), g.r_size as int),
    ensures
        g.tangled(),
{
    let rows = bits_of(g.rows@);
    let n_rows = g.rows@.len() as int;
    let e = g.edges@.len() as int;
    let cycles = g.forest@.cycle;
    let c = choose|c: Seq<bool>|
        c.len() == rows.len() && picks(c) && #[trigger] vanishes(rows, c, g.r_size as int);
    let sel = Seq::new(g.edges@.len(), |k: int| colsum(cycles, c, k, n_rows));
    let none = Seq::new(rows.len(), |i: int| false);
    assert(g.inc().len() == e);
    assert(g.lbits().len() == e);
    assert forall|z: int| 0 <= z < g.nodes@.len() implies !#[trigger] colsum(g.inc(), sel, z, e) by {
        lemma_colsum_composed(g.inc(), cycles, c, z, g.nodes@.len() as int, n_rows);
        let re = recombined(g.inc(), cycles, g.nodes@.len() as int);
        assert forall|i: int| 0 <= i < n_rows implies (c[i] && re[i][z]) == (none[i] && re[i][z]) by {
            assert(g.cycle_ok(i, -1));
            assert(!colsum(g.inc(), cycles[i], z, e));
        }
        lemma_colsum_agree(re, c, re, none, z, z, n_rows);
        lemma_colsum_zero(re, none, z, n_rows);
        assert(sel =~= Seq::new(g.inc().len(), |s: int| colsum(cycles, c, s, n_rows)));
    }
    assert forall|b: int| 0 <= b < g.r_size implies !#[trigger] colsum(g.lbits(), sel, b, e) by {
        lemma_colsum_composed(g.lbits(), cycles, c, b, g.r_size as int, n_rows);
        let re = recombined(g.lbits(), cycles, g.r_size as int);
        assert forall|i: int| 0 <= i < n_rows implies (c[i] && re[i][b]) == (c[i] && rows[i][b]) by {
            assert(g.cycle_ok(i, -1));
            assert(g.rows@[i].0[b] == colsum(g.lbits(), cycles[i], b, e));
        }
        lemma_colsum_agree(re, c, rows, c, b, b, n_rows);
        assert(!colsum(rows, c, b, rows.len() as int));
        assert(sel =~= Seq::new(g.lbits().len(), |s: int| colsum(cycles, c, s, n_rows)));
    }
    let i0 = choose|i: int| 0 <= i < c.len() && c[i];
    assert(g.cycle_ok(i0, -1));
    let k0 = g.forest@.owner[i0];
    assert forall|i: int| 0 <= i < n_rows && i != i0 implies !cycles[i][k0] by {
        assert(g.cycle_ok(i, -1));
        if cycles[i][k0] {
            if k0 != g.forest@.owner[i] {
                assert(g.tree_edge(k0, -1));
            }
        }
    }
    lemma_colsum_single(cycles, c, i0, k0, n_rows);
    assert(sel[k0]);
    assert(vanishes(g.inc(), sel, g.nodes@.len() as int));
    assert(vanishes(g.lbits(), sel, g.r_size as int));
}

/// Among selected tree edges, one whose child is deepest.
pub proof fn lemma_deepest_edge(g: CuckooGraph, sel: Seq<bool>, n: int) -> (best: int)
    requires
        0 <= n <= sel.len(),
        exists|k: int| 0 <= k < n && sel[k],
    ensures
        0 <= best < n,
        sel[best],
        forall|k: int|
            0 <= k < n && sel[k] ==> g.forest@.depth[g.forest@.child[k]] <= g.forest@.depth[g.forest@.child[best]],
    decreases n,
{
    let last = n - 1;
    if exists|k: int| 0 <= k < last && sel[k] {
        let before = lemma_deepest_edge(g, sel, last);
        if sel[last] && g.forest@.depth[g.forest@.child[last]] > g.forest@.depth[g.forest@.child[before]] {
            last
        } else {
            before
        }
    } else {
        last
    }
}

/// Tree edges, at least one, cannot touch every node an even number of
/// times: the deepest child among them is touched once.
pub proof fn lemma_forest_has_no_cycle(g: CuckooGraph, sel: Seq<bool>)
    requires
        g.searched(),
        sel.len() == g.edges@.len(),
        forall|k: int| 0 <= k < sel.len() && #[trigger] sel[k] ==> !g.edges@[k].back_edge,
        vanishes(g.inc(), sel, g.nodes@.len() as int),
    ensures
        !picks(sel),
{
    if picks(sel) {
        let e = g.edges@.len() as int;
        let best = lemma_deepest_edge(g, sel, e);
        lemma_searched_edges_seen(g, best);
        assert(g.edge_ok(best, -1));
        assert(g.tree_ok(best));
        assert(g.edge_wf(best));
        let c = g.forest@.child[best];
        let one = g.only(best);
        assert forall|k: int| 0 <= k < e implies (sel[k] && g.inc()[k][c]) == (one[k] && g.inc()[k][c]) by {
            if k != best && sel[k] && g.inc()[k][c] {
                lemma_searched_edges_seen(g, k);
                assert(g.edge_ok(k, -1));
                assert(g.tree_ok(k));
                assert(g.edge_wf(k));
                assert(g.node_ok(c, -1));
            }
        }
        lemma_colsum_agree(g.inc(), sel, g.inc(), one, c, c, e);
        lemma_colsum_unit(g.inc(), one, best, c, e);
        assert(!colsum(g.inc(), sel, c, g.inc().len() as int));
    }
}

/// If the graph is tangled, the constraints of the first pass are
/// dependent: tangled edges are a sum of recorded cycles, since what is
/// left of them without the cycles of their back edges lies in the forest.
pub proof fn lemma_tangle_dependent_rows(g: CuckooGraph)
    requires
        g.searched(),
        g.tangled(),
    ensures
        dependent(bits_of(g.rows@), g.r_size as int),
{
    let rows = bits_of(g.rows@);
    let n_rows = g.rows@.len() as int;
    let e = g.edges@.len() as int;
    let cycles = g.forest@.cycle;
    let sel = choose|sel: Seq<bool>|
        {
            &&& sel.len() == g.edges@.len()
            &&& picks(sel)
            &&& #[trigger] vanishes(g.inc(), sel, g.nodes@.len() as int)
            &&& vanishes(g.lbits(), sel, g.r_size as int)
        };
    // Every constraint is taken whose back edge is among the tangled edges.
    let c = Seq::new(g.rows@.len(), |i: int| sel[g.forest@.owner[i]]);
    let comp = Seq::new(g.edges@.len(), |k: int| colsum(cycles, c, k, n_rows));
    let rest = Seq::new(g.edges@.len(), |k: int| sel[k] != comp[k]);
    let none = Seq::new(rows.len(), |i: int| false);
    assert(g.inc().len() == e);
    assert(g.lbits().len() == e);
    assert forall|k: int| 0 <= k < e && #[trigger] rest[k] implies !g.edges@[k].back_edge by {
        if g.edges@[k].back_edge {
            lemma_searched_edges_seen(g, k);
            assert(g.edge_ok(k, -1));
            assert(g.back_ok(k));
            let i0 = g.forest@.row[k];
            assert(g.cycle_ok(i0, -1));
            assert forall|i: int| 0 <= i < n_rows && i != i0 implies !cycles[i][k] by {
                assert(g.cycle_ok(i, -1));
                if cycles[i][k] {
                    if k != g.forest@.owner[i] {
                        assert(g.tree_edge(k, -1));
                    }
                }
            }
            lemma_colsum_single(cycles, c, i0, k, n_rows);
        }
    }
    assert forall|z: int| 0 <= z < g.nodes@.len() implies !#[trigger] colsum(g.inc(), rest, z, e) by {
        lemma_colsum_composed(g.inc(), cycles, c, z, g.nodes@.len() as int, n_rows);
        let re = recombined(g.inc(), cycles, g.nodes@.len() as int);
        assert forall|i: int| 0 <= i < n_rows implies (c[i] && re[i][z]) == (none[i] && re[i][z]) by {
            assert(g.cycle_ok(i, -1));
            assert(!colsum(g.inc(), cycles[i], z, e));
        }
        lemma_colsum_agree(re, c, re, none, z, z, n_rows);
        lemma_colsum_zero(re, none, z, n_rows);
        assert(comp =~= Seq::new(g.inc().len(), |s: int| colsum(cycles, c, s, n_rows)));
        lemma_colsum_xor(g.inc(), sel, comp, rest, z, e);
        assert(!colsum(g.inc(), sel, z, g.inc().len() as int));
    }
    assert(vanishes(g.inc(), rest, g.nodes@.len() as int));
    lemma_forest_has_no_cycle(g, rest);
    assert forall|k: int| 0 <= k < e implies sel[k] == comp[k] by {
        if rest[k] {
            assert(picks(rest));
        }
    }
    let k1 = choose|k: int| 0 <= k < sel.len() && sel[k];
    if !picks(c) {
        lemma_colsum_zero(cycles, c, k1, n_rows);
    }
    assert forall|b: int| 0 <= b < g.r_size implies !#[trigger] colsum(rows, c, b, rows.len() as int) by {
        lemma_colsum_composed(g.lbits(), cycles, c, b, g.r_size as int, n_rows);
        let re = recombined(g.lbits(), cycles, g.r_size as int);
        assert forall|i: int| 0 <= i < n_rows implies (c[i] && re[i][b]) == (c[i] && rows[i][b]) by {
            assert(g.cycle_ok(i, -1));
            assert(g.rows@[i].0[b] == colsum(g.lbits(), cycles[i], b, e));
        }
        lemma_colsum_agree(re, c, rows, c, b, b, n_rows);
        assert(comp =~= Seq::new(g.lbits().len(), |s: int| colsum(cycles, c, s, n_rows)));
        lemma_colsum_agree(g.lbits(), comp, g.lbits(), sel, b, b, e);
        assert(!colsum(g.lbits(), sel, b, g.lbits().len() as int));
    }
    assert(vanishes(rows, c, g.r_size as int));
}

} // verus!
