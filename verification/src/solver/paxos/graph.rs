//! The cuckoo graph as an arena: nodes and edges in vectors, joined by indices.
//!
//! Every point gives one edge between the nodes of its two hash cells. A node
//! lists, in order of insertion, the edges that touch it; an edge from a node
//! to itself is listed twice at that node.

use crate::field::{gf_add, F128b};
use crate::solver::gaussian_eliminations::row::{bits_xor, zero_bits};
use vstd::prelude::*;

verus! {

/// How far the two passes over the graph have come at a node or an edge.
#[derive(Clone, Copy, Debug, PartialEq, Eq, Structural)]
pub enum VisitStatus {
    NotVisited,
    /// Reached while collecting constraints.
    VisitedOnce,
    /// Reached while computing the left part.
    VisitedTwice,
}

/// Which pass is asking whether something was visited.
#[derive(Clone, Copy, Debug, PartialEq, Eq, Structural)]
pub enum Mode {
    FindConstraints,
    CalcVecL,
}

/// A bit vector over the right cells together with a field value.
pub struct ConstraintParts {
    pub v: Vec<bool>,
    pub f: F128b,
}

/// A constraint as a mathematical pair.
pub type Parts = (Seq<bool>, F128b);

/// Componentwise sum of two constraints.
pub open spec fn parts_add(a: Parts, b: Parts) -> Parts {
    (bits_xor(a.0, b.0), gf_add(a.1, b.1))
}

/// The zero constraint over `n` right cells.
pub open spec fn parts_zero(n: nat) -> Parts {
    (zero_bits(n), F128b(0))
}

impl View for ConstraintParts {
    type V = Parts;

    open spec fn view(&self) -> Parts {
        (self.v@, self.f)
    }
}

impl ConstraintParts {
    pub fn new(v: Vec<bool>, f: F128b) -> (cp: ConstraintParts)
        ensures
            cp@ == (v@, f),
    {
        ConstraintParts { v, f }
    }

    /// The zero constraint over `r_size` right cells.
    pub fn zero(r_size: usize) -> (cp: ConstraintParts)
        ensures
            cp@ == parts_zero(r_size as nat),
    {
        let mut v: Vec<bool> = Vec::with_capacity(r_size);
        let mut i: usize = 0;
        while i < r_size
            invariant
                i <= r_size,
                v@.len() == i,
                forall|c: int| 0 <= c < i ==> !v@[c],
            decreases r_size - i,
        {
            v.push(false);
            i = i + 1;
        }
        assert(v@ =~= zero_bits(r_size as nat));
        ConstraintParts { v, f: F128b::zero() }
    }

    /// The sum of two constraints; `other` may be the shorter.
    pub fn add_other(&self, other: &ConstraintParts) -> (sum: ConstraintParts)
        requires
            other.v@.len() == self.v@.len(),
        ensures
            sum@ == parts_add(self@, other@),
    {
        let n = self.v.len();
        let mut v: Vec<bool> = Vec::with_capacity(n);
        let mut i: usize = 0;
        while i < n
            invariant
                i <= n,
                n == self.v@.len(),
                n == other.v@.len(),
                v@.len() == i,
                forall|c: int| 0 <= c < i ==> v@[c] == (self.v@[c] != other.v@[c]),
            decreases n - i,
        {
            v.push(self.v[i] != other.v[i]);
            i = i + 1;
        }
        assert(v@ =~= bits_xor(self.v@, other.v@));
        ConstraintParts { v, f: self.f.plus(other.f) }
    }

    /// A copy of this constraint.
    pub fn duplicate(&self) -> (copy: ConstraintParts)
        ensures
            copy@ == self@,
    {
        let n = self.v.len();
        let mut v: Vec<bool> = Vec::with_capacity(n);
        let mut i: usize = 0;
        while i < n
            invariant
                i <= n,
                n == self.v@.len(),
                v@.len() == i,
                forall|c: int| 0 <= c < i ==> v@[c] == self.v@[c],
            decreases n - i,
        {
            v.push(self.v[i]);
            i = i + 1;
        }
        assert(v@ =~= self.v@);
        ConstraintParts { v, f: self.f }
    }

    /// The bit vector and the value.
    pub fn into(self) -> (pair: (Vec<bool>, F128b))
        ensures
            (pair.0@, pair.1) == self@,
    {
        (self.v, self.f)
    }
}

/// An edge of the graph, labelled with the point that gave it.
pub struct Edge {
    /// Index of the node of the first hash cell.
    pub u: usize,
    /// Index of the node of the second hash cell.
    pub v: usize,
    pub point: (F128b, F128b),
    pub visit_status: VisitStatus,
    pub back_edge: bool,
    /// Where the edge stands in the list of `u`.
    pub pu: Ghost<int>,
    /// Where the edge stands in the list of `v`.
    pub pv: Ghost<int>,
}

impl Edge {
    pub open spec fn seen(&self, mode: Mode) -> bool {
        match mode {
            Mode::FindConstraints => self.visit_status != VisitStatus::NotVisited,
            Mode::CalcVecL => self.visit_status == VisitStatus::VisitedTwice,
        }
    }

    /// Whether the given pass has been over this edge.
    pub fn is_visited(&self, mode: Mode) -> (b: bool)
        ensures
            b == self.seen(mode),
    {
        match mode {
            Mode::FindConstraints => self.visit_status != VisitStatus::NotVisited,
            Mode::CalcVecL => self.visit_status == VisitStatus::VisitedTwice,
        }
    }
}

/// One entry of a node's list: an edge and the node at its other end.
#[derive(Clone, Copy, Debug, PartialEq, Eq, Structural)]
pub struct DirectTo {
    pub to: usize,
    pub edge: usize,
}

/// A node of the graph: one left cell that some point hashes to.
pub struct Node {
    /// The left cell.
    pub id: usize,
    pub dirs: Vec<DirectTo>,
    pub visit_status: VisitStatus,
    /// Sum of the labels on the tree path from the root of the component.
    pub accumulator: ConstraintParts,
}

impl Node {
    pub open spec fn seen(&self, mode: Mode) -> bool {
        match mode {
            Mode::FindConstraints => self.visit_status != VisitStatus::NotVisited,
            Mode::CalcVecL => self.visit_status == VisitStatus::VisitedTwice,
        }
    }

    /// Whether the given pass has been at this node.
    pub fn is_visited(&self, mode: Mode) -> (b: bool)
        ensures
            b == self.seen(mode),
    {
        match mode {
            Mode::FindConstraints => self.visit_status != VisitStatus::NotVisited,
            Mode::CalcVecL => self.visit_status == VisitStatus::VisitedTwice,
        }
    }
}

/// What the first pass found out about the graph, kept for the proofs.
pub struct Forest {
    /// For a tree edge, the endpoint further from the root.
    pub child: Seq<int>,
    /// For a back edge, the index of its constraint.
    pub row: Seq<int>,
    /// For a node, the tree edge to its parent, or `-1` at a root.
    pub parent_edge: Seq<int>,
    /// For a node, the root of its tree.
    pub comp: Seq<int>,
    /// For a node, its distance from the root.
    pub depth: Seq<nat>,
    /// For a node, the edges on the tree path from the root to it.
    pub path: Seq<Seq<bool>>,
    /// For a constraint, the edges of the cycle that gave it: the back edge
    /// and the tree paths to its two ends, where they differ.
    pub cycle: Seq<Seq<bool>>,
    /// For a constraint, its back edge.
    pub owner: Seq<int>,
}

/// The cuckoo graph of a set of points.
pub struct CuckooGraph {
    /// Number of left cells.
    pub l_size: usize,
    /// Number of right cells.
    pub r_size: usize,
    /// For each left cell, its node if there is one.
    pub slots: Vec<Option<usize>>,
    pub nodes: Vec<Node>,
    pub edges: Vec<Edge>,
    /// The nodes at which the first pass started a tree.
    pub roots: Vec<usize>,
    pub forest: Ghost<Forest>,
    /// The constraints that the first pass emitted.
    pub rows: Ghost<Seq<Parts>>,
    /// The seed that labelled the edges in the first pass.
    pub k3: Ghost<u64>,
}

impl CuckooGraph {
    pub open spec fn dir_ok(&self, a: int, d: int) -> bool {
        let dir = self.nodes@[a].dirs@[d];
        &&& dir.edge < self.edges@.len()
        &&& dir.to < self.nodes@.len()
        &&& {
            let e = self.edges@[dir.edge as int];
            ||| (e.u == a && e.v == dir.to && e.pu@ == d)
            ||| (e.v == a && e.u == dir.to && e.pv@ == d)
        }
    }

    pub open spec fn node_wf(&self, a: int) -> bool {
        let nd = self.nodes@[a];
        &&& nd.id < self.l_size
        &&& self.slots@[nd.id as int] == Some(a as usize)
        &&& nd.accumulator.v@.len() == self.r_size
        &&& forall|d: int| 0 <= d < nd.dirs@.len() ==> #[trigger] self.dir_ok(a, d)
    }

    pub open spec fn edge_wf(&self, k: int) -> bool {
        let e = self.edges@[k];
        &&& e.u < self.nodes@.len()
        &&& e.v < self.nodes@.len()
        &&& 0 <= e.pu@ < self.nodes@[e.u as int].dirs@.len()
        &&& self.nodes@[e.u as int].dirs@[e.pu@] == (DirectTo { to: e.v, edge: k as usize })
        &&& 0 <= e.pv@ < self.nodes@[e.v as int].dirs@.len()
        &&& self.nodes@[e.v as int].dirs@[e.pv@] == (DirectTo { to: e.u, edge: k as usize })
    }

    pub open spec fn slot_ok(&self, i: int) -> bool {
        self.slots@[i] matches Some(a) ==> a < self.nodes@.len() && self.nodes@[a as int].id == i
    }

    /// The arena is consistent: lists and edges agree, and every left cell has
    /// at most one node.
    pub open spec fn wf(&self) -> bool {
        &&& self.r_size <= 256
        &&& self.slots@.len() == self.l_size
        &&& forall|i: int| 0 <= i < self.l_size ==> #[trigger] self.slot_ok(i)
        &&& forall|a: int| 0 <= a < self.nodes@.len() ==> #[trigger] self.node_wf(a)
        &&& forall|k: int| 0 <= k < self.edges@.len() ==> #[trigger] self.edge_wf(k)
    }

    pub open spec fn node_fresh(&self, a: int) -> bool {
        &&& self.nodes@[a].visit_status == VisitStatus::NotVisited
        &&& self.nodes@[a].accumulator@ == parts_zero(self.r_size as nat)
    }

    pub open spec fn edge_fresh(&self, k: int) -> bool {
        &&& self.edges@[k].visit_status == VisitStatus::NotVisited
        &&& !self.edges@[k].back_edge
    }

    /// No pass has touched the graph yet.
    pub open spec fn fresh(&self) -> bool {
        &&& self.roots@.len() == 0
        &&& forall|a: int| 0 <= a < self.nodes@.len() ==> #[trigger] self.node_fresh(a)
        &&& forall|k: int| 0 <= k < self.edges@.len() ==> #[trigger] self.edge_fresh(k)
    }

    /// The node index at the other end of edge `k`, seen from node `w`.
    pub open spec fn other_end(&self, k: int, w: int) -> int {
        if self.edges@[k].u == w {
            self.edges@[k].v as int
        } else {
            self.edges@[k].u as int
        }
    }

    /// The left cell of a node.
    pub open spec fn cell(&self, w: int) -> int {
        self.nodes@[w].id as int
    }

    /// A graph without nodes over `l_size` left and `r_size` right cells.
    pub fn new(l_size: usize, r_size: usize) -> (g: CuckooGraph)
        requires
            r_size <= 256,
        ensures
            g.wf(),
            g.fresh(),
            g.l_size == l_size,
            g.r_size == r_size,
            g.nodes@.len() == 0,
            g.edges@.len() == 0,
            forall|c: int| 0 <= c < l_size ==> g.slots@[c] is None,
    {
        let mut slots: Vec<Option<usize>> = Vec::with_capacity(l_size);
        let mut i: usize = 0;
        while i < l_size
            invariant
                i <= l_size,
                slots@.len() == i,
                forall|c: int| 0 <= c < i ==> slots@[c] is None,
            decreases l_size - i,
        {
            slots.push(None);
            i = i + 1;
        }
        let g = CuckooGraph {
            l_size,
            r_size,
            slots,
            nodes: Vec::new(),
            edges: Vec::new(),
            roots: Vec::new(),
            forest: Ghost(
                Forest {
                    child: Seq::empty(),
                    row: Seq::empty(),
                    parent_edge: Seq::empty(),
                    comp: Seq::empty(),
                    depth: Seq::empty(),
                    path: Seq::empty(),
                    cycle: Seq::empty(),
                    owner: Seq::empty(),
                },
            ),
            rows: Ghost(Seq::empty()),
            k3: Ghost(0),
        };
        assert forall|c: int| 0 <= c < g.l_size implies #[trigger] g.slot_ok(c) by {}
        g
    }

    /// The node of left cell `id`, made if the cell had none.
    pub fn upsert_node(&mut self, id: usize) -> (a: usize)
        requires
            old(self).wf(),
            old(self).fresh(),
            id < old(self).l_size,
        ensures
            final(self).wf(),
            final(self).fresh(),
            final(self).l_size == old(self).l_size,
            final(self).r_size == old(self).r_size,
            final(self).edges@ == old(self).edges@,
            a < final(self).nodes@.len(),
            final(self).nodes@[a as int].id == id,
            old(self).nodes@.len() <= final(self).nodes@.len() <= old(self).nodes@.len() + 1,
            forall|w: int|
                0 <= w < old(self).nodes@.len() ==> final(self).nodes@[w] == old(self).nodes@[w],
            forall|c: int|
                0 <= c < old(self).l_size && c != id ==> final(self).slots@[c] == old(self).slots@[c],
    {
        assert(self.slot_ok(id as int));
        match self.slots[id] {
            Some(a) => a,
            None => {
                let a = self.nodes.len();
                let ghost before = *self;
                self.nodes.push(
                    Node {
                        id,
                        dirs: Vec::new(),
                        visit_status: VisitStatus::NotVisited,
                        accumulator: ConstraintParts::zero(self.r_size),
                    },
                );
                self.slots[id] = Some(a);
                proof {
                    assert forall|i: int| 0 <= i < self.l_size implies #[trigger] self.slot_ok(
                        i,
                    ) by {
                        assert(before.slot_ok(i));
                    }
                    assert forall|w: int| 0 <= w < self.nodes@.len() implies #[trigger] self.node_wf(
                        w,
                    ) by {
                        if w < a {
                            assert(before.node_wf(w));
                            assert(self.nodes@[w] == before.nodes@[w]);
                            assert forall|d: int|
                                0 <= d < self.nodes@[w].dirs@.len() implies #[trigger] self.dir_ok(
                                w,
                                d,
                            ) by {
                                assert(before.dir_ok(w, d));
                            }
                        }
                    }
                    assert forall|k: int| 0 <= k < self.edges@.len() implies #[trigger] self.edge_wf(
                        k,
                    ) by {
                        assert(before.edge_wf(k));
                    }
                    assert forall|w: int| 0 <= w < self.nodes@.len() implies #[trigger] self.node_fresh(
                        w,
                    ) by {
                        if w < a {
                            assert(before.node_fresh(w));
                        }
                    }
                    assert forall|k: int| 0 <= k < self.edges@.len() implies #[trigger] self.edge_fresh(
                        k,
                    ) by {
                        assert(before.edge_fresh(k));
                    }
                }
                a
            },
        }
    }

    /// Joins nodes `a` and `b` by a new edge labelled with `point`.
    pub fn add_edge(&mut self, a: usize, b: usize, point: (F128b, F128b))
        requires
            old(self).wf(),
            old(self).fresh(),
            a < old(self).nodes@.len(),
            b < old(self).nodes@.len(),
        ensures
            final(self).wf(),
            final(self).fresh(),
            final(self).l_size == old(self).l_size,
            final(self).r_size == old(self).r_size,
            final(self).nodes@.len() == old(self).nodes@.len(),
            forall|w: int|
                0 <= w < old(self).nodes@.len() ==> (#[trigger] final(self).nodes@[w]).id == old(
                    self,
                ).nodes@[w].id,
            final(self).edges@.len() == old(self).edges@.len() + 1,
            forall|k: int|
                0 <= k < old(self).edges@.len() ==> final(self).edges@[k] == old(self).edges@[k],
            final(self).edges@[old(self).edges@.len() as int].u == a,
            final(self).edges@[old(self).edges@.len() as int].v == b,
            final(self).edges@[old(self).edges@.len() as int].point == point,
            final(self).slots@ == old(self).slots@,
    {
        let ghost before = *self;
        let k = self.edges.len();
        let ghost pu = self.nodes@[a as int].dirs@.len() as int;
        self.nodes[a].dirs.push(DirectTo { to: b, edge: k });
        let ghost pv = self.nodes@[b as int].dirs@.len() as int;
        self.nodes[b].dirs.push(DirectTo { to: a, edge: k });
        self.edges.push(
            Edge {
                u: a,
                v: b,
                point,
                visit_status: VisitStatus::NotVisited,
                back_edge: false,
                pu: Ghost(pu),
                pv: Ghost(pv),
            },
        );
        proof {
            assert forall|i: int| 0 <= i < self.l_size implies #[trigger] self.slot_ok(i) by {
                assert(before.slot_ok(i));
            }
            assert forall|w: int| 0 <= w < self.nodes@.len() implies #[trigger] self.node_wf(w) by {
                assert(before.node_wf(w));
                assert forall|d: int|
                    0 <= d < self.nodes@[w].dirs@.len() implies #[trigger] self.dir_ok(w, d) by {
                    if d < before.nodes@[w].dirs@.len() {
                        assert(before.dir_ok(w, d));
                    }
                }
            }
            assert forall|j: int| 0 <= j < self.edges@.len() implies #[trigger] self.edge_wf(j) by {
                if j < k {
                    assert(before.edge_wf(j));
                }
            }
            assert forall|w: int| 0 <= w < self.nodes@.len() implies #[trigger] self.node_fresh(w) by {
                assert(before.node_fresh(w));
            }
            assert forall|j: int| 0 <= j < self.edges@.len() implies #[trigger] self.edge_fresh(j) by {
                if j < k {
                    assert(before.edge_fresh(j));
                }
            }
        }
    }
}

/// Number of edges among the first `n` that the given pass has not been over.
pub open spec fn count_unseen(edges: Seq<Edge>, mode: Mode, n: int) -> nat
    decreases n,
{
    if n <= 0 {
        0
    } else {
        count_unseen(edges, mode, n - 1) + if edges[n - 1].seen(mode) {
            0nat
        } else {
            1nat
        }
    }
}

/// There are no more unvisited edges than edges.
pub proof fn lemma_count_unseen_le(a: Seq<Edge>, mode: Mode, n: int)
    ensures
        count_unseen(a, mode, n) <= if n < 0 {
            0
        } else {
            n
        },
    decreases n,
{
    if n > 0 {
        lemma_count_unseen_le(a, mode, n - 1);
    }
}

/// Visiting more edges does not raise the count.
pub proof fn lemma_count_unseen_mono(a: Seq<Edge>, b: Seq<Edge>, mode: Mode, n: int)
    requires
        forall|k: int| 0 <= k < n ==> (#[trigger] a[k]).seen(mode) ==> b[k].seen(mode),
    ensures
        count_unseen(b, mode, n) <= count_unseen(a, mode, n),
    decreases n,
{
    if n > 0 {
        lemma_count_unseen_mono(a, b, mode, n - 1);
        let _ = a[n - 1];
    }
}

/// Visiting one more edge lowers the count.
pub proof fn lemma_count_unseen_strict(a: Seq<Edge>, b: Seq<Edge>, mode: Mode, n: int, i: int)
    requires
        0 <= i < n,
        !a[i].seen(mode),
        b[i].seen(mode),
        forall|k: int| 0 <= k < n ==> (#[trigger] a[k]).seen(mode) ==> b[k].seen(mode),
    ensures
        count_unseen(b, mode, n) < count_unseen(a, mode, n),
    decreases n,
{
    if i == n - 1 {
        lemma_count_unseen_mono(a, b, mode, n - 1);
    } else {
        lemma_count_unseen_strict(a, b, mode, n - 1, i);
        let _ = a[n - 1];
    }
}

} // verus!
