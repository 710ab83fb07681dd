//! The second pass over the cuckoo graph: once the right part satisfies the
//! constraints, a walk down every tree fixes the left cell of each child from
//! that of its parent.

use crate::field::{
    gf_add, lemma_add_back_edge, lemma_add_child_decodes, lemma_add_laws, lemma_add_tree_step,
    F128b,
};
use crate::solver::gaussian_eliminations::row::{
    bits_xor, inner_product, lemma_inner_xor, lemma_inner_zero,
};
use crate::solver::gaussian_eliminations::satisfies;
use crate::solver::paxos::first_pass::{
    lemma_closed_kept, lemma_paths_kept, lemma_searched_edges_seen, lemma_wf_kept,
};
use crate::solver::paxos::graph::{
    count_unseen, lemma_count_unseen_mono, lemma_count_unseen_strict, CuckooGraph, Mode,
    VisitStatus,
};
use crate::solver::paxos::{calc_r_inner_product, PaxosAux, PaxosSolverParams};
use vstd::prelude::*;

verus! {

impl CuckooGraph {
    pub open spec fn node_twice(&self, w: int) -> bool {
        self.nodes@[w].visit_status == VisitStatus::VisitedTwice
    }

    pub open spec fn edge_twice(&self, k: int) -> bool {
        self.edges@[k].visit_status == VisitStatus::VisitedTwice
    }

    /// The second pass has nothing left to do at edge `k`.
    pub open spec fn edge_done(&self, k: int) -> bool {
        self.edge_twice(k) || self.edges@[k].back_edge
    }

    /// The second pass has nothing left to do at node `w`.
    pub open spec fn done_at(&self, w: int) -> bool {
        forall|d: int|
            0 <= d < self.nodes@[w].dirs@.len() ==> #[trigger] self.edge_done(
                self.nodes@[w].dirs@[d].edge as int,
            )
    }

    /// The left cells at the ends of edge `k` and the right cells that its
    /// label selects sum to the value of its point.
    pub open spec fn edge_decodes(&self, k: int, l: Seq<F128b>, r: Seq<F128b>) -> bool {
        let e = self.edges@[k];
        gf_add(
            gf_add(l[self.cell(e.u as int)], l[self.cell(e.v as int)]),
            inner_product(self.label(k).0, r),
        ) == self.label(k).1
    }

    pub open spec fn edge_filled(&self, k: int, pending: int, l: Seq<F128b>, r: Seq<F128b>) -> bool {
        self.edge_twice(k) ==> {
            &&& !self.edges@[k].back_edge
            &&& self.edge_decodes(k, l, r)
            &&& k != pending ==> self.node_twice(self.edges@[k].u as int) && self.node_twice(
                self.edges@[k].v as int,
            )
        }
    }

    pub open spec fn node_filled(&self, w: int) -> bool {
        self.node_twice(w) && self.forest@.parent_edge[w] >= 0 ==> self.edge_twice(
            self.forest@.parent_edge[w],
        )
    }

    /// What holds while the second pass fills the left part `l`, with edge
    /// `pending` walked but its child not yet entered.
    pub open spec fn filling(&self, pending: int, l: Seq<F128b>, r: Seq<F128b>) -> bool {
        &&& self.searched()
        &&& l.len() == self.l_size
        &&& r.len() == self.r_size
        &&& forall|k: int| 0 <= k < self.edges@.len() ==> #[trigger] self.edge_filled(k, pending, l, r)
        &&& forall|w: int| 0 <= w < self.nodes@.len() ==> #[trigger] self.node_filled(w)
    }

    pub open spec fn node_advanced(&self, old: CuckooGraph, w: int) -> bool {
        &&& self.nodes@[w].accumulator@ == old.nodes@[w].accumulator@
        &&& self.node_seen(w) == old.node_seen(w)
        &&& old.node_twice(w) ==> self.node_twice(w)
    }

    pub open spec fn edge_advanced(&self, old: CuckooGraph, k: int) -> bool {
        &&& self.edges@[k].back_edge == old.edges@[k].back_edge
        &&& self.edge_seen(k) == old.edge_seen(k)
        &&& old.edge_twice(k) ==> self.edge_twice(k)
    }

    /// The graph is `old` with some marks moved on by the second pass.
    pub open spec fn advanced_from(&self, old: CuckooGraph) -> bool {
        &&& self.same_frame(old)
        &&& self.roots@ == old.roots@
        &&& self.rows@ == old.rows@
        &&& self.forest@ == old.forest@
        &&& forall|w: int| 0 <= w < self.nodes@.len() ==> #[trigger] self.node_advanced(old, w)
        &&& forall|k: int| 0 <= k < self.edges@.len() ==> #[trigger] self.edge_advanced(old, k)
    }

    /// Number of edges that the second pass has not walked.
    pub open spec fn unfilled_edges(&self) -> nat {
        count_unseen(self.edges@, Mode::CalcVecL, self.edges@.len() as int)
    }

    /// A node entered since `old` is done.
    pub open spec fn fresh_done(&self, old: CuckooGraph, w: int) -> bool {
        self.node_twice(w) && !old.node_twice(w) ==> self.done_at(w)
    }

    /// Left cell `i` is as it was, if it has no node, or its node is a root
    /// or had been entered in `self`.
    pub open spec fn cell_kept(&self, i: int, before: Seq<F128b>, after: Seq<F128b>) -> bool {
        match self.slots@[i] {
            None => after[i] == before[i],
            Some(w) => self.node_twice(w as int) || self.forest@.parent_edge[w as int] < 0
                ==> after[i] == before[i],
        }
    }

    pub open spec fn cells_kept(&self, before: Seq<F128b>, after: Seq<F128b>) -> bool {
        forall|i: int| 0 <= i < self.l_size ==> #[trigger] self.cell_kept(i, before, after)
    }

    /// Every edge decodes to the value of its point.
    pub open spec fn decodes_all(&self, l: Seq<F128b>, r: Seq<F128b>) -> bool {
        forall|k: int| 0 <= k < self.edges@.len() ==> #[trigger] self.edge_decodes(k, l, r)
    }
}

/// Different nodes stand for different left cells.
pub proof fn lemma_cells_distinct(g: CuckooGraph, a: int, b: int)
    requires
        g.wf(),
        0 <= a < g.nodes@.len(),
        0 <= b < g.nodes@.len(),
        a != b,
    ensures
        g.cell(a) != g.cell(b),
        0 <= g.cell(a) < g.l_size,
        0 <= g.cell(b) < g.l_size,
        g.slots@[g.cell(a)] == Some(a as usize),
{
    assert(g.node_wf(a));
    assert(g.node_wf(b));
    assert(g.nodes.len() == g.nodes@.len());
}

/// Growth by the second pass composes.
pub proof fn lemma_advanced_trans(a: CuckooGraph, b: CuckooGraph, c: CuckooGraph)
    requires
        b.advanced_from(a),
        c.advanced_from(b),
    ensures
        c.advanced_from(a),
{
    assert forall|w: int| 0 <= w < c.nodes@.len() implies {
        &&& (#[trigger] c.nodes@[w]).id == a.nodes@[w].id
        &&& c.nodes@[w].dirs@ == a.nodes@[w].dirs@
    } by {
        let _ = b.nodes@[w];
    }
    assert forall|k: int| 0 <= k < c.edges@.len() implies {
        &&& (#[trigger] c.edges@[k]).u == a.edges@[k].u
        &&& c.edges@[k].v == a.edges@[k].v
        &&& c.edges@[k].point == a.edges@[k].point
        &&& c.edges@[k].pu@ == a.edges@[k].pu@
        &&& c.edges@[k].pv@ == a.edges@[k].pv@
    } by {
        let _ = b.edges@[k];
    }
    assert forall|w: int| 0 <= w < c.nodes@.len() implies #[trigger] c.node_advanced(a, w) by {
        assert(b.node_advanced(a, w));
        assert(c.node_advanced(b, w));
    }
    assert forall|k: int| 0 <= k < c.edges@.len() implies #[trigger] c.edge_advanced(a, k) by {
        assert(b.edge_advanced(a, k));
        assert(c.edge_advanced(b, k));
    }
}

/// What the first pass found stays true while the second moves marks on.
pub proof fn lemma_searched_kept(old: CuckooGraph, new: CuckooGraph)
    requires
        old.searched(),
        new.advanced_from(old),
    ensures
        new.searched(),
{
    assert forall|w: int| 0 <= w < new.nodes@.len() implies (
    #[trigger] new.nodes@[w]).accumulator.v@.len() == new.r_size by {
        assert(old.node_wf(w));
        assert(new.node_advanced(old, w));
    }
    lemma_wf_kept(old, new);
    assert forall|w: int| 0 <= w < new.nodes@.len() implies #[trigger] new.node_ok(w, -1) by {
        assert(old.node_ok(w, -1));
        assert(new.node_advanced(old, w));
        let pe = old.forest@.parent_edge[w];
        if 0 <= pe < old.edges@.len() {
            assert(new.edge_advanced(old, pe));
        }
    }
    assert forall|k: int| 0 <= k < new.edges@.len() implies #[trigger] new.edge_ok(k, -1) by {
        assert(old.edge_ok(k, -1));
        assert(old.edge_wf(k));
        assert(new.edge_advanced(old, k));
        let e = old.edges@[k];
        assert(new.node_advanced(old, e.u as int));
        assert(new.node_advanced(old, e.v as int));
        if old.edge_seen(k) {
            if old.edges@[k].back_edge {
                assert(old.back_ok(k));
                assert(new.back_ok(k));
            } else {
                assert(old.tree_ok(k));
                assert(new.tree_ok(k));
            }
        }
    }
    assert forall|j: int|
        0 <= j < old.edges@.len() && old.edge_seen(j) implies #[trigger] new.edge_seen(j) by {
        assert(new.edge_advanced(old, j));
    }
    assert forall|w: int| 0 <= w < new.nodes@.len() implies #[trigger] new.comp_closed(w, -1) by {
        assert(old.comp_closed(w, -1));
        assert(new.node_advanced(old, w));
        assert(old.node_wf(w));
        if old.closed(w) {
            lemma_closed_kept(old, new, w);
        }
    }
    assert forall|w: int| 0 <= w < new.nodes@.len() implies #[trigger] new.node_seen(w) by {
        assert(old.node_seen(w));
        assert(new.node_advanced(old, w));
    }
    assert forall|w: int| 0 <= w < old.nodes@.len() && old.node_seen(w) implies {
        &&& #[trigger] new.node_seen(w)
        &&& new.acc(w) == old.acc(w)
        &&& new.forest@.path[w] == old.forest@.path[w]
        &&& new.forest@.comp[w] == old.forest@.comp[w]
    } by {
        assert(new.node_advanced(old, w));
    }
    assert forall|k: int|
        0 <= k < old.edges@.len() && old.tree_edge(k, -1) implies #[trigger] new.tree_edge(k, -1) by {
        assert(new.edge_advanced(old, k));
    }
    assert forall|k: int|
        0 <= k < old.edges@.len() && old.edge_seen(k) && old.edges@[k].back_edge implies {
        &&& #[trigger] new.edge_seen(k)
        &&& new.edges@[k].back_edge
        &&& new.forest@.row[k] == old.forest@.row[k]
    } by {
        assert(new.edge_advanced(old, k));
    }
    lemma_paths_kept(old, new, -1, -1);
    assert forall|w: int| 0 <= w < new.nodes@.len() implies #[trigger] new.path_ok(w, -1) by {
        assert(old.node_seen(w));
    }
    assert forall|i: int| 0 <= i < new.roots@.len() implies #[trigger] new.root_ok(i) by {
        assert(old.root_ok(i));
        assert(new.node_advanced(old, old.roots@[i] as int));
    }
    assert forall|w: int| 0 <= w < new.nodes@.len() implies #[trigger] new.root_listed(w) by {
        assert(old.root_listed(w));
    }
}

/// A node stays done while walked edges stay walked.
pub proof fn lemma_done_kept(old: CuckooGraph, new: CuckooGraph, w: int)
    requires
        old.done_at(w),
        old.node_wf(w),
        new.advanced_from(old),
        0 <= w < old.nodes@.len(),
    ensures
        new.done_at(w),
{
    let _ = new.nodes@[w];
    assert forall|d: int| 0 <= d < new.nodes@[w].dirs@.len() implies #[trigger] new.edge_done(
        new.nodes@[w].dirs@[d].edge as int,
    ) by {
        assert(old.dir_ok(w, d));
        let k = old.nodes@[w].dirs@[d].edge as int;
        assert(old.edge_done(k));
        assert(new.edge_advanced(old, k));
    }
}

/// Entering a node in the second pass keeps the invariant and settles the
/// edge that led to it.
pub proof fn lemma_enter_twice(
    old: CuckooGraph,
    new: CuckooGraph,
    node: int,
    came: int,
    l: Seq<F128b>,
    r: Seq<F128b>,
)
    requires
        old.filling(came, l, r),
        0 <= node < old.nodes@.len(),
        !old.node_twice(node),
        came < 0 ==> old.forest@.parent_edge[node] < 0,
        came >= 0 ==> {
            &&& old.forest@.parent_edge[node] == came
            &&& came < old.edges@.len()
            &&& old.edge_twice(came)
            &&& (old.edges@[came].u == node || old.edges@[came].v == node)
            &&& old.node_twice(old.other_end(came, node))
        },
        new.same_frame(old),
        new.roots@ == old.roots@,
        new.rows@ == old.rows@,
        new.forest@ == old.forest@,
        new.edges@ == old.edges@,
        forall|w: int| 0 <= w < old.nodes@.len() && w != node ==> new.nodes@[w] == old.nodes@[w],
        new.nodes@[node].visit_status == VisitStatus::VisitedTwice,
        new.nodes@[node].accumulator@ == old.nodes@[node].accumulator@,
    ensures
        new.filling(-1, l, r),
        new.advanced_from(old),
        new.node_twice(node),
{
    assert(old.node_seen(node));
    assert forall|w: int| 0 <= w < new.nodes@.len() implies #[trigger] new.node_advanced(old, w) by {}
    assert forall|k: int| 0 <= k < new.edges@.len() implies #[trigger] new.edge_advanced(old, k) by {}
    lemma_searched_kept(old, new);
    assert forall|k: int| 0 <= k < new.edges@.len() implies #[trigger] new.edge_filled(
        k,
        -1,
        l,
        r,
    ) by {
        assert(old.edge_filled(k, came, l, r));
        assert(old.edge_wf(k));
    }
    assert forall|w: int| 0 <= w < new.nodes@.len() implies #[trigger] new.node_filled(w) by {
        assert(old.node_filled(w));
    }
}

/// Walking a tree edge from an entered node to its child, and setting the
/// child's cell, keeps the invariant with that edge pending.
pub proof fn lemma_fill_edge(
    old: CuckooGraph,
    new: CuckooGraph,
    k: int,
    node: int,
    to: int,
    l: Seq<F128b>,
    l2: Seq<F128b>,
    r: Seq<F128b>,
)
    requires
        old.filling(-1, l, r),
        0 <= k < old.edges@.len(),
        !old.edge_twice(k),
        !old.edges@[k].back_edge,
        0 <= node < old.nodes@.len(),
        0 <= to < old.nodes@.len(),
        node != to,
        (old.edges@[k].u == node && old.edges@[k].v == to) || (old.edges@[k].v == node
            && old.edges@[k].u == to),
        old.node_twice(node),
        !old.node_twice(to),
        new.same_frame(old),
        new.roots@ == old.roots@,
        new.rows@ == old.rows@,
        new.forest@ == old.forest@,
        new.nodes@ == old.nodes@,
        forall|j: int| 0 <= j < old.edges@.len() && j != k ==> new.edges@[j] == old.edges@[j],
        new.edges@[k].visit_status == VisitStatus::VisitedTwice,
        new.edges@[k].back_edge == old.edges@[k].back_edge,
        l2 == l.update(
            old.cell(to),
            gf_add(gf_add(l[old.cell(node)], inner_product(old.label(k).0, r)), old.label(k).1),
        ),
    ensures
        new.filling(k, l2, r),
        new.advanced_from(old),
        new.cells_kept(l, l2) || old.forest@.parent_edge[to] < 0,
{
    lemma_searched_edges_seen(old, k);
    assert forall|w: int| 0 <= w < new.nodes@.len() implies #[trigger] new.node_advanced(old, w) by {}
    assert forall|j: int| 0 <= j < new.edges@.len() implies #[trigger] new.edge_advanced(old, j) by {}
    lemma_searched_kept(old, new);
    lemma_cells_distinct(old, to, node);
    lemma_cells_distinct(old, node, to);
    assert forall|j: int| 0 <= j < new.edges@.len() implies #[trigger] new.edge_filled(j, k, l2, r) by {
        assert(old.edge_filled(j, -1, l, r));
        assert(old.edge_wf(j));
        let _ = new.nodes@[new.edges@[j].u as int];
        let _ = new.nodes@[new.edges@[j].v as int];
        assert(new.label(j) == old.label(j));
        assert(new.cell(new.edges@[j].u as int) == old.cell(old.edges@[j].u as int));
        assert(new.cell(new.edges@[j].v as int) == old.cell(old.edges@[j].v as int));
        if j == k {
            lemma_add_child_decodes(
                l[old.cell(node)],
                inner_product(old.label(k).0, r),
                old.label(k).1,
            );
            assert(l2[old.cell(to)] == gf_add(
                gf_add(l[old.cell(node)], inner_product(old.label(k).0, r)),
                old.label(k).1,
            ));
            assert(l2[old.cell(node)] == l[old.cell(node)]);
            assert(new.edge_decodes(k, l2, r));
        } else if old.edge_twice(j) {
            let e = old.edges@[j];
            lemma_cells_distinct(old, to, e.u as int);
            lemma_cells_distinct(old, to, e.v as int);
            assert(new.edge_decodes(j, l2, r));
        } else {
            assert(!new.edge_twice(j));
        }
    }
    assert forall|w: int| 0 <= w < new.nodes@.len() implies #[trigger] new.node_filled(w) by {
        assert(old.node_filled(w));
        let pe = old.forest@.parent_edge[w];
        if old.node_twice(w) && pe >= 0 {
            assert(old.node_ok(w, -1));
            assert(new.edge_advanced(old, pe));
        }
    }
    if old.forest@.parent_edge[to] >= 0 {
        assert forall|i: int| 0 <= i < new.l_size implies #[trigger] new.cell_kept(i, l, l2) by {
            if i == old.cell(to) {
            } else {
            }
        }
    }
}

impl CuckooGraph {
    /// The state in which [`dfs_tocvl_rec`] may be sent to `node`.
    pub open spec fn may_fill(&self, node: int, came: int, l: Seq<F128b>, r: Seq<F128b>) -> bool {
        &&& self.filling(came, l, r)
        &&& 0 <= node < self.nodes@.len()
        &&& !self.node_twice(node)
        &&& came < 0 ==> self.forest@.parent_edge[node] < 0
        &&& came >= 0 ==> {
            &&& self.forest@.parent_edge[node] == came
            &&& came < self.edges@.len()
            &&& self.edge_twice(came)
            &&& (self.edges@[came].u == node || self.edges@[came].v == node)
            &&& self.node_twice(self.other_end(came, node))
        }
    }
}

/// Cells that are kept under more marks are kept under fewer.
pub proof fn lemma_cells_kept_weaken(
    few: CuckooGraph,
    many: CuckooGraph,
    before: Seq<F128b>,
    after: Seq<F128b>,
)
    requires
        many.cells_kept(before, after),
        many.advanced_from(few),
        few.wf(),
    ensures
        few.cells_kept(before, after),
{
    assert forall|i: int| 0 <= i < few.l_size implies #[trigger] few.cell_kept(i, before, after) by {
        assert(many.cell_kept(i, before, after));
        assert(few.slot_ok(i));
        if few.slots@[i] is Some {
            let w = few.slots@[i]->0;
            assert(many.node_advanced(few, w as int));
        }
    }
}

/// Walks down from `node`, which the second pass enters now, fixing the
/// left cell of every node below it.
fn dfs_tocvl_rec(
    g: &mut CuckooGraph,
    node: usize,
    k3: u64,
    r_size: usize,
    vec_r: &[F128b],
    vec_l: &mut Vec<F128b>,
    Ghost(came): Ghost<int>,
)
    requires
        old(g).may_fill(node as int, came, old(vec_l)@, vec_r@),
        k3 == old(g).k3@,
        r_size == old(g).r_size,
    ensures
        final(g).filling(-1, final(vec_l)@, vec_r@),
        final(g).advanced_from(*old(g)),
        final(g).node_twice(node as int),
        forall|w: int| 0 <= w < final(g).nodes@.len() ==> #[trigger] final(g).fresh_done(*old(g), w),
        old(g).cells_kept(old(vec_l)@, final(vec_l)@),
        final(vec_l)@[old(g).cell(node as int)] == old(vec_l)@[old(g).cell(node as int)],
    decreases old(g).unfilled_edges(),
{
    let ghost entry = *g;
    let ghost l0 = vec_l@;
    g.nodes[node].visit_status = VisitStatus::VisitedTwice;
    let u = g.nodes[node].id;
    let ghost g1 = *g;
    proof {
        assert forall|w: int| 0 <= w < g.nodes@.len() implies {
            &&& (#[trigger] g.nodes@[w]).id == entry.nodes@[w].id
            &&& g.nodes@[w].dirs@ == entry.nodes@[w].dirs@
        } by {}
        lemma_enter_twice(entry, *g, node as int, came, l0, vec_r@);
        assert forall|i: int| 0 <= i < g.l_size implies #[trigger] g.cell_kept(i, l0, l0) by {}
    }
    let n_dirs = g.nodes[node].dirs.len();
    let mut d: usize = 0;
    while d < n_dirs
        invariant
            d <= n_dirs,
            n_dirs == g.nodes@[node as int].dirs@.len(),
            0 <= node < g.nodes@.len(),
            k3 == g.k3@,
            r_size == g.r_size,
            u == g.nodes@[node as int].id,
            g.filling(-1, vec_l@, vec_r@),
            g.advanced_from(g1),
            g1.advanced_from(entry),
            g1.wf(),
            g1.node_twice(node as int),
            g.node_twice(node as int),
            g1.cells_kept(l0, vec_l@),
            vec_l@.len() == l0.len(),
            g.unfilled_edges() <= entry.unfilled_edges(),
            entry.unfilled_edges() == old(g).unfilled_edges(),
            forall|c: int|
                0 <= c < d ==> #[trigger] g.edge_done(g.nodes@[node as int].dirs@[c].edge as int),
            forall|w: int|
                0 <= w < g.nodes@.len() && w != node ==> #[trigger] g.fresh_done(entry, w),
        decreases n_dirs - d,
    {
        let dir = g.nodes[node].dirs[d];
        let k = dir.edge;
        proof {
            assert(g.node_wf(node as int));
            assert(g.dir_ok(node as int, d as int));
            assert(g.edge_wf(k as int));
        }
        if !(g.edges[k].is_visited(Mode::CalcVecL) || g.edges[k].back_edge) {
            let ghost g2 = *g;
            let ghost l2 = vec_l@;
            let ghost to = dir.to as int;
            proof {
                lemma_searched_edges_seen(g2, k as int);
                assert(g2.edge_ok(k as int, -1));
                assert(g2.tree_ok(k as int));
                assert(g2.node_filled(node as int));
                assert(g2.node_filled(to));
                assert(to != node);
                assert(g2.forest@.parent_edge[to] == k);
                assert(!g2.node_twice(to));
            }
            g.edges[k].visit_status = VisitStatus::VisitedTwice;
            let v = g.nodes[dir.to].id;
            let x = g.edges[k].point.0;
            let inner_product = calc_r_inner_product(x, vec_r, k3, r_size);
            let y = g.edges[k].point.1;
            proof {
                assert(g2.node_wf(to));
                assert(g2.node_wf(node as int));
            }
            vec_l[v] = vec_l[u].plus(inner_product).plus(y);
            let ghost g3 = *g;
            let ghost l3 = vec_l@;
            proof {
                assert forall|j: int| 0 <= j < g3.edges@.len() implies {
                    &&& (#[trigger] g3.edges@[j]).u == g2.edges@[j].u
                    &&& g3.edges@[j].v == g2.edges@[j].v
                    &&& g3.edges@[j].point == g2.edges@[j].point
                    &&& g3.edges@[j].pu@ == g2.edges@[j].pu@
                    &&& g3.edges@[j].pv@ == g2.edges@[j].pv@
                } by {}
                lemma_fill_edge(g2, g3, k as int, node as int, to, l2, l3, vec_r@);
                assert forall|j: int|
                    0 <= j < entry.edges@.len() && (#[trigger] entry.edges@[j]).seen(Mode::CalcVecL) implies g3.edges@[j].seen(
                    Mode::CalcVecL,
                ) by {
                    assert(g1.edge_advanced(entry, j));
                    assert(g2.edge_advanced(g1, j));
                    assert(g3.edge_advanced(g2, j));
                }
                assert(!entry.edges@[k as int].seen(Mode::CalcVecL)) by {
                    assert(g1.edge_advanced(entry, k as int));
                    assert(g2.edge_advanced(g1, k as int));
                }
                lemma_count_unseen_strict(
                    entry.edges@,
                    g3.edges@,
                    Mode::CalcVecL,
                    entry.edges@.len() as int,
                    k as int,
                );
                assert(g3.other_end(k as int, to) == node);
            }
            dfs_tocvl_rec(g, dir.to, k3, r_size, vec_r, vec_l, Ghost(k as int));
            proof {
                let l4 = vec_l@;
                lemma_advanced_trans(g2, g3, *g);
                lemma_advanced_trans(g1, g2, *g);
                assert forall|j: int|
                    0 <= j < entry.edges@.len() && (#[trigger] entry.edges@[j]).seen(Mode::CalcVecL) implies g.edges@[j].seen(
                    Mode::CalcVecL,
                ) by {
                    assert(g1.edge_advanced(entry, j));
                    assert(g.edge_advanced(g1, j));
                }
                lemma_count_unseen_mono(
                    entry.edges@,
                    g.edges@,
                    Mode::CalcVecL,
                    entry.edges@.len() as int,
                );
                assert(g.node_advanced(g1, node as int));
                lemma_cells_distinct(g2, to, node as int);
                assert forall|i: int| 0 <= i < g1.l_size implies #[trigger] g1.cell_kept(i, l0, l4) by {
                    assert(g1.cell_kept(i, l0, l2));
                    assert(g3.cell_kept(i, l3, l4));
                    assert(g1.slot_ok(i));
                    if g1.slots@[i] is Some {
                        let w = g1.slots@[i]->0 as int;
                        assert(g2.node_advanced(g1, w));
                        assert(g3.node_advanced(g2, w));
                    }
                }
                assert forall|w: int| 0 <= w < g.nodes@.len() && w != node implies #[trigger] g.fresh_done(
                    entry,
                    w,
                ) by {
                    assert(g2.fresh_done(entry, w));
                    assert(g.fresh_done(g3, w));
                    assert(g3.node_advanced(g2, w));
                    assert(g2.node_wf(w));
                    if g2.node_twice(w) && !entry.node_twice(w) {
                        lemma_done_kept(g2, *g, w);
                    }
                }
                assert forall|c: int| 0 <= c < d + 1 implies #[trigger] g.edge_done(
                    g.nodes@[node as int].dirs@[c].edge as int,
                ) by {
                    assert(g2.dir_ok(node as int, c));
                    let j = g2.nodes@[node as int].dirs@[c].edge as int;
                    let _ = g.nodes@[node as int];
                    assert(g.nodes@[node as int].dirs@[c].edge == j);
                    assert(g.edge_advanced(g2, j));
                    assert(g3.edge_advanced(g2, j));
                    assert(g.edge_advanced(g3, j));
                    if c < d {
                        assert(g2.edge_done(g2.nodes@[node as int].dirs@[c].edge as int));
                    }
                }
            }
        } else {
            proof {
                assert(g.edge_done(k as int));
            }
        }
        d = d + 1;
    }
    proof {
        assert(g.done_at(node as int));
        lemma_advanced_trans(entry, g1, *g);
        assert forall|w: int| 0 <= w < g.nodes@.len() implies #[trigger] g.fresh_done(entry, w) by {}
        lemma_cells_kept_weaken(entry, g1, l0, vec_l@);
        lemma_cells_distinct_self(g1, node as int);
        assert(g1.cell_kept(g1.cell(node as int), l0, vec_l@));
    }
}

/// A node's left cell is in range and leads back to the node.
pub proof fn lemma_cells_distinct_self(g: CuckooGraph, a: int)
    requires
        g.wf(),
        0 <= a < g.nodes@.len(),
    ensures
        0 <= g.cell(a) < g.l_size,
        g.slots@[g.cell(a)] == Some(a as usize),
        (a as usize) as int == a,
{
    assert(g.node_wf(a));
    assert(g.nodes.len() == g.nodes@.len());
}

impl CuckooGraph {
    pub open spec fn root_entered(&self, i: int) -> bool {
        self.node_twice(self.roots@[i] as int)
    }

    pub open spec fn entered_done(&self, w: int) -> bool {
        self.node_twice(w) ==> self.done_at(w)
    }

    /// The second pass is over: it has been down every tree from its root.
    pub open spec fn filled(&self, l: Seq<F128b>, r: Seq<F128b>) -> bool {
        &&& self.filling(-1, l, r)
        &&& forall|i: int| 0 <= i < self.roots@.len() ==> #[trigger] self.root_entered(i)
        &&& forall|w: int| 0 <= w < self.nodes@.len() ==> #[trigger] self.entered_done(w)
    }

    /// The sum of a node's left cell, the right cells that its accumulator
    /// selects, and the accumulator's value.
    pub open spec fn potential(&self, w: int, l: Seq<F128b>, r: Seq<F128b>) -> F128b {
        gf_add(gf_add(l[self.cell(w)], inner_product(self.acc(w).0, r)), self.acc(w).1)
    }
}

/// Once the second pass is over, it has entered every node.
pub proof fn lemma_all_entered(g: CuckooGraph, l: Seq<F128b>, r: Seq<F128b>, w: int)
    requires
        g.filled(l, r),
        0 <= w < g.nodes@.len(),
    ensures
        g.node_twice(w),
    decreases g.forest@.depth[w],
{
    assert(g.node_seen(w));
    assert(g.node_ok(w, -1));
    let pe = g.forest@.parent_edge[w];
    if pe < 0 {
        assert(g.root_listed(w));
        let i = choose|i: int| 0 <= i < g.roots@.len() && g.roots@[i] == w as usize;
        assert(g.root_entered(i));
        assert(g.nodes.len() == g.nodes@.len());
    } else {
        assert(g.edge_ok(pe, -1));
        assert(g.tree_ok(pe));
        assert(g.edge_wf(pe));
        let p = g.other_end(pe, w);
        lemma_all_entered(g, l, r, p);
        assert(g.entered_done(p));
        let e = g.edges@[pe];
        assert(g.edges.len() == g.edges@.len());
        if e.u == p {
            assert(g.edge_done(g.nodes@[p].dirs@[e.pu@].edge as int));
        } else {
            assert(g.edge_done(g.nodes@[p].dirs@[e.pv@].edge as int));
        }
        assert(g.edge_twice(pe));
        assert(g.edge_filled(pe, -1, l, r));
    }
}

/// Once the second pass is over, it has walked every tree edge.
pub proof fn lemma_tree_edges_walked(g: CuckooGraph, l: Seq<F128b>, r: Seq<F128b>, k: int)
    requires
        g.filled(l, r),
        0 <= k < g.edges@.len(),
        !g.edges@[k].back_edge,
    ensures
        g.edge_twice(k),
        g.edge_decodes(k, l, r),
{
    assert(g.edge_wf(k));
    let e = g.edges@[k];
    lemma_all_entered(g, l, r, e.u as int);
    assert(g.entered_done(e.u as int));
    assert(g.edges.len() == g.edges@.len());
    assert(g.edge_done(g.nodes@[e.u as int].dirs@[e.pu@].edge as int));
    assert(g.edge_filled(k, -1, l, r));
}

/// Every node has the potential of the root of its tree.
pub proof fn lemma_potential(g: CuckooGraph, l: Seq<F128b>, r: Seq<F128b>, w: int)
    requires
        g.filled(l, r),
        0 <= w < g.nodes@.len(),
    ensures
        0 <= g.forest@.comp[w] < g.nodes@.len(),
        g.potential(w, l, r) == l[g.cell(g.forest@.comp[w])],
    decreases g.forest@.depth[w],
{
    assert(g.node_seen(w));
    assert(g.node_ok(w, -1));
    assert(g.node_wf(w));
    let pe = g.forest@.parent_edge[w];
    if pe < 0 {
        lemma_inner_zero(g.acc(w).0, r, g.r_size as int);
        lemma_add_laws(l[g.cell(w)], F128b(0), F128b(0));
    } else {
        assert(g.edge_ok(pe, -1));
        assert(g.tree_ok(pe));
        assert(g.edge_wf(pe));
        let p = g.other_end(pe, w);
        assert(g.node_wf(p));
        lemma_potential(g, l, r, p);
        lemma_tree_edges_walked(g, l, r, pe);
        lemma_inner_xor(g.acc(p).0, g.label(pe).0, r, g.r_size as int);
        assert(bits_xor(g.acc(p).0, g.label(pe).0).len() == g.r_size);
        lemma_add_tree_step(
            l[g.cell(w)],
            l[g.cell(p)],
            inner_product(g.label(pe).0, r),
            g.label(pe).1,
            inner_product(g.acc(p).0, r),
            g.acc(p).1,
        );
    }
}

/// Once the second pass is over and the right part satisfies the
/// constraints of the first, every edge decodes to the value of its point.
pub proof fn lemma_filled_decodes(g: CuckooGraph, l: Seq<F128b>, r: Seq<F128b>)
    requires
        g.filled(l, r),
        satisfies(g.rows@, r),
    ensures
        g.decodes_all(l, r),
{
    assert forall|k: int| 0 <= k < g.edges@.len() implies #[trigger] g.edge_decodes(k, l, r) by {
        lemma_searched_edges_seen(g, k);
        assert(g.edge_ok(k, -1));
        assert(g.edge_wf(k));
        if g.edges@[k].back_edge {
            assert(g.back_ok(k));
            let e = g.edges@[k];
            let u = e.u as int;
            let v = e.v as int;
            assert(g.node_wf(u));
            assert(g.node_wf(v));
            lemma_potential(g, l, r, u);
            lemma_potential(g, l, r, v);
            let row = g.rows@[g.forest@.row[k]];
            let both = bits_xor(g.acc(u).0, g.acc(v).0);
            assert(inner_product(row.0, r) == row.1);
            lemma_inner_xor(both, g.label(k).0, r, g.r_size as int);
            lemma_inner_xor(g.acc(u).0, g.acc(v).0, r, g.r_size as int);
            assert(bits_xor(both, g.label(k).0).len() == g.r_size);
            assert(both.len() == g.r_size);
            lemma_add_back_edge(
                l[g.cell(u)],
                l[g.cell(v)],
                inner_product(g.label(k).0, r),
                g.label(k).1,
                inner_product(g.acc(u).0, r),
                inner_product(g.acc(v).0, r),
                g.acc(u).1,
                g.acc(v).1,
            );
        } else {
            lemma_tree_edges_walked(g, l, r, k);
        }
    }
}

/// Runs the second pass: from every root, a walk down its tree that sets the
/// left cell of each child to its parent's cell plus the right cells that the
/// edge's label selects plus the value of the edge's point.
///
/// Cells of roots and cells without a node stay as they are. If `vec_r`
/// satisfies the constraints of the first pass, every edge then decodes to
/// the value of its point.
pub fn dfs_to_calc_vec_l(
    graph: &mut CuckooGraph,
    keys: PaxosAux,
    params: PaxosSolverParams,
    vec_r: &[F128b],
    vec_l: &mut Vec<F128b>,
)
    requires
        old(graph).searched(),
        old(graph).no_twice(),
        keys.2 == old(graph).k3@,
        params.right() == old(graph).r_size,
        vec_r@.len() == old(graph).r_size,
        old(vec_l)@.len() == old(graph).l_size,
    ensures
        final(graph).advanced_from(*old(graph)),
        final(graph).filled(final(vec_l)@, vec_r@),
        final(vec_l)@.len() == old(vec_l)@.len(),
        old(graph).cells_kept(old(vec_l)@, final(vec_l)@),
        satisfies(final(graph).rows@, vec_r@) ==> final(graph).decodes_all(final(vec_l)@, vec_r@),
{
    let k3 = keys.2;
    let r_size = params.r_size();
    let ghost entry = *graph;
    let ghost l0 = vec_l@;
    let n_roots = graph.roots.len();
    proof {
        assert forall|w: int| 0 <= w < graph.nodes@.len() implies #[trigger] graph.node_advanced(
            entry,
            w,
        ) by {}
        assert forall|k: int| 0 <= k < graph.edges@.len() implies #[trigger] graph.edge_advanced(
            entry,
            k,
        ) by {}
        assert forall|k: int| 0 <= k < graph.edges@.len() implies #[trigger] graph.edge_filled(
            k,
            -1,
            l0,
            vec_r@,
        ) by {
            let _ = graph.edges@[k];
        }
        assert forall|w: int| 0 <= w < graph.nodes@.len() implies #[trigger] graph.node_filled(w) by {
            let _ = graph.nodes@[w];
        }
        assert forall|w: int| 0 <= w < graph.nodes@.len() implies #[trigger] graph.entered_done(w) by {
            let _ = graph.nodes@[w];
        }
        assert forall|i: int| 0 <= i < graph.l_size implies #[trigger] graph.cell_kept(i, l0, l0) by {}
    }
    let mut i: usize = 0;
    while i < n_roots
        invariant
            i <= n_roots,
            n_roots == graph.roots@.len(),
            k3 == graph.k3@,
            r_size == graph.r_size,
            entry.wf(),
            graph.filling(-1, vec_l@, vec_r@),
            graph.advanced_from(entry),
            vec_l@.len() == l0.len(),
            entry.cells_kept(l0, vec_l@),
            forall|c: int| 0 <= c < i ==> #[trigger] graph.root_entered(c),
            forall|w: int| 0 <= w < graph.nodes@.len() ==> #[trigger] graph.entered_done(w),
        decreases n_roots - i,
    {
        let node = graph.roots[i];
        proof {
            assert(graph.root_ok(i as int));
        }
        if !graph.nodes[node].is_visited(Mode::CalcVecL) {
            let ghost g0 = *graph;
            let ghost l1 = vec_l@;
            dfs_tocvl_rec(graph, node, k3, r_size, vec_r, vec_l, Ghost(-1));
            proof {
                let l2 = vec_l@;
                lemma_advanced_trans(entry, g0, *graph);
                lemma_cells_kept_weaken(entry, g0, l1, l2);
                assert forall|c: int| 0 <= c < entry.l_size implies #[trigger] entry.cell_kept(
                    c,
                    l0,
                    l2,
                ) by {
                    assert(entry.cell_kept(c, l0, l1));
                    assert(entry.cell_kept(c, l1, l2));
                }
                assert forall|c: int| 0 <= c < i + 1 implies #[trigger] graph.root_entered(c) by {
                    if c < i {
                        assert(g0.root_entered(c));
                        assert(g0.root_ok(c));
                        assert(graph.node_advanced(g0, g0.roots@[c] as int));
                    }
                }
                assert forall|w: int| 0 <= w < graph.nodes@.len() implies #[trigger] graph.entered_done(
                    w,
                ) by {
                    assert(g0.entered_done(w));
                    assert(graph.fresh_done(g0, w));
                    assert(g0.node_wf(w));
                    if g0.node_twice(w) {
                        lemma_done_kept(g0, *graph, w);
                    }
                }
            }
        }
        i = i + 1;
    }
    proof {
        if satisfies(graph.rows@, vec_r@) {
            lemma_filled_decodes(*graph, vec_l@, vec_r@);
        }
    }
}

} // verus!
