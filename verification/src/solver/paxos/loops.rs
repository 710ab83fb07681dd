//! The number of independent loops of a cuckoo graph: how many of its edges
//! are more than a largest selection of them without a loop holds. Every
//! depth-first search finds that many back edges.

use crate::field::{lemma_add_laws, F128b};
use crate::solver::gaussian_eliminations::independence::{
    colsum, lemma_colsum_agree, lemma_colsum_composed, lemma_colsum_single, lemma_colsum_zero,
    lemma_too_many_rows, picks, recombined, vanishes,
};
use crate::solver::gaussian_eliminations::rank::{
    count_upto, excess, excess_is, independent, left_out, lemma_count_complement,
    lemma_count_matched, lemma_count_paired, lemma_excess_unique, lemma_left_out, within,
};
use crate::solver::paxos::first_pass::{lemma_forest_has_no_cycle, lemma_searched_edges_seen};
use crate::solver::paxos::graph::{parts_add, CuckooGraph};
use crate::solver::paxos::{matches_points, point_cells, PaxosAux, PaxosSolverParams};
use vstd::prelude::*;

verus! {

/// The number of independent loops among the points under the seeds: how
/// many points are more than a largest selection of them holds of which no
/// part probes every left cell an even number of times.
pub open spec fn loops(points: Seq<(F128b, F128b)>, aux: PaxosAux, params: PaxosSolverParams) -> nat {
    excess(point_cells(points, aux, params), params.left() as int)
}

/// The edges of the forest.
pub open spec fn tree_edges(g: CuckooGraph) -> Seq<bool> {
    Seq::new(g.edges@.len(), |k: int| !g.edges@[k].back_edge)
}

/// The back edges.
pub open spec fn back_edges(g: CuckooGraph) -> Seq<bool> {
    Seq::new(g.edges@.len(), |k: int| g.edges@[k].back_edge)
}

/// Edges touch every node an even number of times exactly if their points
/// probe every left cell an even number of times.
pub proof fn lemma_cells_match(
    g: CuckooGraph,
    points: Seq<(F128b, F128b)>,
    aux: PaxosAux,
    params: PaxosSolverParams,
    sel: Seq<bool>,
)
    requires
        g.wf(),
        matches_points(g, points, aux, params),
        sel.len() == points.len(),
    ensures
        vanishes(g.inc(), sel, g.nodes@.len() as int) <==> vanishes(
            point_cells(points, aux, params),
            sel,
            params.left() as int,
        ),
{
    let n = points.len() as int;
    let cells = point_cells(points, aux, params);
    assert(g.nodes.len() == g.nodes@.len());
    assert(g.inc().len() == n);
    assert(cells.len() == n);
    if vanishes(g.inc(), sel, g.nodes@.len() as int) {
        assert forall|i: int| 0 <= i < params.left() implies !#[trigger] colsum(cells, sel, i, n) by {
            assert(g.slot_ok(i));
            match g.slots@[i] {
                Some(w) => {
                    let w = w as int;
                    assert forall|k: int| 0 <= k < n implies (sel[k] && cells[k][i]) == (sel[k]
                        && g.inc()[k][w]) by {
                        let e = g.edges@[k];
                        assert(g.edge_wf(k));
                        assert(g.node_wf(e.u as int));
                        assert(g.node_wf(e.v as int));
                        assert(g.node_wf(w));
                    }
                    lemma_colsum_agree(cells, sel, g.inc(), sel, i, w, n);
                    assert(!colsum(g.inc(), sel, w, g.inc().len() as int));
                },
                None => {
                    let none = Seq::new(sel.len(), |k: int| false);
                    assert forall|k: int| 0 <= k < n implies (sel[k] && cells[k][i]) == (none[k]
                        && cells[k][i]) by {
                        let e = g.edges@[k];
                        assert(g.edge_wf(k));
                        assert(g.node_wf(e.u as int));
                        assert(g.node_wf(e.v as int));
                    }
                    lemma_colsum_agree(cells, sel, cells, none, i, i, n);
                    lemma_colsum_zero(cells, none, i, n);
                },
            }
        }
    }
    if vanishes(cells, sel, params.left() as int) {
        assert forall|w: int| 0 <= w < g.nodes@.len() implies !#[trigger] colsum(g.inc(), sel, w, n) by {
            assert(g.node_wf(w));
            let i = g.cell(w);
            assert forall|k: int| 0 <= k < n implies (sel[k] && cells[k][i]) == (sel[k]
                && g.inc()[k][w]) by {
                let e = g.edges@[k];
                assert(g.edge_wf(k));
                assert(g.node_wf(e.u as int));
                assert(g.node_wf(e.v as int));
            }
            lemma_colsum_agree(cells, sel, g.inc(), sel, i, w, n);
            assert(!colsum(cells, sel, i, cells.len() as int));
        }
    }
}

/// The sum of recorded cycles, at least one: edges that touch every node an
/// even number of times, among them the back edge of every summed cycle.
pub proof fn lemma_cycles_sum(g: CuckooGraph, a: Seq<bool>) -> (sum: Seq<bool>)
    requires
        g.searched(),
        a.len() == g.rows@.len(),
        picks(a),
    ensures
        sum.len() == g.edges@.len(),
        forall|k: int|
            0 <= k < g.edges@.len() ==> #[trigger] sum[k] == colsum(
                g.forest@.cycle,
                a,
                k,
                g.rows@.len() as int,
            ),
        picks(sum),
        vanishes(g.inc(), sum, g.nodes@.len() as int),
{
    let n_rows = g.rows@.len() as int;
    let e = g.edges@.len() as int;
    let cycles = g.forest@.cycle;
    let sum = Seq::new(g.edges@.len(), |k: int| colsum(cycles, a, k, n_rows));
    let none = Seq::new(a.len(), |i: int| false);
    assert(g.inc().len() == e);
    assert forall|z: int| 0 <= z < g.nodes@.len() implies !#[trigger] colsum(g.inc(), sum, z, e) by {
        lemma_colsum_composed(g.inc(), cycles, a, z, g.nodes@.len() as int, n_rows);
        let re = recombined(g.inc(), cycles, g.nodes@.len() as int);
        assert forall|i: int| 0 <= i < n_rows implies (a[i] && re[i][z]) == (none[i] && re[i][z]) by {
            assert(g.cycle_ok(i, -1));
            assert(!colsum(g.inc(), cycles[i], z, e));
        }
        lemma_colsum_agree(re, a, re, none, z, z, n_rows);
        lemma_colsum_zero(re, none, z, n_rows);
        assert(sum =~= Seq::new(g.inc().len(), |s: int| colsum(cycles, a, s, n_rows)));
    }
    let i0 = choose|i: int| 0 <= i < a.len() && a[i];
    assert(g.cycle_ok(i0, -1));
    let k0 = g.forest@.owner[i0];
    assert forall|i: int| 0 <= i < n_rows && i != i0 implies !cycles[i][k0] by {
        assert(g.cycle_ok(i, -1));
        if cycles[i][k0] {
            if k0 != g.forest@.owner[i] {
                assert(g.tree_edge(k0, -1));
            }
        }
    }
    lemma_colsum_single(cycles, a, i0, k0, n_rows);
    assert(sum[k0]);
    sum
}

/// The edges of the forest are independent, and with the back edges, one
/// per constraint, they are all edges.
pub proof fn lemma_tree_edges_independent(g: CuckooGraph)
    requires
        g.searched(),
    ensures
        independent(g.inc(), tree_edges(g), g.nodes@.len() as int),
        count_upto(tree_edges(g), g.edges@.len() as int) + g.rows@.len() == g.edges@.len(),
{
    let e = g.edges@.len() as int;
    let trees = tree_edges(g);
    let backs = back_edges(g);
    assert(g.inc().len() == e);
    assert forall|sub: Seq<bool>|
        sub.len() == g.inc().len() && picks(sub) && within(sub, trees) implies !#[trigger] vanishes(
        g.inc(),
        sub,
        g.nodes@.len() as int,
    ) by {
        if vanishes(g.inc(), sub, g.nodes@.len() as int) {
            assert forall|k: int| 0 <= k < sub.len() && #[trigger] sub[k] implies !g.edges@[k].back_edge by {
                assert(trees[k]);
            }
            lemma_forest_has_no_cycle(g, sub);
        }
    }
    assert forall|i: int| 0 <= i < g.rows@.len() implies 0 <= #[trigger] g.forest@.owner[i]
        < backs.len() && backs[g.forest@.owner[i]] && g.forest@.row[g.forest@.owner[i]] == i by {
        assert(g.cycle_ok(i, -1));
    }
    assert forall|k: int| 0 <= k < backs.len() && #[trigger] backs[k] implies 0 <= g.forest@.row[k]
        < g.rows@.len() && g.forest@.owner[g.forest@.row[k]] == k by {
        lemma_searched_edges_seen(g, k);
        assert(g.edge_ok(k, -1));
        assert(g.back_ok(k));
    }
    lemma_count_matched(backs, g.forest@.owner, g.forest@.row, g.rows@.len() as int);
    lemma_count_complement(trees, backs, e);
}

/// Independent edges leave out as many edges as there are constraints, or
/// more: among fewer left out, some sum of recorded cycles would avoid them
/// all.
pub proof fn lemma_independent_bound(g: CuckooGraph, sel: Seq<bool>)
    requires
        g.searched(),
        sel.len() == g.edges@.len(),
        independent(g.inc(), sel, g.nodes@.len() as int),
    ensures
        count_upto(sel, g.edges@.len() as int) + g.rows@.len() <= g.edges@.len(),
{
    let e = g.edges@.len() as int;
    let n_rows = g.rows@.len() as int;
    let cycles = g.forest@.cycle;
    let out = left_out(sel, e);
    lemma_left_out(sel, e);
    let m = out.len() as int;
    if m < n_rows {
        // The recorded cycles, read at the edges that are left out.
        let read = Seq::new(g.rows@.len(), |i: int| Seq::new(out.len(), |j: int| cycles[i][out[j]]));
        let a = lemma_too_many_rows(read, m);
        let sum = lemma_cycles_sum(g, a);
        assert forall|k: int| 0 <= k < sum.len() && #[trigger] sum[k] implies sel[k] by {
            if !sel[k] {
                assert(out.contains(k));
                let j = choose|j: int| 0 <= j < out.len() && out[j] == k;
                assert forall|i: int| 0 <= i < n_rows implies (a[i] && cycles[i][k]) == (a[i]
                    && read[i][j]) by {}
                lemma_colsum_agree(cycles, a, read, a, k, j, n_rows);
                assert(!colsum(read, a, j, read.len() as int));
            }
        }
        assert(within(sum, sel));
        assert(g.inc().len() == e);
        assert(!vanishes(g.inc(), sum, g.nodes@.len() as int));
    }
}

/// A self-loop is a back edge, and its constraint is the constraint that
/// its point contributes: the bits that select its right cells, and its
/// value.
pub proof fn lemma_self_loop_row(g: CuckooGraph, k: int)
    requires
        g.searched(),
        0 <= k < g.edges@.len(),
        g.edges@[k].u == g.edges@[k].v,
    ensures
        g.edges@[k].back_edge,
        0 <= g.forest@.row[k] < g.rows@.len(),
        g.rows@[g.forest@.row[k]] == g.label(k),
{
    lemma_searched_edges_seen(g, k);
    assert(g.edge_ok(k, -1));
    if !g.edges@[k].back_edge {
        assert(g.tree_ok(k));
    }
    assert(g.back_ok(k));
    let u = g.edges@[k].u as int;
    assert(g.edge_wf(k));
    assert(g.node_wf(u));
    let acc = g.acc(u);
    let lab = g.label(k);
    let row = g.rows@[g.forest@.row[k]];
    assert(row == parts_add(parts_add(acc, acc), lab));
    assert(acc.0.len() == g.r_size);
    assert(lab.0.len() == g.r_size);
    assert(row.0 =~= lab.0);
    lemma_add_laws(acc.1, acc.1, lab.1);
    lemma_add_laws(lab.1, lab.1, lab.1);
}

/// The nodes at which a tree of the forest starts: those without a parent.
pub open spec fn tree_roots(g: CuckooGraph) -> Seq<bool> {
    Seq::new(g.nodes@.len(), |w: int| g.forest@.parent_edge[w] < 0)
}

/// The nodes with a parent.
pub open spec fn tree_children(g: CuckooGraph) -> Seq<bool> {
    Seq::new(g.nodes@.len(), |w: int| g.forest@.parent_edge[w] >= 0)
}

/// The first pass emits as many constraints as there are edges beyond
/// those of a forest: the edges, less the nodes, plus the trees.
pub proof fn lemma_constraint_count(g: CuckooGraph)
    requires
        g.searched(),
    ensures
        g.rows@.len() + g.nodes@.len() == g.edges@.len() + count_upto(
            tree_roots(g),
            g.nodes@.len() as int,
        ),
{
    let trees = tree_edges(g);
    let children = tree_children(g);
    assert forall|k: int| 0 <= k < trees.len() && #[trigger] trees[k] implies 0 <= g.forest@.child[k]
        < children.len() && children[g.forest@.child[k]] && g.forest@.parent_edge[g.forest@.child[k]]
        == k by {
        lemma_searched_edges_seen(g, k);
        assert(g.edge_ok(k, -1));
        assert(g.tree_ok(k));
        assert(g.edge_wf(k));
    }
    assert forall|w: int| 0 <= w < children.len() && #[trigger] children[w] implies 0
        <= g.forest@.parent_edge[w] < trees.len() && trees[g.forest@.parent_edge[w]]
        && g.forest@.child[g.forest@.parent_edge[w]] == w by {
        assert(g.node_seen(w));
        assert(g.node_ok(w, -1));
    }
    lemma_count_paired(trees, children, g.forest@.child, g.forest@.parent_edge);
    lemma_count_complement(children, tree_roots(g), g.nodes@.len() as int);
    lemma_tree_edges_independent(g);
}

/// The first pass emits one constraint for every independent loop.
pub proof fn lemma_graph_loops(
    g: CuckooGraph,
    points: Seq<(F128b, F128b)>,
    aux: PaxosAux,
    params: PaxosSolverParams,
)
    requires
        g.searched(),
        matches_points(g, points, aux, params),
    ensures
        loops(points, aux, params) == g.rows@.len(),
{
    let n = points.len() as int;
    let cells = point_cells(points, aux, params);
    let left = params.left() as int;
    let nodes = g.nodes@.len() as int;
    let b = g.rows@.len();
    assert(g.inc().len() == n);
    assert(cells.len() == n);
    lemma_tree_edges_independent(g);
    let trees = tree_edges(g);
    assert(independent(cells, trees, left)) by {
        assert forall|sub: Seq<bool>|
            sub.len() == cells.len() && picks(sub) && within(sub, trees) implies !#[trigger] vanishes(
            cells,
            sub,
            left,
        ) by {
            lemma_cells_match(g, points, aux, params, sub);
            assert(!vanishes(g.inc(), sub, nodes));
        }
    }
    assert forall|sel: Seq<bool>|
        sel.len() == cells.len() && #[trigger] independent(cells, sel, left) implies count_upto(sel, n)
        + b <= n by {
        assert(independent(g.inc(), sel, nodes)) by {
            assert forall|sub: Seq<bool>|
                sub.len() == g.inc().len() && picks(sub) && within(sub, sel) implies !#[trigger] vanishes(
                g.inc(),
                sub,
                nodes,
            ) by {
                lemma_cells_match(g, points, aux, params, sub);
                assert(!vanishes(cells, sub, left));
            }
        }
        lemma_independent_bound(g, sel);
    }
    assert(excess_is(cells, left, b));
    lemma_excess_unique(cells, left, b);
}

} // verus!
