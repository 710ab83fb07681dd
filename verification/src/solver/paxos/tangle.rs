//! Why tangled points cannot be encoded in general: whatever the code
//! vector, the values that it holds for the points of a tangle sum to zero.

use crate::field::{gf_add, lemma_add_interchange, lemma_add_laws, F128b};
use crate::solver::gaussian_eliminations::independence::{colsum, vanishes};
use crate::solver::gaussian_eliminations::row::{
    bits_xor, inner_upto, lemma_inner_agree, lemma_inner_set_bit, lemma_inner_xor,
    lemma_inner_zero,
};
use crate::solver::paxos::{
    decode_spec, decodes_points, hash2index_spec, point_cells, point_rows, r_bits, PaxosAux,
    PaxosSolverParams,
};
use vstd::prelude::*;

verus! {

/// The sum of the selected among the first `n` values.
pub open spec fn selected_total(values: Seq<F128b>, sel: Seq<bool>, n: int) -> F128b
    decreases n,
{
    if n <= 0 {
        F128b(0)
    } else if sel[n - 1] {
        gf_add(selected_total(values, sel, n - 1), values[n - 1])
    } else {
        selected_total(values, sel, n - 1)
    }
}

/// The values that a code vector holds for the points.
pub open spec fn decoded(
    p: Seq<F128b>,
    points: Seq<(F128b, F128b)>,
    aux: PaxosAux,
    params: PaxosSolverParams,
) -> Seq<F128b> {
    Seq::new(points.len(), |k: int| decode_spec(p, points[k].0, aux, params))
}

/// The values of the points.
pub open spec fn values_of(points: Seq<(F128b, F128b)>) -> Seq<F128b> {
    Seq::new(points.len(), |k: int| points[k].1)
}

/// The inner products of the rows with `v`, over the first `m` columns.
pub open spec fn row_products(rows: Seq<Seq<bool>>, v: Seq<F128b>, m: int) -> Seq<F128b> {
    Seq::new(rows.len(), |k: int| inner_upto(rows[k], v, m))
}

/// The parities of the first `m` columns over the selected among the first
/// `n` rows.
pub open spec fn column_parities(rows: Seq<Seq<bool>>, sel: Seq<bool>, m: int, n: int) -> Seq<bool> {
    Seq::new(m as nat, |c: int| colsum(rows, sel, c, n))
}

/// A sum of sums is the sum of the sums of the parts.
pub proof fn lemma_selected_total_adds(a: Seq<F128b>, b: Seq<F128b>, s: Seq<F128b>, sel: Seq<bool>, n: int)
    requires
        forall|k: int| 0 <= k < n ==> s[k] == gf_add(a[k], b[k]),
    ensures
        selected_total(s, sel, n) == gf_add(selected_total(a, sel, n), selected_total(b, sel, n)),
    decreases n,
{
    if n <= 0 {
        lemma_add_laws(F128b(0), F128b(0), F128b(0));
    } else {
        lemma_selected_total_adds(a, b, s, sel, n - 1);
        lemma_add_interchange(
            selected_total(a, sel, n - 1),
            selected_total(b, sel, n - 1),
            a[n - 1],
            b[n - 1],
        );
    }
}

/// The selected rows' inner products with `v` sum to the inner product of
/// their column parities with `v`.
pub proof fn lemma_selected_products(rows: Seq<Seq<bool>>, sel: Seq<bool>, v: Seq<F128b>, m: int, n: int)
    requires
        0 <= m,
        0 <= n <= rows.len(),
    ensures
        selected_total(row_products(rows, v, m), sel, n) == inner_upto(
            column_parities(rows, sel, m, n),
            v,
            m,
        ),
    decreases n,
{
    let now = column_parities(rows, sel, m, n);
    if n == 0 {
        lemma_inner_zero(now, v, m);
    } else {
        lemma_selected_products(rows, sel, v, m, n - 1);
        let before = column_parities(rows, sel, m, n - 1);
        if sel[n - 1] {
            lemma_inner_xor(before, rows[n - 1], v, m);
            lemma_inner_agree(now, bits_xor(before, rows[n - 1]), v, v, m);
        } else {
            lemma_inner_agree(now, before, v, v, m);
        }
    }
}

/// The two left cells of a point, as the inner product of its cell bits.
pub proof fn lemma_cells_product(p: Seq<F128b>, cells: Seq<bool>, i: int, j: int, m: int)
    requires
        0 <= i < m,
        0 <= j < m,
        cells.len() == m,
        forall|c: int| 0 <= c < m ==> cells[c] == ((i == c) != (j == c)),
    ensures
        inner_upto(cells, p, m) == gf_add(p[i], p[j]),
{
    if i == j {
        lemma_inner_zero(cells, p, m);
        lemma_add_laws(p[i], p[i], p[i]);
    } else {
        let one = cells.update(i, false);
        let none = one.update(j, false);
        lemma_inner_set_bit(cells, p, i, m);
        lemma_inner_set_bit(one, p, j, m);
        lemma_inner_zero(none, p, m);
        lemma_add_laws(F128b(0), p[j], p[i]);
        lemma_add_laws(p[j], p[i], p[i]);
    }
}

/// Whatever the code vector, the values that it holds for points that probe
/// every left cell an even number of times and select every right cell an
/// even number of times sum to zero.
pub proof fn lemma_tangle_cancels(
    p: Seq<F128b>,
    points: Seq<(F128b, F128b)>,
    aux: PaxosAux,
    params: PaxosSolverParams,
    sel: Seq<bool>,
)
    requires
        params.left() > 0,
        vanishes(point_cells(points, aux, params), sel, params.left() as int),
        vanishes(point_rows(points, aux, params), sel, params.right() as int),
    ensures
        selected_total(decoded(p, points, aux, params), sel, points.len() as int) == F128b(0),
{
    let n = points.len() as int;
    let left = params.left() as int;
    let width: int = if params.right() < 256 {
        params.right() as int
    } else {
        256
    };
    let cells = point_cells(points, aux, params);
    let rows = point_rows(points, aux, params);
    let tail = p.skip(left);
    let from_cells = row_products(cells, p, left);
    let from_rows = row_products(rows, tail, width);
    let held = decoded(p, points, aux, params);
    assert forall|k: int| 0 <= k < n implies held[k] == gf_add(from_cells[k], from_rows[k]) by {
        let x = points[k].0;
        let i = hash2index_spec(aux.0, x, params.left());
        let j = hash2index_spec(aux.1, x, params.left());
        lemma_cells_product(p, cells[k], i, j, left);
        assert(rows[k] == r_bits(aux.2, x, params.right()));
        assert(rows[k].len() == width);
    }
    lemma_selected_total_adds(from_cells, from_rows, held, sel, n);
    lemma_selected_products(cells, sel, p, left, n);
    lemma_selected_products(rows, sel, tail, width, n);
    lemma_inner_zero(column_parities(cells, sel, left, n), p, left);
    lemma_inner_zero(column_parities(rows, sel, width, n), tail, width);
    lemma_add_laws(F128b(0), F128b(0), F128b(0));
}

/// A code vector can hold the values of such points only if the values of
/// the selected points sum to zero.
pub proof fn lemma_tangle_binds_values(
    p: Seq<F128b>,
    points: Seq<(F128b, F128b)>,
    aux: PaxosAux,
    params: PaxosSolverParams,
    sel: Seq<bool>,
)
    requires
        params.left() > 0,
        vanishes(point_cells(points, aux, params), sel, params.left() as int),
        vanishes(point_rows(points, aux, params), sel, params.right() as int),
        decodes_points(p, points, aux, params),
    ensures
        selected_total(values_of(points), sel, points.len() as int) == F128b(0),
{
    lemma_tangle_cancels(p, points, aux, params, sel);
    assert(decoded(p, points, aux, params) =~= values_of(points)) by {
        assert forall|k: int| 0 <= k < points.len() implies decode_spec(p, points[k].0, aux, params)
            == points[k].1 by {
            let pt = points[k];
        }
    }
}

} // verus!
