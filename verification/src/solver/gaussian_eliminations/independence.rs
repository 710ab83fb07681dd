//! Linear dependence of bit vectors over GF(2).
//!
//! A selection picks some of the rows; the rows are dependent when a
//! selection that picks at least one of them sums to zero in every column.

use vstd::prelude::*;

verus! {

/// Parity of the selected rows' bits in column `c`, over the first `n` rows.
pub open spec fn colsum(rows: Seq<Seq<bool>>, sel: Seq<bool>, c: int, n: int) -> bool
    decreases n,
{
    if n <= 0 {
        false
    } else {
        colsum(rows, sel, c, n - 1) != (sel[n - 1] && rows[n - 1][c])
    }
}

/// Whether the selection picks a row.
pub open spec fn picks(sel: Seq<bool>) -> bool {
    exists|s: int| 0 <= s < sel.len() && sel[s]
}

/// Whether the selected rows sum to zero in each of the first `m` columns.
pub open spec fn vanishes(rows: Seq<Seq<bool>>, sel: Seq<bool>, m: int) -> bool {
    forall|c: int| 0 <= c < m ==> !#[trigger] colsum(rows, sel, c, rows.len() as int)
}

/// Whether some of the rows sum to zero on the first `m` columns.
pub open spec fn dependent(rows: Seq<Seq<bool>>, m: int) -> bool {
    exists|sel: Seq<bool>| sel.len() == rows.len() && picks(sel) && #[trigger] vanishes(rows, sel, m)
}

/// The sum depends only on what it reads.
pub proof fn lemma_colsum_agree(
    rows: Seq<Seq<bool>>,
    sel: Seq<bool>,
    rows2: Seq<Seq<bool>>,
    sel2: Seq<bool>,
    c: int,
    c2: int,
    n: int,
)
    requires
        forall|s: int| 0 <= s < n ==> (sel[s] && rows[s][c]) == (sel2[s] && rows2[s][c2]),
    ensures
        colsum(rows, sel, c, n) == colsum(rows2, sel2, c2, n),
    decreases n,
{
    if n > 0 {
        lemma_colsum_agree(rows, sel, rows2, sel2, c, c2, n - 1);
    }
}

/// The sum of a sum of two selections is the sum of their sums.
pub proof fn lemma_colsum_xor(
    rows: Seq<Seq<bool>>,
    a: Seq<bool>,
    b: Seq<bool>,
    ab: Seq<bool>,
    c: int,
    n: int,
)
    requires
        forall|s: int| 0 <= s < n ==> ab[s] == (a[s] != b[s]),
    ensures
        colsum(rows, ab, c, n) == (colsum(rows, a, c, n) != colsum(rows, b, c, n)),
    decreases n,
{
    if n > 0 {
        lemma_colsum_xor(rows, a, b, ab, c, n - 1);
    }
}

/// Changing one row and its selection bit changes the sum by the two terms.
pub proof fn lemma_colsum_update(
    rows: Seq<Seq<bool>>,
    sel: Seq<bool>,
    rows2: Seq<Seq<bool>>,
    sel2: Seq<bool>,
    k: int,
    c: int,
    n: int,
)
    requires
        forall|s: int| 0 <= s < n && s != k ==> (sel[s] && rows[s][c]) == (sel2[s] && rows2[s][c]),
    ensures
        colsum(rows2, sel2, c, n) == if 0 <= k < n {
            (colsum(rows, sel, c, n) != (sel[k] && rows[k][c])) != (sel2[k] && rows2[k][c])
        } else {
            colsum(rows, sel, c, n)
        },
    decreases n,
{
    if n > 0 {
        lemma_colsum_update(rows, sel, rows2, sel2, k, c, n - 1);
    }
}

/// If only row `t` is picked among rows with a bit in column `c`, the sum
/// there is the selection bit of `t`.
pub proof fn lemma_colsum_single(rows: Seq<Seq<bool>>, sel: Seq<bool>, t: int, c: int, n: int)
    requires
        forall|s: int| 0 <= s < n && s != t ==> !rows[s][c],
        0 <= t < n ==> rows[t][c],
    ensures
        colsum(rows, sel, c, n) == (0 <= t < n && sel[t]),
    decreases n,
{
    if n > 0 {
        lemma_colsum_single(rows, sel, t, c, n - 1);
    }
}

/// A selection of one row sums to that row.
pub proof fn lemma_colsum_unit(rows: Seq<Seq<bool>>, sel: Seq<bool>, t: int, c: int, n: int)
    requires
        forall|s: int| 0 <= s < n && s != t ==> !sel[s],
        0 <= t < n ==> sel[t],
    ensures
        colsum(rows, sel, c, n) == (0 <= t < n && rows[t][c]),
    decreases n,
{
    if n > 0 {
        lemma_colsum_unit(rows, sel, t, c, n - 1);
    }
}

/// The sum after the pivot row `i` was added to every other row with a bit
/// in column `j`, under the selection that takes for row `i` the old sum in
/// column `j`, is the old sum.
pub proof fn lemma_colsum_eliminated(
    old_rows: Seq<Seq<bool>>,
    new_rows: Seq<Seq<bool>>,
    sel: Seq<bool>,
    sel2: Seq<bool>,
    i: int,
    j: int,
    c: int,
    total: int,
    n: int,
)
    requires
        0 <= i < total,
        0 <= n <= total,
        old_rows[i][j],
        new_rows[i][c] == old_rows[i][c],
        forall|k: int|
            0 <= k < total && k != i ==> new_rows[k][c] == (old_rows[k][c] != (old_rows[k][j]
                && old_rows[i][c])),
        forall|k: int| 0 <= k < total && k != i ==> sel2[k] == sel[k],
        sel2[i] == colsum(old_rows, sel, j, total),
    ensures
        colsum(new_rows, sel2, c, n) == (colsum(old_rows, sel, c, n) != (old_rows[i][c] && (colsum(
            old_rows,
            sel,
            j,
            n,
        ) != (i < n && colsum(old_rows, sel, j, total))))),
    decreases n,
{
    if n > 0 {
        lemma_colsum_eliminated(old_rows, new_rows, sel, sel2, i, j, c, total, n - 1);
    }
}

/// The rows as recombined by a matrix of selections: row `t` is the sum of
/// the rows that `m[t]` picks.
pub open spec fn recombined(rows: Seq<Seq<bool>>, m: Seq<Seq<bool>>, width: int) -> Seq<Seq<bool>> {
    Seq::new(m.len(), |t: int| Seq::new(width as nat, |c: int| colsum(rows, m[t], c, rows.len() as int)))
}

/// The selection that sums the selections `m[t]` picked by `a`.
pub open spec fn composed(m: Seq<Seq<bool>>, a: Seq<bool>, n: int) -> Seq<bool> {
    Seq::new(n as nat, |s: int| colsum(m, a, s, m.len() as int))
}

/// Summing recombined rows is summing the rows under the composed selection.
pub proof fn lemma_colsum_composed(
    rows: Seq<Seq<bool>>,
    m: Seq<Seq<bool>>,
    a: Seq<bool>,
    c: int,
    width: int,
    k: int,
)
    requires
        0 <= c < width,
        0 <= k <= m.len(),
    ensures
        colsum(recombined(rows, m, width), a, c, k) == colsum(
            rows,
            Seq::new(rows.len(), |s: int| colsum(m, a, s, k)),
            c,
            rows.len() as int,
        ),
    decreases k,
{
    let total = rows.len() as int;
    let upto = |kk: int| Seq::new(rows.len(), |s: int| colsum(m, a, s, kk));
    if k == 0 {
        lemma_colsum_zero(rows, upto(0), c, total);
    } else {
        lemma_colsum_composed(rows, m, a, c, width, k - 1);
        let prev = upto(k - 1);
        let cur = upto(k);
        if a[k - 1] {
            lemma_colsum_xor(rows, prev, m[k - 1], cur, c, total);
        } else {
            lemma_colsum_agree(rows, prev, rows, cur, c, c, total);
        }
    }
}

/// The empty selection sums to zero.
pub proof fn lemma_colsum_zero(rows: Seq<Seq<bool>>, sel: Seq<bool>, c: int, n: int)
    requires
        forall|s: int| 0 <= s < n ==> !sel[s],
    ensures
        !colsum(rows, sel, c, n),
    decreases n,
{
    if n > 0 {
        lemma_colsum_zero(rows, sel, c, n - 1);
    }
}

/// Inserting a row with its selection bit adds one term to the sum.
pub proof fn lemma_colsum_insert(
    rows: Seq<Seq<bool>>,
    sel: Seq<bool>,
    j: int,
    row: Seq<bool>,
    bit: bool,
    c: int,
    n: int,
)
    requires
        0 <= j <= rows.len(),
        rows.len() == sel.len(),
        0 <= n <= rows.len() + 1,
    ensures
        colsum(rows.insert(j, row), sel.insert(j, bit), c, n) == if n <= j {
            colsum(rows, sel, c, n)
        } else {
            colsum(rows, sel, c, n - 1) != (bit && row[c])
        },
    decreases n,
{
    if n > 0 {
        lemma_colsum_insert(rows, sel, j, row, bit, c, n - 1);
    }
}

/// Adding a multiple of one vector to every row changes the sum by that
/// multiple of the sum in the column that decides.
pub proof fn lemma_colsum_mixed(
    rows: Seq<Seq<bool>>,
    mixed: Seq<Seq<bool>>,
    sel: Seq<bool>,
    c: int,
    by: int,
    v: bool,
    n: int,
)
    requires
        forall|s: int| 0 <= s < n ==> mixed[s][c] == (rows[s][c] != (rows[s][by] && v)),
    ensures
        colsum(mixed, sel, c, n) == (colsum(rows, sel, c, n) != (v && colsum(rows, sel, by, n))),
    decreases n,
{
    if n > 0 {
        lemma_colsum_mixed(rows, mixed, sel, c, by, v, n - 1);
    }
}

/// More rows than columns are dependent. Returns a selection that shows it.
pub proof fn lemma_too_many_rows(rows: Seq<Seq<bool>>, m: int) -> (sel: Seq<bool>)
    requires
        0 <= m < rows.len(),
    ensures
        sel.len() == rows.len(),
        picks(sel),
        vanishes(rows, sel, m),
    decreases m,
{
    let n = rows.len() as int;
    if m == 0 {
        let sel = Seq::new(rows.len(), |s: int| s == 0);
        assert(sel[0]);
        sel
    } else {
        let last = m - 1;
        if forall|s: int| 0 <= s < n ==> !rows[s][last] {
            let sel = lemma_too_many_rows(rows, m - 1);
            assert forall|c: int| 0 <= c < m implies !#[trigger] colsum(rows, sel, c, n) by {
                if c == last {
                    lemma_colsum_single(rows, sel, -1, last, n);
                }
            }
            sel
        } else {
            let j = choose|j: int| 0 <= j < n && rows[j][last];
            let pivot = rows[j];
            let rest = rows.remove(j);
            let mixed = Seq::new(
                rest.len(),
                |s: int| Seq::new(m as nat, |c: int| rest[s][c] != (rest[s][last] && pivot[c])),
            );
            let sel2 = lemma_too_many_rows(mixed, m - 1);
            let bit = colsum(rest, sel2, last, n - 1);
            let sel = sel2.insert(j, bit);
            assert(rows =~= rest.insert(j, pivot));
            assert forall|c: int| 0 <= c < m implies !#[trigger] colsum(rows, sel, c, n) by {
                lemma_colsum_insert(rest, sel2, j, pivot, bit, c, n);
                if c < last {
                    lemma_colsum_mixed(rest, mixed, sel2, c, last, pivot[c], n - 1);
                    assert(!colsum(mixed, sel2, c, mixed.len() as int));
                }
            }
            let s2 = choose|s: int| 0 <= s < sel2.len() && sel2[s];
            if s2 < j {
                assert(sel[s2]);
            } else {
                assert(sel[s2 + 1]);
            }
            sel
        }
    }
}

/// Rows that each have a column to themselves are independent.
pub proof fn lemma_pivots_independent(rows: Seq<Seq<bool>>, pivots: Seq<int>, sel: Seq<bool>, m: int)
    requires
        pivots.len() == rows.len(),
        sel.len() == rows.len(),
        forall|t: int| 0 <= t < rows.len() ==> 0 <= #[trigger] pivots[t] < m && rows[t][pivots[t]],
        forall|s: int, t: int|
            0 <= s < rows.len() && 0 <= t < rows.len() && s != t ==> !(#[trigger] rows[s])[
            #[trigger] pivots[t]],
        vanishes(rows, sel, m),
    ensures
        !picks(sel),
{
    if picks(sel) {
        let t = choose|t: int| 0 <= t < sel.len() && sel[t];
        let c = pivots[t];
        assert forall|s: int| 0 <= s < rows.len() && s != t implies !rows[s][c] by {
            assert(!rows[s][pivots[t]]);
        }
        lemma_colsum_single(rows, sel, t, c, rows.len() as int);
        assert(!colsum(rows, sel, c, rows.len() as int));
    }
}

/// If independent rows are sums of given rows, the given rows, as many as
/// they, are independent too.
pub proof fn lemma_independent_source(
    orig: Seq<Seq<bool>>,
    cur: Seq<Seq<bool>>,
    t_mat: Seq<Seq<bool>>,
    m: int,
)
    requires
        orig.len() == cur.len(),
        t_mat.len() == cur.len(),
        forall|t: int, c: int|
            0 <= t < cur.len() && 0 <= c < m ==> #[trigger] cur[t][c] == colsum(
                orig,
                t_mat[t],
                c,
                orig.len() as int,
            ),
        !dependent(cur, m),
    ensures
        !dependent(orig, m),
{
    let n = orig.len() as int;
    if dependent(orig, m) {
        let sel = choose|sel: Seq<bool>|
            sel.len() == orig.len() && picks(sel) && #[trigger] vanishes(orig, sel, m);
        // The selections behind the current rows, and the dependent one:
        // one more vector than they have entries.
        let all = t_mat.push(sel);
        let a = lemma_too_many_rows(all, n);
        let head = a.subrange(0, n);
        let b = a[n];
        assert forall|s: int| 0 <= s < n implies #[trigger] colsum(t_mat, head, s, n) == (b
            && sel[s]) by {
            lemma_colsum_agree(all, a, t_mat, head, s, s, n);
            assert(!colsum(all, a, s, all.len() as int));
        }
        let comp = Seq::new(orig.len(), |s: int| colsum(t_mat, head, s, n));
        assert forall|c: int| 0 <= c < m implies !#[trigger] colsum(cur, head, c, n) by {
            lemma_colsum_composed(orig, t_mat, head, c, m, n);
            lemma_colsum_agree(recombined(orig, t_mat, m), head, cur, head, c, c, n);
            if b {
                lemma_colsum_agree(orig, comp, orig, sel, c, c, n);
                assert(!colsum(orig, sel, c, n));
            } else {
                assert forall|s: int| 0 <= s < n implies !comp[s] by {
                    assert(colsum(t_mat, head, s, n) == (b && sel[s]));
                }
                lemma_colsum_zero(orig, comp, c, n);
            }
        }
        assert(vanishes(cur, head, m));
        if picks(head) {
            assert(dependent(cur, m));
        } else {
            let s = choose|s: int| 0 <= s < a.len() && a[s];
            if s < n {
                assert(head[s]);
            }
            assert(b);
            let s2 = choose|s: int| 0 <= s < sel.len() && sel[s];
            assert(colsum(t_mat, head, s2, n) == (b && sel[s2]));
            lemma_colsum_zero(t_mat, head, s2, n);
        }
    }
}

/// If given rows are sums of as many current rows, one of which is zero,
/// the given rows are dependent.
pub proof fn lemma_dependent_source(
    orig: Seq<Seq<bool>>,
    cur: Seq<Seq<bool>>,
    u_mat: Seq<Seq<bool>>,
    i: int,
    m: int,
)
    requires
        orig.len() == cur.len(),
        u_mat.len() == cur.len(),
        0 <= i < cur.len(),
        forall|s: int| 0 <= s < u_mat.len() ==> (#[trigger] u_mat[s]).len() == cur.len(),
        forall|s: int, c: int|
            0 <= s < orig.len() && 0 <= c < m ==> #[trigger] orig[s][c] == colsum(
                cur,
                u_mat[s],
                c,
                cur.len() as int,
            ),
        forall|c: int| 0 <= c < m ==> !#[trigger] cur[i][c],
    ensures
        dependent(orig, m),
{
    let n = orig.len() as int;
    // The selections behind the given rows, without their entry for the
    // zero row: more vectors than they have entries.
    let short = Seq::new(orig.len(), |s: int| u_mat[s].remove(i));
    let a = lemma_too_many_rows(short, n - 1);
    let comp = Seq::new(cur.len(), |t: int| colsum(u_mat, a, t, n));
    assert forall|t: int| 0 <= t < n && t != i implies !comp[t] by {
        let t2 = if t < i {
            t
        } else {
            t - 1
        };
        lemma_colsum_agree(short, a, u_mat, a, t2, t, n);
        assert(!colsum(short, a, t2, short.len() as int));
    }
    assert forall|c: int| 0 <= c < m implies !#[trigger] colsum(orig, a, c, n) by {
        lemma_colsum_composed(cur, u_mat, a, c, m, n);
        lemma_colsum_agree(recombined(cur, u_mat, m), a, orig, a, c, c, n);
        let none = Seq::new(cur.len(), |t: int| false);
        lemma_colsum_agree(cur, comp, cur, none, c, c, n);
        lemma_colsum_zero(cur, none, c, n);
    }
    assert(vanishes(orig, a, m));
}

} // verus!
