//! Gaussian elimination over GF(2) with right-hand sides in the field.
//!
//! A system has one row per equation: coefficient bits over the unknowns
//! `R[0..m]` and a target value. A vector `R` satisfies a row when the entries
//! that the bits select sum to the target.

pub mod independence;
pub mod rank;
pub mod row;

use crate::error::Error;
use crate::field::{gf_add, lemma_add_cancel, F128b};
use crate::solver::gaussian_eliminations::independence::{
    colsum, dependent, lemma_colsum_eliminated, lemma_colsum_unit, lemma_colsum_update,
    lemma_colsum_xor, lemma_dependent_source, lemma_independent_source, lemma_pivots_independent,
    picks, vanishes,
};
use crate::solver::gaussian_eliminations::row::{
    add_rows, bits_xor, inner_product, lemma_inner_xor, Row,
};
use vstd::prelude::*;

verus! {

/// A system of equations as mathematical rows.
pub type System = Seq<(Seq<bool>, F128b)>;

/// The system that a matrix of owned rows stands for.
pub open spec fn system_of(matrix: Seq<(Vec<bool>, F128b)>) -> System {
    Seq::new(matrix.len(), |i: int| (matrix[i].0@, matrix[i].1))
}

/// The system that working rows stand for.
pub open spec fn rows_system(rows: Seq<Row>) -> System {
    Seq::new(rows.len(), |i: int| (rows[i].values@, rows[i].target))
}

/// The equations of a reduced system, without their pivots.
pub open spec fn equations_system(eqs: Seq<(usize, Vec<bool>, F128b)>) -> System {
    Seq::new(eqs.len(), |i: int| (eqs[i].1@, eqs[i].2))
}

/// Whether `r` satisfies every equation of the system.
pub open spec fn satisfies(sys: System, r: Seq<F128b>) -> bool {
    forall|t: int| 0 <= t < sys.len() ==> inner_product((#[trigger] sys[t]).0, r) == sys[t].1
}

/// Whether every row of the system has `m` coefficient bits.
pub open spec fn has_width(sys: System, m: int) -> bool {
    forall|t: int| 0 <= t < sys.len() ==> (#[trigger] sys[t]).0.len() == m
}

/// The error, if any, with which a matrix is refused before elimination.
pub open spec fn matrix_error(sys: System) -> Option<Error> {
    if sys.len() == 0 {
        Some(Error::InvariantViolation)
    } else if sys.len() > sys[0].0.len() {
        Some(Error::SolverTooManyConstraints)
    } else if !has_width(sys, sys[0].0.len() as int) {
        Some(Error::InvariantViolation)
    } else {
        None
    }
}

/// Reduced row echelon form with one pivot per row: each row carries a one in
/// its pivot column and zeros before it, no other row has a one in that
/// column, and the pivot columns increase from row to row.
pub open spec fn is_reduced(eqs: Seq<(usize, Vec<bool>, F128b)>, m: int) -> bool {
    &&& forall|t: int|
        0 <= t < eqs.len() ==> {
            &&& (#[trigger] eqs[t]).1@.len() == m
            &&& eqs[t].0 < m
            &&& eqs[t].1@[eqs[t].0 as int]
        }
    &&& forall|t: int, c: int|
        0 <= t < eqs.len() && 0 <= c < eqs[t].0 ==> !(#[trigger] eqs[t].1@[c])
    &&& forall|s: int, t: int|
        0 <= s < eqs.len() && 0 <= t < eqs.len() && s != t ==> !(#[trigger] eqs[s].1@[(
        #[trigger] eqs[t]).0 as int])
    &&& forall|s: int, t: int|
        0 <= s < t < eqs.len() ==> (#[trigger] eqs[s]).0 < (#[trigger] eqs[t]).0
}

fn check_matrix(matrix: &Vec<(Vec<bool>, F128b)>) -> (res: Result<(), Error>)
    ensures
        match matrix_error(system_of(matrix@)) {
            Some(e) => res == Err::<(), Error>(e),
            None => res == Ok::<(), Error>(()),
        },
{
    let n = matrix.len();
    if n == 0 {
        return Err(Error::InvariantViolation);
    }
    let m = matrix[0].0.len();
    assert(system_of(matrix@)[0].0.len() == m);
    if n > m {
        return Err(Error::SolverTooManyConstraints);
    }
    let mut i: usize = 0;
    while i < n
        invariant
            i <= n,
            n == matrix@.len(),
            0 < n <= m,
            system_of(matrix@)[0].0.len() == m,
            forall|t: int| 0 <= t < i ==> (#[trigger] system_of(matrix@)[t]).0.len() == m,
        decreases n - i,
    {
        if matrix[i].0.len() != m {
            assert(system_of(matrix@)[i as int].0.len() != m);
            return Err(Error::InvariantViolation);
        }
        i = i + 1;
    }
    Ok(())
}

fn into_rows(matrix: Vec<(Vec<bool>, F128b)>) -> (rows: Vec<Row>)
    ensures
        rows_system(rows@) == system_of(matrix@),
{
    let mut rows: Vec<Row> = Vec::with_capacity(matrix.len());
    let ghost all = matrix@;
    for item in it: matrix
        invariant
            it.seq() == all,
            rows@.len() == it.index(),
            forall|k: int|
                0 <= k < rows@.len() ==> (#[trigger] rows@[k]).values@ == all[k].0@ && rows@[k].target
                    == all[k].1,
    {
        let (values, target) = item;
        rows.push(Row::new(values, target));
    }
    assert(rows_system(rows@) =~= system_of(all));
    rows
}

fn into_equations(first_indices: Vec<usize>, rows: Vec<Row>) -> (eqs: Vec<(usize, Vec<bool>, F128b)>)
    requires
        first_indices@.len() == rows@.len(),
    ensures
        eqs@.len() == rows@.len(),
        forall|t: int|
            0 <= t < eqs@.len() ==> {
                &&& (#[trigger] eqs@[t]).0 == first_indices@[t]
                &&& eqs@[t].1@ == rows@[t].values@
                &&& eqs@[t].2 == rows@[t].target
            },
{
    let mut eqs: Vec<(usize, Vec<bool>, F128b)> = Vec::with_capacity(rows.len());
    let ghost all = rows@;
    for row in it: rows
        invariant
            it.seq() == all,
            first_indices@.len() == all.len(),
            eqs@.len() == it.index(),
            forall|t: int|
                0 <= t < eqs@.len() ==> {
                    &&& (#[trigger] eqs@[t]).0 == first_indices@[t]
                    &&& eqs@[t].1@ == all[t].values@
                    &&& eqs@[t].2 == all[t].target
                },
    {
        let pivot = first_indices[eqs.len()];
        eqs.push((pivot, row.values, row.target));
    }
    eqs
}

/// The state of the elimination after `i` pivots, with columns before `j` done.
pub open spec fn stage(sys: System, pivots: Seq<usize>, i: int, j: int, m: int) -> bool {
    &&& has_width(sys, m)
    &&& 0 <= i <= sys.len()
    &&& i <= j <= m
    &&& pivots.len() == i
    &&& forall|t: int| 0 <= t < i ==> (#[trigger] pivots[t]) < j && sys[t].0[pivots[t] as int]
    &&& forall|t: int, c: int| 0 <= t < i && 0 <= c < pivots[t] ==> !(#[trigger] sys[t].0[c])
    &&& forall|s: int, t: int|
        0 <= t < i && 0 <= s < sys.len() && s != t ==> !(#[trigger] sys[s].0[(
        #[trigger] pivots[t]) as int])
    &&& forall|s: int, t: int| 0 <= s < t < i ==> (#[trigger] pivots[s]) < (#[trigger] pivots[t])
    &&& forall|s: int, c: int| i <= s < sys.len() && 0 <= c < j ==> !(#[trigger] sys[s].0[c])
}

/// Two systems with the same solutions.
pub open spec fn same_solutions(a: System, b: System) -> bool {
    forall|r: Seq<F128b>| #[trigger] satisfies(a, r) == satisfies(b, r)
}

/// Exchanging two rows changes no solution.
proof fn lemma_swap_keeps_solutions(sys: System, a: int, b: int, r: Seq<F128b>)
    requires
        0 <= a < sys.len(),
        0 <= b < sys.len(),
    ensures
        satisfies(sys.update(a, sys[b]).update(b, sys[a]), r) == satisfies(sys, r),
{
    let swapped = sys.update(a, sys[b]).update(b, sys[a]);
    if satisfies(sys, r) {
        assert forall|t: int| 0 <= t < swapped.len() implies inner_product(
            (#[trigger] swapped[t]).0,
            r,
        ) == swapped[t].1 by {
            let _ = sys[t];
            let _ = sys[a];
            let _ = sys[b];
        }
    }
    if satisfies(swapped, r) {
        assert forall|t: int| 0 <= t < sys.len() implies inner_product((#[trigger] sys[t]).0, r)
            == sys[t].1 by {
            let _ = swapped[t];
            let _ = swapped[a];
            let _ = swapped[b];
        }
    }
}

/// What elimination with pivot row `i` in column `j` makes of a system.
pub open spec fn eliminated(before: System, after: System, i: int, j: int) -> bool {
    &&& after.len() == before.len()
    &&& after[i] == before[i]
    &&& forall|k: int|
        0 <= k < before.len() && k != i ==> (#[trigger] after[k]) == if before[k].0[j] {
            (bits_xor(before[k].0, before[i].0), gf_add(before[k].1, before[i].1))
        } else {
            before[k]
        }
}

/// Adding the pivot row to other rows changes no solution.
proof fn lemma_eliminate_keeps_solutions(
    before: System,
    after: System,
    i: int,
    j: int,
    m: int,
    r: Seq<F128b>,
)
    requires
        0 <= i < before.len(),
        has_width(before, m),
        eliminated(before, after, i, j),
    ensures
        satisfies(after, r) == satisfies(before, r),
{
    let pb = before[i].0;
    let pv = before[i].1;
    assert(after[i] == before[i]);
    if satisfies(before, r) {
        assert forall|t: int| 0 <= t < after.len() implies inner_product(
            (#[trigger] after[t]).0,
            r,
        ) == after[t].1 by {
            let _ = before[t];
            let _ = before[i];
            if t != i && before[t].0[j] {
                lemma_inner_xor(before[t].0, pb, r, m);
            }
        }
    }
    if satisfies(after, r) {
        assert forall|t: int| 0 <= t < before.len() implies inner_product(
            (#[trigger] before[t]).0,
            r,
        ) == before[t].1 by {
            let _ = after[t];
            let _ = after[i];
            if t != i && before[t].0[j] {
                lemma_inner_xor(before[t].0, pb, r, m);
                let a = inner_product(before[t].0, r);
                lemma_add_cancel(a, pv);
                lemma_add_cancel(before[t].1, pv);
            }
        }
    }
}

/// The coefficient bits of a system, row by row.
pub open spec fn bits_of(sys: System) -> Seq<Seq<bool>> {
    Seq::new(sys.len(), |t: int| sys[t].0)
}

/// The selection that picks row `t` alone among `n` rows.
pub open spec fn unit_selection(t: int, n: nat) -> Seq<bool> {
    Seq::new(n, |s: int| s == t)
}

/// How the current rows and the given rows make up each other: current row
/// `t` is the sum of the given rows that `t_mat[t]` picks, and given row `s`
/// the sum of the current rows that `u_mat[s]` picks.
pub open spec fn tracks(
    orig: Seq<Seq<bool>>,
    cur: Seq<Seq<bool>>,
    t_mat: Seq<Seq<bool>>,
    u_mat: Seq<Seq<bool>>,
    m: int,
) -> bool {
    let n = orig.len() as int;
    &&& cur.len() == n
    &&& t_mat.len() == n
    &&& u_mat.len() == n
    &&& forall|s: int| 0 <= s < n ==> (#[trigger] u_mat[s]).len() == n
    &&& forall|t: int, c: int|
        0 <= t < n && 0 <= c < m ==> #[trigger] cur[t][c] == colsum(orig, t_mat[t], c, n)
    &&& forall|s: int, c: int|
        0 <= s < n && 0 <= c < m ==> #[trigger] orig[s][c] == colsum(cur, u_mat[s], c, n)
}

/// At the start every row is itself.
proof fn lemma_tracks_start(orig: Seq<Seq<bool>>, m: int)
    ensures
        tracks(
            orig,
            orig,
            Seq::new(orig.len(), |t: int| unit_selection(t, orig.len())),
            Seq::new(orig.len(), |t: int| unit_selection(t, orig.len())),
            m,
        ),
{
    let n = orig.len() as int;
    let id = Seq::new(orig.len(), |t: int| unit_selection(t, orig.len()));
    assert forall|t: int, c: int| 0 <= t < n && 0 <= c < m implies #[trigger] orig[t][c] == colsum(
        orig,
        id[t],
        c,
        n,
    ) by {
        lemma_colsum_unit(orig, id[t], t, c, n);
    }
}

/// Exchanging two current rows, with the bookkeeping that goes with it.
proof fn lemma_tracks_swap(
    orig: Seq<Seq<bool>>,
    cur: Seq<Seq<bool>>,
    t_mat: Seq<Seq<bool>>,
    u_mat: Seq<Seq<bool>>,
    a: int,
    b: int,
    m: int,
) -> (next: (Seq<Seq<bool>>, Seq<Seq<bool>>))
    requires
        tracks(orig, cur, t_mat, u_mat, m),
        0 <= a < cur.len(),
        0 <= b < cur.len(),
    ensures
        tracks(orig, cur.update(a, cur[b]).update(b, cur[a]), next.0, next.1, m),
{
    let n = orig.len() as int;
    let cur2 = cur.update(a, cur[b]).update(b, cur[a]);
    let t2 = t_mat.update(a, t_mat[b]).update(b, t_mat[a]);
    let u2 = Seq::new(orig.len(), |s: int| u_mat[s].update(a, u_mat[s][b]).update(b, u_mat[s][a]));
    assert forall|t: int, c: int| 0 <= t < n && 0 <= c < m implies #[trigger] cur2[t][c] == colsum(
        orig,
        t2[t],
        c,
        n,
    ) by {
        let _ = cur[t][c];
        let _ = cur[a][c];
        let _ = cur[b][c];
    }
    assert forall|s: int, c: int| 0 <= s < n && 0 <= c < m implies #[trigger] orig[s][c] == colsum(
        cur2,
        u2[s],
        c,
        n,
    ) by {
        let sel = u_mat[s];
        let cur1 = cur.update(a, cur[b]);
        let sel1 = sel.update(a, sel[b]);
        lemma_colsum_update(cur, sel, cur1, sel1, a, c, n);
        lemma_colsum_update(cur1, sel1, cur2, u2[s], b, c, n);
    }
    (t2, u2)
}

/// Adding the pivot row to the other rows with a bit in the pivot column,
/// with the bookkeeping that goes with it.
proof fn lemma_tracks_eliminate(
    orig: Seq<Seq<bool>>,
    before: System,
    after: System,
    t_mat: Seq<Seq<bool>>,
    u_mat: Seq<Seq<bool>>,
    i: int,
    j: int,
    m: int,
) -> (next: (Seq<Seq<bool>>, Seq<Seq<bool>>))
    requires
        tracks(orig, bits_of(before), t_mat, u_mat, m),
        has_width(before, m),
        0 <= i < before.len(),
        0 <= j < m,
        before[i].0[j],
        eliminated(before, after, i, j),
    ensures
        tracks(orig, bits_of(after), next.0, next.1, m),
{
    let n = orig.len() as int;
    let old_rows = bits_of(before);
    let new_rows = bits_of(after);
    let t2 = Seq::new(
        orig.len(),
        |k: int|
            if k != i && before[k].0[j] {
                Seq::new(orig.len(), |s: int| t_mat[k][s] != t_mat[i][s])
            } else {
                t_mat[k]
            },
    );
    let u2 = Seq::new(orig.len(), |s: int| u_mat[s].update(i, orig[s][j]));
    assert forall|k: int, c: int| 0 <= k < n && 0 <= c < m implies new_rows[k][c] == (if k != i
        && old_rows[k][j] {
        old_rows[k][c] != old_rows[i][c]
    } else {
        old_rows[k][c]
    }) by {
        let _ = after[k];
        let _ = before[k];
        let _ = before[i];
    }
    assert forall|k: int, c: int| 0 <= k < n && 0 <= c < m implies #[trigger] new_rows[k][c]
        == colsum(orig, t2[k], c, n) by {
        let _ = old_rows[k][c];
        let _ = old_rows[i][c];
        if k != i && before[k].0[j] {
            lemma_colsum_xor(orig, t_mat[k], t_mat[i], t2[k], c, n);
        }
    }
    assert forall|s: int, c: int| 0 <= s < n && 0 <= c < m implies #[trigger] orig[s][c] == colsum(
        new_rows,
        u2[s],
        c,
        n,
    ) by {
        let _ = orig[s][j];
        lemma_colsum_eliminated(old_rows, new_rows, u_mat[s], u2[s], i, j, c, n, n);
    }
    (t2, u2)
}

fn find_pivot(rows: &Vec<Row>, i: usize, j: usize) -> (t: Option<usize>)
    requires
        i <= rows@.len(),
        forall|s: int| 0 <= s < rows@.len() ==> j < (#[trigger] rows@[s]).values@.len(),
    ensures
        match t {
            Some(t) => i <= t < rows@.len() && rows@[t as int].values@[j as int],
            None => forall|s: int| i <= s < rows@.len() ==> !(#[trigger] rows@[s]).values@[j as int],
        },
{
    let mut k: usize = i;
    while k < rows.len()
        invariant
            i <= k <= rows@.len(),
            forall|s: int| 0 <= s < rows@.len() ==> j < (#[trigger] rows@[s]).values@.len(),
            forall|s: int| i <= s < k ==> !(#[trigger] rows@[s]).values@[j as int],
        decreases rows@.len() - k,
    {
        if rows[k].values[j] {
            return Some(k);
        }
        k = k + 1;
    }
    None
}

fn swap_rows(rows: &mut Vec<Row>, a: usize, b: usize)
    requires
        a <= b < old(rows)@.len(),
    ensures
        final(rows)@ == old(rows)@.update(a as int, old(rows)@[b as int]).update(
            b as int,
            old(rows)@[a as int],
        ),
{
    if a != b {
        let upper = rows.remove(b);
        let lower = rows.remove(a);
        rows.insert(a, upper);
        rows.insert(b, lower);
        assert(rows@ =~= old(rows)@.update(a as int, old(rows)@[b as int]).update(
            b as int,
            old(rows)@[a as int],
        ));
    } else {
        assert(rows@ =~= old(rows)@.update(a as int, old(rows)@[b as int]).update(
            b as int,
            old(rows)@[a as int],
        ));
    }
}

fn eliminate(rows: &mut Vec<Row>, i: usize, j: usize, Ghost(m): Ghost<int>)
    requires
        i < old(rows)@.len(),
        j < m,
        m <= usize::MAX,
        has_width(rows_system(old(rows)@), m),
        forall|c: int| 0 <= c < j ==> !old(rows)@[i as int].values@[c],
        old(rows)@[i as int].values@[j as int],
    ensures
        has_width(rows_system(final(rows)@), m),
        eliminated(rows_system(old(rows)@), rows_system(final(rows)@), i as int, j as int),
        forall|s: int, c: int|
            0 <= s < old(rows)@.len() && 0 <= c < j ==> (#[trigger] final(rows)@[s].values@[c])
                == old(rows)@[s].values@[c],
        forall|s: int|
            0 <= s < old(rows)@.len() && s != i ==> !(#[trigger] final(rows)@[s]).values@[j as int],
{
    let n = rows.len();
    let ghost before = rows_system(rows@);
    let ghost pivot = before[i as int];
    let width: usize = rows[i].values.len();
    assert(before[i as int].0.len() == m);
    assert(pivot.0[j as int]);
    let mut k: usize = 0;
    while k < n
        invariant
            k <= n,
            n == rows@.len(),
            n == before.len(),
            i < n,
            j < m,
            width == m,
            has_width(before, m),
            has_width(rows_system(rows@), m),
            pivot == before[i as int],
            pivot.0[j as int],
            rows_system(rows@)[i as int] == pivot,
            forall|c: int| 0 <= c < j ==> !pivot.0[c],
            forall|s: int| k <= s < n ==> (#[trigger] rows_system(rows@)[s]) == before[s],
            forall|s: int|
                0 <= s < k && s != i ==> (#[trigger] rows_system(rows@)[s]) == if before[s].0[j as int] {
                    (bits_xor(before[s].0, pivot.0), gf_add(before[s].1, pivot.1))
                } else {
                    before[s]
                },
        decreases n - k,
    {
        let ghost prev = rows_system(rows@);
        assert(prev[k as int].0.len() == m);
        assert(prev[i as int].0.len() == m);
        if k != i && rows[k].values[j] {
            add_rows(rows, k, i, j..width);
            let ghost next = rows_system(rows@);
            assert(next[k as int].0 =~= bits_xor(before[k as int].0, pivot.0)) by {
                assert(prev[k as int] == before[k as int]);
            }
            assert forall|s: int| 0 <= s < n implies (#[trigger] next[s]).0.len() == m by {
                let _ = prev[s];
            }
            assert forall|s: int| k < s < n implies (#[trigger] next[s]) == before[s] by {
                let _ = prev[s];
            }
            assert forall|s: int| 0 <= s < k && s != i implies (#[trigger] next[s]) == if before[s].0[j as int] {
                (bits_xor(before[s].0, pivot.0), gf_add(before[s].1, pivot.1))
            } else {
                before[s]
            } by {
                let _ = prev[s];
            }
            assert(next[i as int] == pivot) by {
                let _ = prev[i as int];
            }
        }
        k = k + 1;
    }
    proof {
        let after = rows_system(rows@);
        assert forall|s: int, c: int| 0 <= s < n && 0 <= c < j implies (
        #[trigger] rows@[s].values@[c]) == old(rows)@[s].values@[c] by {
            let _ = after[s];
            let _ = before[s];
        }
        assert forall|s: int| 0 <= s < n && s != i implies !(#[trigger] rows@[s]).values@[j as int] by {
            let _ = after[s];
            let _ = before[s];
        }
    }
}

/// Brings a system into reduced row echelon form.
///
/// A matrix without rows, with more rows than columns or with rows of unequal
/// length is refused. Otherwise the result is `None` when some row finds no
/// pivot, and else the reduced rows, each with its pivot column: a system with
/// exactly the solutions of the given one.
pub fn gaussian_elimination(matrix: Vec<(Vec<bool>, F128b)>) -> (res: Result<
    Option<Vec<(usize, Vec<bool>, F128b)>>,
    Error,
>)
    ensures
        match matrix_error(system_of(matrix@)) {
            Some(e) => res == Err::<Option<Vec<(usize, Vec<bool>, F128b)>>, Error>(e),
            None => res is Ok,
        },
        match res {
            Ok(Some(eqs)) => {
                &&& eqs@.len() == matrix@.len()
                &&& is_reduced(eqs@, matrix@[0].0@.len() as int)
                &&& same_solutions(equations_system(eqs@), system_of(matrix@))
                &&& !dependent(bits_of(system_of(matrix@)), matrix@[0].0@.len() as int)
            },
            Ok(None) => dependent(bits_of(system_of(matrix@)), matrix@[0].0@.len() as int),
            Err(_) => true,
        },
{
    match check_matrix(&matrix) {
        Err(e) => {
            return Err(e);
        },
        Ok(()) => {},
    }
    let n = matrix.len();
    let m = matrix[0].0.len();
    let ghost orig = system_of(matrix@);
    assert(orig[0].0.len() == m);
    let mut rows = into_rows(matrix);
    let mut first_indices: Vec<usize> = Vec::with_capacity(n);
    let mut i: usize = 0;
    let mut j: usize = 0;
    assert(same_solutions(rows_system(rows@), orig));
    let ghost given = bits_of(orig);
    let ghost mut t_mat = Seq::new(orig.len(), |t: int| unit_selection(t, orig.len()));
    let ghost mut u_mat = Seq::new(orig.len(), |t: int| unit_selection(t, orig.len()));
    proof {
        lemma_tracks_start(given, m as int);
    }
    while i < n
        invariant
            n == rows@.len(),
            n == orig.len(),
            0 < n <= m,
            orig == system_of(matrix@),
            matrix_error(orig) is None,
            stage(rows_system(rows@), first_indices@, i as int, j as int, m as int),
            same_solutions(rows_system(rows@), orig),
            given == bits_of(orig),
            m == matrix@[0].0@.len(),
            tracks(given, bits_of(rows_system(rows@)), t_mat, u_mat, m as int),
        decreases (n - i) + (m - j),
    {
        if j >= m {
            proof {
                let cur = rows_system(rows@);
                assert forall|c: int| 0 <= c < m implies !#[trigger] bits_of(cur)[i as int][c] by {
                    assert(!cur[i as int].0[c]);
                }
                lemma_dependent_source(given, bits_of(cur), u_mat, i as int, m as int);
            }
            return Ok(None);
        }
        let ghost cur = rows_system(rows@);
        assert forall|s: int| 0 <= s < rows@.len() implies j < (#[trigger] rows@[s]).values@.len() by {
            let _ = cur[s];
        }
        match find_pivot(&rows, i, j) {
            None => {
                assert forall|s: int, c: int| i <= s < cur.len() && 0 <= c < j + 1 implies !(
                #[trigger] cur[s].0[c]) by {
                    let _ = rows@[s];
                }
                j = j + 1;
            },
            Some(t) => {
                swap_rows(&mut rows, i, t);
                let ghost swapped = rows_system(rows@);
                assert(swapped =~= cur.update(i as int, cur[t as int]).update(t as int, cur[i as int]));
                proof {
                    let next = lemma_tracks_swap(
                        given,
                        bits_of(cur),
                        t_mat,
                        u_mat,
                        i as int,
                        t as int,
                        m as int,
                    );
                    t_mat = next.0;
                    u_mat = next.1;
                    assert(bits_of(swapped) =~= bits_of(cur).update(
                        i as int,
                        bits_of(cur)[t as int],
                    ).update(t as int, bits_of(cur)[i as int]));
                }
                assert forall|r: Seq<F128b>| #[trigger] satisfies(swapped, r) == satisfies(orig, r) by {
                    lemma_swap_keeps_solutions(cur, i as int, t as int, r);
                    assert(satisfies(cur, r) == satisfies(orig, r));
                }
                assert(stage(swapped, first_indices@, i as int, j as int, m as int));
                assert forall|c: int| 0 <= c < j implies !rows@[i as int].values@[c] by {
                    assert(!swapped[i as int].0[c]);
                }
                assert(rows@[i as int].values@[j as int]) by {
                    assert(swapped[i as int] == cur[t as int]);
                }
                eliminate(&mut rows, i, j, Ghost(m as int));
                let ghost done = rows_system(rows@);
                proof {
                    let next = lemma_tracks_eliminate(
                        given,
                        swapped,
                        done,
                        t_mat,
                        u_mat,
                        i as int,
                        j as int,
                        m as int,
                    );
                    t_mat = next.0;
                    u_mat = next.1;
                }
                assert forall|r: Seq<F128b>| #[trigger] satisfies(done, r) == satisfies(orig, r) by {
                    lemma_eliminate_keeps_solutions(swapped, done, i as int, j as int, m as int, r);
                    assert(satisfies(swapped, r) == satisfies(orig, r));
                }
                first_indices.push(j);
                proof {
                    let pivots = first_indices@;
                    assert forall|s: int, c: int|
                        0 <= s < n && 0 <= c < j implies done[s].0[c] == swapped[s].0[c] by {
                        assert(rows@[s].values@[c] == rows@[s].values@[c]);
                    }
                    assert(done[i as int] == swapped[i as int]);
                    assert forall|t2: int| 0 <= t2 < i + 1 implies (#[trigger] pivots[t2]) < j + 1
                        && done[t2].0[pivots[t2] as int] by {
                        if t2 < i {
                            assert(done[t2].0[pivots[t2] as int] == swapped[t2].0[pivots[t2] as int]);
                        }
                    }
                    assert forall|t2: int, c: int|
                        0 <= t2 < i + 1 && 0 <= c < pivots[t2] implies !(#[trigger] done[t2].0[c]) by {
                        assert(done[t2].0[c] == swapped[t2].0[c]);
                    }
                    assert forall|s: int, t2: int|
                        0 <= t2 < i + 1 && 0 <= s < done.len() && s != t2 implies !(
                    #[trigger] done[s].0[(#[trigger] pivots[t2]) as int]) by {
                        if t2 < i {
                            assert(done[s].0[pivots[t2] as int] == swapped[s].0[pivots[t2] as int]);
                        } else {
                            assert(!rows@[s].values@[j as int]);
                        }
                    }
                    assert forall|s: int, c: int|
                        i + 1 <= s < done.len() && 0 <= c < j + 1 implies !(#[trigger] done[s].0[c]) by {
                        if c < j {
                            assert(done[s].0[c] == swapped[s].0[c]);
                        } else {
                            assert(!rows@[s].values@[j as int]);
                        }
                    }
                }
                i = i + 1;
                j = j + 1;
            },
        }
    }
    let ghost done = rows_system(rows@);
    let ghost pivots = first_indices@;
    let ghost rows_done = rows@;
    let eqs = into_equations(first_indices, rows);
    proof {
        assert(equations_system(eqs@) =~= done);
        assert forall|t: int| 0 <= t < eqs@.len() implies {
            &&& (#[trigger] eqs@[t]).1@.len() == m
            &&& eqs@[t].0 < m
            &&& eqs@[t].1@[eqs@[t].0 as int]
        } by {
            let _ = done[t];
            let _ = pivots[t];
        }
        assert forall|t: int, c: int| 0 <= t < eqs@.len() && 0 <= c < eqs@[t].0 implies !(
        #[trigger] eqs@[t].1@[c]) by {
            assert(!done[t].0[c]);
        }
        assert forall|s: int, t: int|
            0 <= s < eqs@.len() && 0 <= t < eqs@.len() && s != t implies !(#[trigger] eqs@[s].1@[(
            #[trigger] eqs@[t]).0 as int]) by {
            assert(!done[s].0[pivots[t] as int]);
        }
        assert forall|s: int, t: int| 0 <= s < t < eqs@.len() implies (#[trigger] eqs@[s]).0 < (
        #[trigger] eqs@[t]).0 by {
            assert(pivots[s] < pivots[t]);
        }
        let cur_bits = bits_of(done);
        let cols = Seq::new(pivots.len(), |t: int| pivots[t] as int);
        if dependent(cur_bits, m as int) {
            let sel = choose|sel: Seq<bool>|
                sel.len() == cur_bits.len() && picks(sel) && #[trigger] vanishes(
                    cur_bits,
                    sel,
                    m as int,
                );
            assert forall|s: int, t: int|
                0 <= s < cur_bits.len() && 0 <= t < cur_bits.len() && s != t implies !(
            #[trigger] cur_bits[s])[#[trigger] cols[t]] by {
                assert(!done[s].0[pivots[t] as int]);
            }
            assert forall|t: int| 0 <= t < cur_bits.len() implies 0 <= #[trigger] cols[t] < m
                && cur_bits[t][cols[t]] by {
                let _ = pivots[t];
            }
            lemma_pivots_independent(cur_bits, cols, sel, m as int);
        }
        lemma_independent_source(given, cur_bits, t_mat, m as int);
    }
    Ok(Some(eqs))
}

} // verus!
