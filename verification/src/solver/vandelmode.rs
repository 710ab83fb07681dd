//! A solver that encodes points as the coefficients of the polynomial through
//! them, and decodes by evaluating the polynomial.

use crate::error::Error;
use crate::field::{gf_add, gf_mul, invertible, lemma_add_cancel, lemma_add_interchange, lemma_add_laws, F128b};
use crate::field_laws::lemma_mul_laws;
use crate::solver::SolverParams;
use vstd::prelude::*;

verus! {

/// Solver using polynomial interpolation.
pub struct VandelmondeSolver;

/// Parameters of [`VandelmondeSolver`]: the number of points.
#[derive(Clone, Copy)]
pub struct VandelmondeSolverParams(pub usize);

impl SolverParams for VandelmondeSolverParams {
    open spec fn spec_code_length(&self) -> nat {
        self.0 as nat
    }

    fn code_length(&self) -> (m: usize) {
        self.0
    }
}

/// The power `x^n`.
pub open spec fn gf_pow(x: F128b, n: nat) -> F128b
    decreases n,
{
    if n == 0 {
        F128b(1)
    } else {
        gf_mul(gf_pow(x, (n - 1) as nat), x)
    }
}

/// The value at `x` of the polynomial with the first `n` coefficients of `p`,
/// in ascending order.
pub open spec fn poly_eval_upto(p: Seq<F128b>, x: F128b, n: int) -> F128b
    decreases n,
{
    if n <= 0 {
        F128b(0)
    } else {
        gf_add(poly_eval_upto(p, x, n - 1), gf_mul(p[n - 1], gf_pow(x, (n - 1) as nat)))
    }
}

/// The value at `x` of the polynomial with coefficients `p`, in ascending order.
pub open spec fn poly_eval(p: Seq<F128b>, x: F128b) -> F128b {
    poly_eval_upto(p, x, p.len() as int)
}

/// The product of `t - x` over the first `k` keys `x`.
pub open spec fn nodal(points: Seq<(F128b, F128b)>, k: int, t: F128b) -> F128b
    decreases k,
{
    if k <= 0 {
        F128b(1)
    } else {
        gf_mul(nodal(points, k - 1, t), gf_add(t, points[k - 1].0))
    }
}

/// Whether the keys can be told apart: for every key, the product of its
/// differences to the keys before it has an inverse.
pub open spec fn separable(points: Seq<(F128b, F128b)>) -> bool {
    forall|k: int| 0 <= k < points.len() ==> invertible(#[trigger] nodal(points, k, points[k].0))
}

/// Whether the polynomial with coefficients `p` takes, at the key of every
/// point, the point's value.
pub open spec fn interpolates(p: Seq<F128b>, points: Seq<(F128b, F128b)>) -> bool {
    forall|i: int| 0 <= i < points.len() ==> poly_eval(p, (#[trigger] points[i]).0) == points[i].1
}

/// At a key among the first `k`, the product over the first `k` keys is zero.
pub proof fn lemma_nodal_vanishes(points: Seq<(F128b, F128b)>, k: int, i: int)
    requires
        0 <= i < k <= points.len(),
    ensures
        nodal(points, k, points[i].0) == F128b(0),
    decreases k,
{
    let t = points[i].0;
    if i == k - 1 {
        lemma_add_laws(t, t, t);
        lemma_mul_laws(nodal(points, k - 1, t), t, t);
    } else {
        lemma_nodal_vanishes(points, k - 1, i);
        lemma_mul_laws(gf_add(t, points[k - 1].0), t, t);
    }
}

/// Points with a key that occurs twice are not separable.
pub proof fn lemma_repeated_key(points: Seq<(F128b, F128b)>, i: int, j: int)
    requires
        0 <= i < j < points.len(),
        points[i].0 == points[j].0,
    ensures
        !separable(points),
{
    lemma_nodal_vanishes(points, j, i);
    let d = nodal(points, j, points[j].0);
    lemma_mul_laws(crate::field::gf_inv(d), d, d);
    assert(!invertible(d));
}

/// Whether every two keys differ by an element that has an inverse.
pub open spec fn apart(points: Seq<(F128b, F128b)>) -> bool {
    forall|j: int, k: int|
        0 <= j < k < points.len() ==> invertible(gf_add(#[trigger] points[k].0, #[trigger] points[j].0))
}

/// The product of the differences of `t` to the first `k` keys has an
/// inverse if every difference has one.
pub proof fn lemma_nodal_invertible(points: Seq<(F128b, F128b)>, k: int, t: F128b)
    requires
        0 <= k <= points.len(),
        forall|j: int| 0 <= j < k ==> invertible(gf_add(t, #[trigger] points[j].0)),
    ensures
        invertible(nodal(points, k, t)),
    decreases k,
{
    if k == 0 {
        crate::field_laws::lemma_inverse_edges();
    } else {
        lemma_nodal_invertible(points, k - 1, t);
        assert(invertible(gf_add(t, points[k - 1].0)));
        crate::field_laws::lemma_product_invertible(nodal(points, k - 1, t), gf_add(t, points[k - 1].0));
    }
}

/// Points of which every two keys differ by an element with an inverse are
/// separable.
pub proof fn lemma_apart_separable(points: Seq<(F128b, F128b)>)
    requires
        apart(points),
    ensures
        separable(points),
{
    assert forall|k: int| 0 <= k < points.len() implies invertible(
        #[trigger] nodal(points, k, points[k].0),
    ) by {
        assert forall|j: int| 0 <= j < k implies invertible(
            gf_add(points[k].0, #[trigger] points[j].0),
        ) by {}
        lemma_nodal_invertible(points, k, points[k].0);
    }
}

/// Whether points can be told apart depends on their keys alone.
pub proof fn lemma_separable_by_keys(a: Seq<(F128b, F128b)>, b: Seq<(F128b, F128b)>)
    requires
        a.len() == b.len(),
        forall|k: int| 0 <= k < a.len() ==> a[k].0 == b[k].0,
    ensures
        separable(a) == separable(b),
{
    assert forall|k: int, t: F128b| 0 <= k <= a.len() implies #[trigger] nodal(a, k, t) == nodal(b, k, t) by {
        lemma_nodal_by_keys(a, b, k, t);
    }
    if separable(a) {
        assert forall|k: int| 0 <= k < b.len() implies invertible(#[trigger] nodal(b, k, b[k].0)) by {
            assert(invertible(nodal(a, k, a[k].0)));
        }
    }
    if separable(b) {
        assert forall|k: int| 0 <= k < a.len() implies invertible(#[trigger] nodal(a, k, a[k].0)) by {
            assert(invertible(nodal(b, k, b[k].0)));
        }
    }
}

/// The product over the first keys depends on those keys alone.
pub proof fn lemma_nodal_by_keys(a: Seq<(F128b, F128b)>, b: Seq<(F128b, F128b)>, k: int, t: F128b)
    requires
        0 <= k <= a.len(),
        a.len() == b.len(),
        forall|j: int| 0 <= j < a.len() ==> a[j].0 == b[j].0,
    ensures
        nodal(a, k, t) == nodal(b, k, t),
    decreases k,
{
    if k > 0 {
        lemma_nodal_by_keys(a, b, k - 1, t);
    }
}

/// Evaluation is linear: where `q = p + c * m` coefficient by coefficient,
/// the value of `q` is that of `p` plus `c` times that of `m`.
pub proof fn lemma_eval_combined(p: Seq<F128b>, m: Seq<F128b>, c: F128b, q: Seq<F128b>, t: F128b, n: int)
    requires
        0 <= n <= p.len(),
        n <= m.len(),
        n <= q.len(),
        forall|i: int| 0 <= i < n ==> q[i] == gf_add(p[i], gf_mul(c, m[i])),
    ensures
        poly_eval_upto(q, t, n) == gf_add(poly_eval_upto(p, t, n), gf_mul(c, poly_eval_upto(m, t, n))),
    decreases n,
{
    if n == 0 {
        lemma_mul_laws(c, c, c);
        lemma_add_laws(F128b(0), c, c);
    } else {
        lemma_eval_combined(p, m, c, q, t, n - 1);
        let w = gf_pow(t, (n - 1) as nat);
        let ep = poly_eval_upto(p, t, n - 1);
        let em = poly_eval_upto(m, t, n - 1);
        // (p + c m) w = p w + c (m w)
        lemma_mul_laws(p[n - 1], gf_mul(c, m[n - 1]), w);
        lemma_mul_laws(c, m[n - 1], w);
        // c (em + m w) = c em + c (m w)
        lemma_mul_laws(c, em, gf_mul(m[n - 1], w));
        lemma_add_interchange(ep, gf_mul(c, em), gf_mul(p[n - 1], w), gf_mul(c, gf_mul(m[n - 1], w)));
    }
}

/// Where `q` holds the coefficients of `m` times `X + a`, up to the degree
/// `n - 1`, its value is `a` times that of `m` plus `t` times that of `m`
/// without its term of degree `n - 1`.
pub proof fn lemma_eval_shifted(m: Seq<F128b>, q: Seq<F128b>, a: F128b, t: F128b, n: int)
    requires
        1 <= n <= m.len(),
        n <= q.len(),
        q[0] == gf_mul(a, m[0]),
        forall|i: int| 1 <= i < n ==> q[i] == gf_add(m[i - 1], gf_mul(a, m[i])),
    ensures
        poly_eval_upto(q, t, n) == gf_add(
            gf_mul(a, poly_eval_upto(m, t, n)),
            gf_mul(t, poly_eval_upto(m, t, n - 1)),
        ),
    decreases n,
{
    let zero = F128b(0);
    if n == 1 {
        assert(poly_eval_upto(m, t, 0) == zero);
        assert(poly_eval_upto(q, t, 0) == zero);
        assert(gf_pow(t, 0) == F128b(1));
        lemma_mul_laws(t, q[0], m[0]);
        lemma_mul_laws(q[0], t, t);
        lemma_mul_laws(m[0], t, t);
        lemma_add_laws(q[0], m[0], gf_mul(a, m[0]));
        lemma_add_laws(m[0], m[0], m[0]);
    } else {
        lemma_eval_shifted(m, q, a, t, n - 1);
        let w = gf_pow(t, (n - 1) as nat);
        let v = gf_pow(t, (n - 2) as nat);
        let e1 = poly_eval_upto(m, t, n - 1);
        let e2 = poly_eval_upto(m, t, n - 2);
        assert(w == gf_mul(v, t));
        // q[n-1] w = m[n-2] w + a (m[n-1] w)
        lemma_mul_laws(m[n - 2], gf_mul(a, m[n - 1]), w);
        lemma_mul_laws(a, m[n - 1], w);
        // m[n-2] w = t (m[n-2] v)
        lemma_mul_laws(m[n - 2], v, t);
        lemma_mul_laws(gf_mul(m[n - 2], v), t, t);
        // a (e1 + m[n-1] w) and t (e2 + m[n-2] v)
        lemma_mul_laws(a, e1, gf_mul(m[n - 1], w));
        lemma_mul_laws(t, e2, gf_mul(m[n - 2], v));
        lemma_add_interchange(
            gf_mul(a, e1),
            gf_mul(t, e2),
            gf_mul(a, gf_mul(m[n - 1], w)),
            gf_mul(t, gf_mul(m[n - 2], v)),
        );
        lemma_add_laws(gf_mul(a, gf_mul(m[n - 1], w)), gf_mul(t, gf_mul(m[n - 2], v)), zero);
    }
}

/// The polynomial without coefficients but zeros has the value zero.
pub proof fn lemma_eval_zero(p: Seq<F128b>, t: F128b, n: int)
    requires
        0 <= n <= p.len(),
        forall|i: int| 0 <= i < n ==> p[i] == F128b(0),
    ensures
        poly_eval_upto(p, t, n) == F128b(0),
    decreases n,
{
    if n > 0 {
        lemma_eval_zero(p, t, n - 1);
        let w = gf_pow(t, (n - 1) as nat);
        lemma_mul_laws(w, w, w);
        lemma_add_laws(F128b(0), w, w);
    }
}

/// The constant polynomial one has the value one.
pub proof fn lemma_eval_unit(p: Seq<F128b>, t: F128b, n: int)
    requires
        1 <= n <= p.len(),
        p[0] == F128b(1),
        forall|i: int| 1 <= i < n ==> p[i] == F128b(0),
    ensures
        poly_eval_upto(p, t, n) == F128b(1),
    decreases n,
{
    let one = F128b(1);
    if n == 1 {
        assert(poly_eval_upto(p, t, 0) == F128b(0));
        assert(gf_pow(t, 0) == one);
        lemma_mul_laws(one, one, one);
        lemma_add_laws(one, one, one);
    } else {
        lemma_eval_unit(p, t, n - 1);
        let w = gf_pow(t, (n - 1) as nat);
        lemma_mul_laws(w, w, w);
        lemma_add_laws(one, w, w);
    }
}

/// The value at `x` of the polynomial with coefficients `p`.
fn evaluate(p: &[F128b], x: F128b) -> (y: F128b)
    ensures
        y == poly_eval(p@, x),
{
    let mut temp = F128b::one();
    let mut sum = F128b::zero();
    let mut i: usize = 0;
    while i < p.len()
        invariant
            i <= p@.len(),
            temp == gf_pow(x, i as nat),
            sum == poly_eval_upto(p@, x, i as int),
        decreases p@.len() - i,
    {
        sum = sum.plus(p[i].times(temp));
        temp = temp.times(x);
        i = i + 1;
    }
    sum
}

/// Adds `c` times the polynomial `m` to the polynomial `p` of the same length.
fn add_scaled(p: &mut Vec<F128b>, m: &Vec<F128b>, c: F128b)
    requires
        old(p)@.len() == m@.len(),
    ensures
        final(p)@.len() == m@.len(),
        forall|i: int| 0 <= i < m@.len() ==> final(p)@[i] == gf_add(old(p)@[i], gf_mul(c, m@[i])),
{
    let n = m.len();
    let mut i: usize = 0;
    while i < n
        invariant
            i <= n,
            n == m@.len(),
            p@.len() == n,
            forall|j: int| 0 <= j < i ==> p@[j] == gf_add(old(p)@[j], gf_mul(c, m@[j])),
            forall|j: int| i <= j < n ==> p@[j] == old(p)@[j],
        decreases n - i,
    {
        let sum = p[i].plus(c.times(m[i]));
        p.set(i, sum);
        i = i + 1;
    }
}

/// Multiplies the polynomial `m`, whose highest coefficient is zero, by
/// `X + a`.
fn times_linear(m: &mut Vec<F128b>, a: F128b)
    requires
        old(m)@.len() >= 1,
    ensures
        final(m)@.len() == old(m)@.len(),
        final(m)@[0] == gf_mul(a, old(m)@[0]),
        forall|i: int| 1 <= i < old(m)@.len() ==> final(m)@[i] == gf_add(old(m)@[i - 1], gf_mul(a, old(m)@[i])),
{
    let n = m.len();
    let mut i: usize = n - 1;
    while i > 0
        invariant
            i < n,
            m@.len() == n,
            n == old(m)@.len(),
            forall|j: int| i < j < n ==> m@[j] == gf_add(old(m)@[j - 1], gf_mul(a, old(m)@[j])),
            forall|j: int| 0 <= j <= i ==> m@[j] == old(m)@[j],
        decreases i,
    {
        let sum = m[i - 1].plus(a.times(m[i]));
        m.set(i, sum);
        i = i - 1;
    }
    let low = a.times(m[0]);
    m.set(0, low);
}

impl VandelmondeSolver {
    /// This solver needs no auxiliary information.
    pub fn gen_aux() -> (aux: Result<(), Error>)
        ensures
            aux == Ok::<(), Error>(()),
    {
        Ok(())
    }

    /// The parameters for `n` points.
    pub fn calc_params(n: usize) -> (params: VandelmondeSolverParams)
        ensures
            params.0 == n,
    {
        VandelmondeSolverParams(n)
    }

    /// Encodes the points as the polynomial of degree below their number
    /// that takes each point's value at its key, coefficients in ascending
    /// order.
    ///
    /// The polynomial is built point by point: to the polynomial through the
    /// points so far, a multiple of the product of `X - x` over their keys
    /// is added, which leaves its values at those keys and corrects the
    /// value at the next key. That takes the inverse of the product at the
    /// next key; the encoding fails with `SolverNoSolution` exactly if one of
    /// them has none, as with a key that occurs twice.
    pub fn encode(points: &[(F128b, F128b)], aux: (), params: VandelmondeSolverParams) -> (res: Result<
        Vec<F128b>,
        Error,
    >)
        ensures
            res is Ok <==> separable(points@),
            res matches Ok(p) ==> p@.len() == points@.len() && interpolates(p@, points@),
            res matches Err(e) ==> e == Error::SolverNoSolution,
    {
        let n = points.len();
        let mut poly: Vec<F128b> = Vec::with_capacity(n);
        let mut basis: Vec<F128b> = Vec::with_capacity(n);
        let mut i: usize = 0;
        while i < n
            invariant
                i <= n,
                poly@.len() == i,
                basis@.len() == i,
                forall|j: int| 0 <= j < i ==> poly@[j] == F128b(0),
                forall|j: int| 0 <= j < i ==> basis@[j] == (if j == 0 {
                    F128b(1)
                } else {
                    F128b(0)
                }),
            decreases n - i,
        {
            poly.push(F128b::zero());
            basis.push(if i == 0 {
                F128b::one()
            } else {
                F128b::zero()
            });
            i = i + 1;
        }
        proof {
            if n > 0 {
                assert forall|t: F128b| #[trigger] poly_eval_upto(basis@, t, n as int) == nodal(points@, 0, t) by {
                    lemma_eval_unit(basis@, t, n as int);
                }
            }
            assert forall|t: F128b| #[trigger] poly_eval_upto(poly@, t, n as int) == F128b(0) by {
                lemma_eval_zero(poly@, t, n as int);
            }
        }
        let mut k: usize = 0;
        while k < n
            invariant
                k <= n,
                n == points@.len(),
                poly@.len() == n,
                basis@.len() == n,
                k < n ==> forall|t: F128b| #[trigger] poly_eval_upto(basis@, t, n as int) == nodal(points@, k as int, t),
                forall|j: int| k < j < n ==> basis@[j] == F128b(0),
                forall|j: int| 0 <= j < k ==> poly_eval(poly@, (#[trigger] points@[j]).0) == points@[j].1,
                forall|j: int| 0 <= j < k ==> invertible(#[trigger] nodal(points@, j, points@[j].0)),
            decreases n - k,
        {
            let (x, y) = points[k];
            let d = evaluate(basis.as_slice(), x);
            let have = evaluate(poly.as_slice(), x);
            assert(d == nodal(points@, k as int, x));
            let inv = match d.inverse() {
                Some(inv) => inv,
                None => {
                    assert(!invertible(nodal(points@, k as int, points@[k as int].0)));
                    return Err(Error::SolverNoSolution);
                },
            };
            let c = y.minus(have).times(inv);
            let ghost before = poly@;
            add_scaled(&mut poly, &basis, c);
            proof {
                assert forall|j: int| 0 <= j < k + 1 implies poly_eval(poly@, (#[trigger] points@[j]).0)
                    == points@[j].1 by {
                    let t = points@[j].0;
                    lemma_eval_combined(before, basis@, c, poly@, t, n as int);
                    if j < k {
                        lemma_nodal_vanishes(points@, k as int, j);
                        lemma_mul_laws(c, c, c);
                        lemma_add_laws(points@[j].1, c, c);
                    } else {
                        // c d = (y + have) (inv d) = y + have
                        lemma_mul_laws(gf_add(y, have), inv, d);
                        lemma_mul_laws(d, inv, inv);
                        lemma_mul_laws(gf_add(y, have), inv, inv);
                        lemma_add_cancel(y, have);
                        lemma_add_laws(have, gf_add(y, have), y);
                    }
                }
            }
            if k + 1 < n {
                let ghost lower = basis@;
                times_linear(&mut basis, x);
                proof {
                    assert forall|j: int| k + 1 < j < n implies basis@[j] == F128b(0) by {
                        lemma_mul_laws(x, x, x);
                        lemma_add_laws(F128b(0), x, x);
                    }
                    assert forall|t: F128b| #[trigger] poly_eval_upto(basis@, t, n as int) == nodal(
                        points@,
                        k + 1,
                        t,
                    ) by {
                        lemma_eval_shifted(lower, basis@, x, t, n as int);
                        let e = poly_eval_upto(lower, t, n as int);
                        let w = gf_pow(t, (n - 1) as nat);
                        assert(lower[n - 1] == F128b(0));
                        lemma_mul_laws(w, w, w);
                        lemma_add_laws(poly_eval_upto(lower, t, n - 1), w, w);
                        assert(e == poly_eval_upto(lower, t, n - 1));
                        lemma_mul_laws(x, t, e);
                        lemma_mul_laws(e, gf_add(t, x), x);
                        lemma_add_laws(x, t, t);
                    }
                }
            }
            k = k + 1;
        }
        assert(poly@.len() == n);
        Ok(poly)
    }

    /// Evaluates the polynomial with coefficients `p` at `x`.
    pub fn decode(p: &[F128b], x: F128b, aux: (), params: VandelmondeSolverParams) -> (y: Result<
        F128b,
        Error,
    >)
        ensures
            y == Ok::<F128b, Error>(poly_eval(p@, x)),
    {
        Ok(evaluate(p, x))
    }
}

} // verus!
