//! The PaXoS solver: probe-and-XOR of strings over a cuckoo graph.
//!
//! A code vector is the concatenation `L || R`. A key `x` probes two cells of
//! `L`, chosen by two keyed hashes, and the cells of `R` chosen by the bits of
//! a third keyed hash; the sum of the probed cells is the value stored for `x`.

pub mod first_pass;
pub mod graph;
pub mod loops;
pub mod second_pass;
pub mod tangle;

use crate::error::Error;
use crate::field::{field_bytes, gf_add, lemma_add_cancel, lemma_add_laws, F128b};
use crate::hash_utils::{
    sha256, sha256_digest, u64_be_bytes, u64_from_be, u64_from_be_bytes, u64_to_be,
};
use crate::random::{random_fields, random_u64};
use crate::solver::gaussian_eliminations::row::{
    inner_product, inner_upto, lemma_inner_agree, lemma_inner_set_bit,
};
use crate::solver::gaussian_eliminations::independence::{
    colsum, lemma_colsum_agree, lemma_colsum_zero, lemma_too_many_rows, picks, vanishes,
};
use crate::solver::gaussian_eliminations::{
    bits_of, equations_system, gaussian_elimination, is_reduced, matrix_error, satisfies,
    system_of,
};
use crate::solver::paxos::first_pass::{
    dfs_to_find_constraints, lemma_dependent_rows_tangle, lemma_tangle_dependent_rows,
};
use crate::solver::paxos::second_pass::dfs_to_calc_vec_l;
use crate::solver::paxos::graph::CuckooGraph;
use crate::solver::paxos::loops::{lemma_graph_loops, loops};
use crate::solver::SolverParams;
use rand::rngs::StdRng;
use vstd::arithmetic::power2::{lemma2_to64, lemma2_to64_rest, lemma_pow2_unfold, pow2};
use vstd::prelude::*;
use vstd::slice::slice_subrange;

verus! {

/// The three hash seeds `(k1, k2, k3)` shared by encoder and decoder.
pub type PaxosAux = (u64, u64, u64);

/// The keyed 64-bit hash of an element: the leading eight digest bytes of
/// the seed's big-endian bytes followed by the element's bytes.
pub open spec fn index_hash(k: u64, x: F128b) -> u64 {
    u64_from_be_bytes(sha256_digest(u64_be_bytes(k) + field_bytes(x)).subrange(0, 8))
}

/// The cell of `[0, max)` that the keyed hash sends an element to.
pub open spec fn hash2index_spec(k: u64, x: F128b, max: usize) -> int {
    ((index_hash(k, x) as usize) % max) as int
}

/// Bit `i` of a byte, counted from the least significant.
pub open spec fn byte_bit(b: u8, i: u8) -> bool {
    b & (1u8 << i) != 0
}

/// The first `m` digest bits of seed and element, least significant bit of
/// each byte first; a digest has 256 bits, so no more than those.
pub open spec fn r_bits(k: u64, x: F128b, m: usize) -> Seq<bool> {
    let digest = sha256_digest(u64_be_bytes(k) + field_bytes(x));
    Seq::new(
        if m < 256 {
            m as nat
        } else {
            256
        },
        |i: int| byte_bit(digest[i / 8], (i % 8) as u8),
    )
}

fn keyed_digest(k: u64, x: F128b) -> (digest: Vec<u8>)
    ensures
        digest@ == sha256_digest(u64_be_bytes(k) + field_bytes(x)),
        digest@.len() == 32,
{
    let mut data = u64_to_be(k);
    let mut tail = x.to_bytes();
    data.append(&mut tail);
    sha256(data.as_slice())
}

/// `H_i: key x F -> [max]`.
pub fn hash2index(k: u64, x: F128b, max: usize) -> (i: usize)
    requires
        max > 0,
    ensures
        i == hash2index_spec(k, x, max),
        i < max,
{
    let digest = keyed_digest(k, x);
    let res = u64_from_be(slice_subrange(digest.as_slice(), 0, 8));
    (#[verifier::truncate] (res as usize)) % max
}

/// `r: key x F -> {0, 1}^m`.
pub fn r(k: u64, x: F128b, m: usize) -> (bits: Vec<bool>)
    ensures
        bits@ == r_bits(k, x, m),
{
    let digest = keyed_digest(k, x);
    let n: usize = if m < 256 {
        m
    } else {
        256
    };
    let mut bits: Vec<bool> = Vec::with_capacity(n);
    let mut i: usize = 0;
    while i < n
        invariant
            i <= n <= 256,
            digest@.len() == 32,
            bits@.len() == i,
            forall|c: int| 0 <= c < i ==> bits@[c] == byte_bit(digest@[c / 8], (c % 8) as u8),
        decreases n - i,
    {
        let shift: u8 = (i % 8) as u8;
        bits.push(digest[i / 8] & (1u8 << shift) != 0);
        i = i + 1;
    }
    assert(bits@ =~= r_bits(k, x, m));
    bits
}

pub(crate) fn calc_r_inner_product(x: F128b, vec_r: &[F128b], k3: u64, r_size: usize) -> (sum: F128b)
    requires
        r_size <= vec_r@.len() || 256 <= vec_r@.len(),
    ensures
        sum == inner_product(r_bits(k3, x, r_size), vec_r@),
{
    let bits = r(k3, x, r_size);
    let mut sum = F128b::zero();
    let mut i: usize = 0;
    while i < bits.len()
        invariant
            i <= bits@.len() <= vec_r@.len(),
            sum == inner_upto(bits@, vec_r@, i as int),
        decreases bits@.len() - i,
    {
        if bits[i] {
            sum = sum.plus(vec_r[i]);
        }
        i = i + 1;
    }
    sum
}

/// The least `k` with `n <= 2^k`.
pub open spec fn ceil_log2(n: nat) -> nat
    decreases n,
{
    if n <= 1 {
        0
    } else {
        1 + ceil_log2((n / 2 + n % 2) as nat)
    }
}

/// `ceil_log2(n)` is an exponent that reaches `n`, and the one below does not.
pub proof fn lemma_ceil_log2_is_least(n: nat)
    ensures
        n <= pow2(ceil_log2(n)),
        ceil_log2(n) > 0 ==> pow2((ceil_log2(n) - 1) as nat) < n,
    decreases n,
{
    lemma2_to64();
    if n > 1 {
        let h = (n / 2 + n % 2) as nat;
        lemma_ceil_log2_is_least(h);
        lemma_pow2_unfold(ceil_log2(n));
        if ceil_log2(h) > 0 {
            lemma_pow2_unfold(ceil_log2(h));
        }
    }
}

/// The exponent is at most `e` for numbers up to `2^e`.
pub proof fn lemma_ceil_log2_bound(n: nat, e: nat)
    requires
        n <= pow2(e),
    ensures
        ceil_log2(n) <= e,
    decreases n,
{
    lemma2_to64();
    if n > 1 {
        if e == 0 {
        } else {
            lemma_pow2_unfold(e);
            lemma_ceil_log2_bound((n / 2 + n % 2) as nat, (e - 1) as nat);
        }
    }
}

/// Sizes of the two parts of a PaXoS code vector.
#[derive(Clone, Copy)]
pub struct PaxosSolverParams {
    l_size: usize,
    r_size: usize,
}

impl PaxosSolverParams {
    /// Number of left cells.
    pub closed spec fn left(&self) -> usize {
        self.l_size
    }

    /// Number of right cells.
    pub closed spec fn right(&self) -> usize {
        self.r_size
    }

    #[verifier::type_invariant]
    spec fn fits(&self) -> bool {
        self.l_size + self.r_size <= usize::MAX && self.r_size <= 256
    }

    /// Number of left cells.
    pub fn l_size(&self) -> (l: usize)
        ensures
            l == self.left(),
            l + self.right() <= usize::MAX,
    {
        proof {
            use_type_invariant(self);
        }
        self.l_size
    }

    /// Number of right cells.
    pub fn r_size(&self) -> (r: usize)
        ensures
            r == self.right(),
            r <= 256,
            self.left() + r <= usize::MAX,
    {
        proof {
            use_type_invariant(self);
        }
        self.r_size
    }
}

impl SolverParams for PaxosSolverParams {
    open spec fn spec_code_length(&self) -> nat {
        (self.left() + self.right()) as nat
    }

    fn code_length(&self) -> (m: usize) {
        proof {
            use_type_invariant(self);
        }
        self.l_size + self.r_size
    }
}

/// The number of left cells for `n` points: `2n + floor(n / 100)`.
pub open spec fn left_cells(n: nat) -> nat {
    2 * n + n / 100
}

/// The number of right cells for `n` points: `ceil(log2 n) + 40`.
pub open spec fn right_cells(n: nat) -> nat {
    ceil_log2(n) + 40
}

fn ceil_log2_of(n: usize) -> (k: usize)
    ensures
        k == ceil_log2(n as nat),
        k <= 64,
{
    let mut m: usize = n;
    let mut k: usize = 0;
    proof {
        lemma2_to64();
        lemma2_to64_rest();
        lemma_ceil_log2_bound(n as nat, 64);
    }
    while m > 1
        invariant
            k + ceil_log2(m as nat) == ceil_log2(n as nat),
            ceil_log2(n as nat) <= 64,
        decreases m,
    {
        m = m / 2 + m % 2;
        k = k + 1;
    }
    k
}

/// The value that a code vector holds for `x`:
/// `P[h1(x)] + P[h2(x)] + <r(x), R>`.
pub open spec fn decode_spec(p: Seq<F128b>, x: F128b, aux: PaxosAux, params: PaxosSolverParams) -> F128b {
    let i = hash2index_spec(aux.0, x, params.left());
    let j = hash2index_spec(aux.1, x, params.left());
    gf_add(
        gf_add(p[i], p[j]),
        inner_product(r_bits(aux.2, x, params.right()), p.skip(params.left() as int)),
    )
}

/// The parameters for `n` points: as many left and right cells as
/// [`left_cells`] and [`right_cells`] give.
pub closed spec fn params_of(n: nat) -> PaxosSolverParams {
    PaxosSolverParams { l_size: left_cells(n) as usize, r_size: right_cells(n) as usize }
}

/// The cells of the parameters for `n` points, where their number fits.
pub proof fn lemma_params_of(n: nat)
    requires
        left_cells(n) + right_cells(n) <= usize::MAX,
    ensures
        params_of(n).left() == left_cells(n),
        params_of(n).right() == right_cells(n),
{
}

/// The PaXoS solver.
pub struct PaxosSolver;

impl PaxosSolver {
    /// Draws three fresh hash seeds.
    pub fn gen_aux(rng: &mut StdRng) -> (aux: Result<PaxosAux, Error>)
        ensures
            aux is Ok,
    {
        let k1 = random_u64(rng);
        let k2 = random_u64(rng);
        let k3 = random_u64(rng);
        Ok((k1, k2, k3))
    }

    /// The parameters for `n` points.
    pub fn calc_params(n: usize) -> (params: PaxosSolverParams)
        requires
            left_cells(n as nat) + right_cells(n as nat) <= usize::MAX,
        ensures
            params == params_of(n as nat),
            params.left() == left_cells(n as nat),
            params.right() == right_cells(n as nat),
    {
        let l_size = 2 * n + n / 100;
        let logn = ceil_log2_of(n);
        let r_size = logn + 40;
        PaxosSolverParams { l_size, r_size }
    }

    /// Reads the value stored for `x`. The vector must have the length that
    /// the parameters give, or more, of which only the cells of that length
    /// are read; and there must be a left cell.
    pub fn decode(p: &[F128b], x: F128b, aux: PaxosAux, params: PaxosSolverParams) -> (y: Result<
        F128b,
        Error,
    >)
        ensures
            params.left() > 0 && p@.len() >= params.spec_code_length() ==> y == Ok::<F128b, Error>(
                decode_spec(p@, x, aux, params),
            ),
            !(params.left() > 0 && p@.len() >= params.spec_code_length()) ==> y == Err::<
                F128b,
                Error,
            >(Error::InvariantViolation),
    {
        let (k1, k2, k3) = aux;
        let l_size = params.l_size();
        let r_size = params.r_size();
        if l_size == 0 || p.len() < l_size + r_size {
            return Err(Error::InvariantViolation);
        }
        let i = hash2index(k1, x, l_size);
        let j = hash2index(k2, x, l_size);
        let l1 = p[i];
        let l2 = p[j];
        let vec_r = slice_subrange(p, l_size, p.len());
        assert(vec_r@ =~= p@.skip(l_size as int));
        let inner = calc_r_inner_product(x, vec_r, k3, r_size);
        Ok(l1.plus(l2).plus(inner))
    }
}

/// Whether one of the two hashes sends the key of some point to left cell `i`.
pub open spec fn cell_hit(
    points: Seq<(F128b, F128b)>,
    keys: PaxosAux,
    params: PaxosSolverParams,
    i: int,
) -> bool {
    exists|k: int|
        0 <= k < points.len() && (hash2index_spec(keys.0, (#[trigger] points[k]).0, params.left())
            == i || hash2index_spec(keys.1, points[k].0, params.left()) == i)
}

/// Whether a graph is the cuckoo graph of the points: edge `k` carries point
/// `k` and joins the nodes of its two hash cells, and only cells that a
/// point is hashed to have a node.
pub open spec fn matches_points(
    g: CuckooGraph,
    points: Seq<(F128b, F128b)>,
    keys: PaxosAux,
    params: PaxosSolverParams,
) -> bool {
    &&& g.l_size == params.left()
    &&& g.r_size == params.right()
    &&& g.edges@.len() == points.len()
    &&& forall|k: int|
        0 <= k < points.len() ==> {
            let e = #[trigger] g.edges@[k];
            &&& e.point == points[k]
            &&& g.cell(e.u as int) == hash2index_spec(keys.0, points[k].0, params.left())
            &&& g.cell(e.v as int) == hash2index_spec(keys.1, points[k].0, params.left())
        }
    &&& forall|i: int|
        0 <= i < g.l_size && (#[trigger] g.slots@[i]) is Some ==> cell_hit(points, keys, params, i)
}

/// Builds the cuckoo graph of the points.
pub fn construct_cuckoo_graph(
    points: &[(F128b, F128b)],
    keys: PaxosAux,
    params: PaxosSolverParams,
) -> (g: CuckooGraph)
    requires
        points@.len() > 0 ==> params.left() > 0,
    ensures
        g.wf(),
        g.fresh(),
        matches_points(g, points@, keys, params),
{
    let (k1, k2, _) = keys;
    let m = params.l_size();
    let r_size = params.r_size();
    let mut g = CuckooGraph::new(m, r_size);
    let mut idx: usize = 0;
    while idx < points.len()
        invariant
            idx <= points@.len(),
            points@.len() > 0 ==> m > 0,
            m == params.left(),
            keys == (k1, k2, keys.2),
            g.wf(),
            g.fresh(),
            matches_points(g, points@.subrange(0, idx as int), keys, params),
        decreases points@.len() - idx,
    {
        let point = points[idx];
        let x = point.0;
        let i = hash2index(k1, x, m);
        let j = hash2index(k2, x, m);
        let ghost g0 = g;
        let a = g.upsert_node(i);
        let b = g.upsert_node(j);
        let ghost g1 = g;
        g.add_edge(a, b, point);
        proof {
            let prefix = points@.subrange(0, idx as int);
            let next = points@.subrange(0, idx + 1);
            assert forall|k: int| 0 <= k < next.len() implies {
                let e = #[trigger] g.edges@[k];
                &&& e.point == next[k]
                &&& g.cell(e.u as int) == hash2index_spec(keys.0, next[k].0, params.left())
                &&& g.cell(e.v as int) == hash2index_spec(keys.1, next[k].0, params.left())
            } by {
                if k < idx {
                    let e = g0.edges@[k];
                    assert(e.point == prefix[k]);
                    assert(g0.edge_wf(k));
                    assert(g1.edges@[k] == e);
                    assert(g.nodes@[e.u as int].id == g1.nodes@[e.u as int].id);
                    assert(g.nodes@[e.v as int].id == g1.nodes@[e.v as int].id);
                } else {
                    assert(g.nodes@[a as int].id == g1.nodes@[a as int].id);
                    assert(g.nodes@[b as int].id == g1.nodes@[b as int].id);
                }
            }
            assert forall|c: int| 0 <= c < g.l_size && (#[trigger] g.slots@[c]) is Some implies cell_hit(
                next,
                keys,
                params,
                c,
            ) by {
                if c == i || c == j {
                    let _ = next[idx as int];
                    assert(hash2index_spec(keys.0, next[idx as int].0, params.left()) == c
                        || hash2index_spec(keys.1, next[idx as int].0, params.left()) == c);
                } else {
                    assert(g0.slots@[c] is Some);
                    assert(cell_hit(prefix, keys, params, c));
                    let k = choose|k: int|
                        0 <= k < prefix.len() && (hash2index_spec(
                            keys.0,
                            (#[trigger] prefix[k]).0,
                            params.left(),
                        ) == c || hash2index_spec(keys.1, prefix[k].0, params.left()) == c);
                    assert(next[k] == prefix[k]);
                }
            }
        }
        idx = idx + 1;
    }
    assert(points@.subrange(0, idx as int) =~= points@);
    g
}

/// One equation solved for its pivot: the pivot cell becomes the target plus
/// the other cells that the equation selects.
pub open spec fn adjust_step(r: Seq<F128b>, pivot: int, bits: Seq<bool>, target: F128b) -> Seq<F128b> {
    r.update(pivot, gf_add(target, inner_product(without_bit(bits, pivot), r)))
}

/// The bit vector with bit `pivot` cleared.
pub open spec fn without_bit(bits: Seq<bool>, pivot: int) -> Seq<bool> {
    Seq::new(bits.len(), |c: int| c != pivot && bits[c])
}

/// The right part after the first `n` equations were solved in turn.
pub open spec fn adjusted(eqs: Seq<(usize, Vec<bool>, F128b)>, r: Seq<F128b>, n: int) -> Seq<F128b>
    decreases n,
{
    if n <= 0 {
        r
    } else {
        adjust_step(adjusted(eqs, r, n - 1), eqs[n - 1].0 as int, eqs[n - 1].1@, eqs[n - 1].2)
    }
}

/// Solving keeps the length of the right part.
pub proof fn lemma_adjusted_len(eqs: Seq<(usize, Vec<bool>, F128b)>, r: Seq<F128b>, n: int)
    requires
        n <= eqs.len(),
        forall|t: int| 0 <= t < eqs.len() ==> (#[trigger] eqs[t]).0 < r.len(),
    ensures
        adjusted(eqs, r, n).len() == r.len(),
    decreases n,
{
    if n > 0 {
        lemma_adjusted_len(eqs, r, n - 1);
    }
}

/// Solving reduced equations in turn satisfies all of them, and changes the
/// right part at pivot cells only.
pub proof fn lemma_adjusted_satisfies(eqs: Seq<(usize, Vec<bool>, F128b)>, r: Seq<F128b>, n: int)
    requires
        0 <= n <= eqs.len(),
        is_reduced(eqs, r.len() as int),
    ensures
        adjusted(eqs, r, n).len() == r.len(),
        forall|t: int|
            0 <= t < n ==> inner_product((#[trigger] eqs[t]).1@, adjusted(eqs, r, n)) == eqs[t].2,
        forall|c: int|
            0 <= c < r.len() && (forall|t: int| 0 <= t < n ==> (#[trigger] eqs[t]).0 != c)
                ==> adjusted(eqs, r, n)[c] == r[c],
    decreases n,
{
    if n > 0 {
        lemma_adjusted_satisfies(eqs, r, n - 1);
        let m = r.len() as int;
        let prev = adjusted(eqs, r, n - 1);
        let next = adjusted(eqs, r, n);
        let pivot = eqs[n - 1].0 as int;
        let bits = eqs[n - 1].1@;
        let target = eqs[n - 1].2;
        let cleared = without_bit(bits, pivot);
        let rest = inner_product(cleared, prev);
        assert(cleared =~= bits.update(pivot, false));
        assert(next == prev.update(pivot, gf_add(target, rest)));
        assert forall|t: int| 0 <= t < n implies inner_product((#[trigger] eqs[t]).1@, next)
            == eqs[t].2 by {
            if t < n - 1 {
                assert(!eqs[t].1@[eqs[n - 1].0 as int]);
                lemma_inner_agree(eqs[t].1@, eqs[t].1@, prev, next, m);
            } else {
                lemma_inner_set_bit(bits, next, pivot, m);
                lemma_inner_agree(cleared, cleared, prev, next, m);
                lemma_add_laws(rest, target, rest);
                lemma_add_cancel(target, rest);
            }
        }
        assert forall|c: int|
            0 <= c < r.len() && (forall|t: int| 0 <= t < n ==> (#[trigger] eqs[t]).0 != c) implies next[c]
            == r[c] by {
            let _ = eqs[n - 1];
            assert(forall|t: int| 0 <= t < n - 1 ==> (#[trigger] eqs[t]).0 != c);
        }
    }
}

/// Solves each equation for its pivot cell, in turn, and stores the value in
/// the right part.
pub fn adjust_vec_r(equations: &[(usize, Vec<bool>, F128b)], vec_r: &mut Vec<F128b>)
    requires
        forall|t: int|
            0 <= t < equations@.len() ==> (#[trigger] equations@[t]).0 < old(vec_r)@.len()
                && equations@[t].1@.len() <= old(vec_r)@.len(),
    ensures
        final(vec_r)@ == adjusted(equations@, old(vec_r)@, equations@.len() as int),
        final(vec_r)@.len() == old(vec_r)@.len(),
{
    let ghost start = vec_r@;
    let mut t: usize = 0;
    while t < equations.len()
        invariant
            t <= equations@.len(),
            vec_r@.len() == start.len(),
            vec_r@ == adjusted(equations@, start, t as int),
            forall|s: int|
                0 <= s < equations@.len() ==> (#[trigger] equations@[s]).0 < start.len()
                    && equations@[s].1@.len() <= start.len(),
        decreases equations@.len() - t,
    {
        let pivot = equations[t].0;
        let target = equations[t].2;
        let ghost bits = equations@[t as int].1@;
        let ghost cleared = without_bit(bits, pivot as int);
        let n_bits = equations[t].1.len();
        let mut sum = target;
        let mut j: usize = 0;
        proof {
            lemma_add_laws(target, F128b(0), F128b(0));
        }
        while j < n_bits
            invariant
                j <= n_bits,
                n_bits == bits.len(),
                n_bits <= vec_r@.len(),
                t < equations@.len(),
                bits == equations@[t as int].1@,
                cleared == without_bit(bits, pivot as int),
                sum == gf_add(target, inner_upto(cleared, vec_r@, j as int)),
            decreases n_bits - j,
        {
            if pivot != j && equations[t].1[j] {
                proof {
                    lemma_add_laws(target, inner_upto(cleared, vec_r@, j as int), vec_r@[j as int]);
                }
                sum = sum.plus(vec_r[j]);
            }
            j = j + 1;
        }
        proof {
            lemma_adjusted_len(equations@, start, t as int);
        }
        vec_r[pivot] = sum;
        t = t + 1;
    }
}

/// For every point, the bits that select its right cells.
pub open spec fn point_rows(
    points: Seq<(F128b, F128b)>,
    aux: PaxosAux,
    params: PaxosSolverParams,
) -> Seq<Seq<bool>> {
    Seq::new(points.len(), |k: int| r_bits(aux.2, points[k].0, params.right()))
}

/// For every point, the left cells that it probes once: its two hash
/// cells, unless they are one.
pub open spec fn point_cells(
    points: Seq<(F128b, F128b)>,
    aux: PaxosAux,
    params: PaxosSolverParams,
) -> Seq<Seq<bool>> {
    Seq::new(
        points.len(),
        |k: int|
            Seq::new(
                params.left() as nat,
                |i: int|
                    (hash2index_spec(aux.0, points[k].0, params.left()) == i) != (hash2index_spec(
                        aux.1,
                        points[k].0,
                        params.left(),
                    ) == i),
            ),
    )
}

/// Whether the points are tangled under the seeds: some of them, at least
/// one, probe every left cell an even number of times and select every
/// right cell an even number of times. Whatever the code vector, the values
/// that it holds for such points sum to zero
/// ([`tangle::lemma_tangle_cancels`]).
pub open spec fn tangled(
    points: Seq<(F128b, F128b)>,
    aux: PaxosAux,
    params: PaxosSolverParams,
) -> bool {
    exists|sel: Seq<bool>|
        {
            &&& sel.len() == points.len()
            &&& picks(sel)
            &&& #[trigger] vanishes(point_cells(points, aux, params), sel, params.left() as int)
            &&& vanishes(point_rows(points, aux, params), sel, params.right() as int)
        }
}

/// A graph stays the cuckoo graph of the points while its arena stays.
pub proof fn lemma_matches_kept(
    old: CuckooGraph,
    new: CuckooGraph,
    points: Seq<(F128b, F128b)>,
    aux: PaxosAux,
    params: PaxosSolverParams,
)
    requires
        old.wf(),
        matches_points(old, points, aux, params),
        new.same_arena(old),
    ensures
        matches_points(new, points, aux, params),
{
    assert forall|k: int| 0 <= k < points.len() implies {
        let e = #[trigger] new.edges@[k];
        &&& e.point == points[k]
        &&& new.cell(e.u as int) == hash2index_spec(aux.0, points[k].0, params.left())
        &&& new.cell(e.v as int) == hash2index_spec(aux.1, points[k].0, params.left())
    } by {
        let e = old.edges@[k];
        assert(old.edge_wf(k));
        let _ = new.nodes@[e.u as int];
        let _ = new.nodes@[e.v as int];
    }
    assert forall|i: int| 0 <= i < new.l_size && (#[trigger] new.slots@[i]) is Some implies cell_hit(
        points,
        aux,
        params,
        i,
    ) by {
        assert(old.slots@[i] is Some);
    }
}

/// A tangled cuckoo graph comes from tangled points.
pub proof fn lemma_tangled_graph_points(
    g: CuckooGraph,
    points: Seq<(F128b, F128b)>,
    aux: PaxosAux,
    params: PaxosSolverParams,
)
    requires
        g.wf(),
        matches_points(g, points, aux, params),
        g.k3@ == aux.2,
        g.tangled(),
    ensures
        tangled(points, aux, params),
{
    let n = points.len() as int;
    let sel = choose|sel: Seq<bool>|
        {
            &&& sel.len() == g.edges@.len()
            &&& picks(sel)
            &&& #[trigger] vanishes(g.inc(), sel, g.nodes@.len() as int)
            &&& vanishes(g.lbits(), sel, g.r_size as int)
        };
    let cells = point_cells(points, aux, params);
    let rows = point_rows(points, aux, params);
    assert(g.nodes.len() == g.nodes@.len());
    assert forall|i: int| 0 <= i < params.left() implies !#[trigger] colsum(cells, sel, i, n) by {
        assert(g.slot_ok(i));
        match g.slots@[i] {
            Some(w) => {
                let w = w as int;
                assert forall|k: int| 0 <= k < n implies (sel[k] && cells[k][i]) == (sel[k]
                    && g.inc()[k][w]) by {
                    let e = g.edges@[k];
                    assert(g.edge_wf(k));
                    assert(g.node_wf(e.u as int));
                    assert(g.node_wf(e.v as int));
                    assert(g.node_wf(w));
                }
                lemma_colsum_agree(cells, sel, g.inc(), sel, i, w, n);
                assert(!colsum(g.inc(), sel, w, g.inc().len() as int));
            },
            None => {
                let none = Seq::new(sel.len(), |k: int| false);
                assert forall|k: int| 0 <= k < n implies (sel[k] && cells[k][i]) == (none[k]
                    && cells[k][i]) by {
                    let e = g.edges@[k];
                    assert(g.edge_wf(k));
                    assert(g.node_wf(e.u as int));
                    assert(g.node_wf(e.v as int));
                }
                lemma_colsum_agree(cells, sel, cells, none, i, i, n);
                lemma_colsum_zero(cells, none, i, n);
            },
        }
    }
    assert forall|b: int| 0 <= b < params.right() implies !#[trigger] colsum(rows, sel, b, n) by {
        assert forall|k: int| 0 <= k < n implies (sel[k] && rows[k][b]) == (sel[k] && g.lbits()[k][b]) by {
            let _ = g.edges@[k];
        }
        lemma_colsum_agree(rows, sel, g.lbits(), sel, b, b, n);
        assert(!colsum(g.lbits(), sel, b, g.lbits().len() as int));
    }
    assert(vanishes(cells, sel, params.left() as int));
    assert(vanishes(rows, sel, params.right() as int));
}

/// Tangled points give a tangled cuckoo graph.
pub proof fn lemma_tangled_points_graph(
    g: CuckooGraph,
    points: Seq<(F128b, F128b)>,
    aux: PaxosAux,
    params: PaxosSolverParams,
)
    requires
        g.wf(),
        matches_points(g, points, aux, params),
        g.k3@ == aux.2,
        tangled(points, aux, params),
    ensures
        g.tangled(),
{
    let n = points.len() as int;
    let sel = choose|sel: Seq<bool>|
        {
            &&& sel.len() == points.len()
            &&& picks(sel)
            &&& #[trigger] vanishes(point_cells(points, aux, params), sel, params.left() as int)
            &&& vanishes(point_rows(points, aux, params), sel, params.right() as int)
        };
    let cells = point_cells(points, aux, params);
    let rows = point_rows(points, aux, params);
    assert(g.nodes.len() == g.nodes@.len());
    assert forall|w: int| 0 <= w < g.nodes@.len() implies !#[trigger] colsum(g.inc(), sel, w, n) by {
        assert(g.node_wf(w));
        let i = g.cell(w);
        assert forall|k: int| 0 <= k < n implies (sel[k] && cells[k][i]) == (sel[k]
            && g.inc()[k][w]) by {
            let e = g.edges@[k];
            assert(g.edge_wf(k));
            assert(g.node_wf(e.u as int));
            assert(g.node_wf(e.v as int));
        }
        lemma_colsum_agree(cells, sel, g.inc(), sel, i, w, n);
        assert(!colsum(cells, sel, i, cells.len() as int));
    }
    assert forall|b: int| 0 <= b < g.r_size implies !#[trigger] colsum(g.lbits(), sel, b, n) by {
        assert forall|k: int| 0 <= k < n implies (sel[k] && rows[k][b]) == (sel[k] && g.lbits()[k][b]) by {
            let _ = g.edges@[k];
        }
        lemma_colsum_agree(rows, sel, g.lbits(), sel, b, b, n);
        assert(!colsum(rows, sel, b, rows.len() as int));
    }
    assert(g.inc().len() == n);
    assert(g.lbits().len() == n);
    assert(vanishes(g.inc(), sel, g.nodes@.len() as int));
    assert(vanishes(g.lbits(), sel, g.r_size as int));
}

/// Whether the code vector holds, for every point, the point's value.
pub open spec fn decodes_points(
    p: Seq<F128b>,
    points: Seq<(F128b, F128b)>,
    aux: PaxosAux,
    params: PaxosSolverParams,
) -> bool {
    forall|k: int|
        0 <= k < points.len() ==> decode_spec(p, (#[trigger] points[k]).0, aux, params) == points[k].1
}

/// Whether sampled parts of these lengths can be encoded into at all: the
/// lengths are those of the parameters, and there is a left cell to hash to
/// if there is a point.
pub open spec fn encodable(
    n_points: nat,
    params: PaxosSolverParams,
    l_len: nat,
    r_len: nat,
) -> bool {
    &&& n_points > 0 ==> params.left() > 0
    &&& l_len == params.left()
    &&& r_len == params.right()
}

/// What is drawn for one attempt to encode: the seeds and the samples of
/// both parts of the code vector.
pub struct Attempt {
    pub aux: PaxosAux,
    pub vec_l: Vec<F128b>,
    pub vec_r: Vec<F128b>,
}

impl Attempt {
    /// Whether the attempt encodes the points: its parts have the lengths
    /// of the parameters, and the points are not tangled under its seeds.
    pub open spec fn succeeds(&self, points: Seq<(F128b, F128b)>, params: PaxosSolverParams) -> bool {
        encodable(points.len(), params, self.vec_l@.len(), self.vec_r@.len()) && !tangled(
            points,
            self.aux,
            params,
        )
    }

    /// The error of an attempt that does not encode the points.
    pub open spec fn error(&self, points: Seq<(F128b, F128b)>, params: PaxosSolverParams) -> Error {
        if !encodable(points.len(), params, self.vec_l@.len(), self.vec_r@.len()) {
            Error::InvariantViolation
        } else if loops(points, self.aux, params) > params.right() {
            Error::SolverTooManyConstraints
        } else {
            Error::SolverNoSolution
        }
    }

    /// Whether `p` is a code vector that the attempt may give: it has the
    /// code length, holds every point's value under the attempt's seeds,
    /// and keeps the attempt's samples in the left cells that no point is
    /// hashed to.
    pub open spec fn gives(
        &self,
        points: Seq<(F128b, F128b)>,
        params: PaxosSolverParams,
        p: Seq<F128b>,
    ) -> bool {
        &&& p.len() == params.spec_code_length()
        &&& decodes_points(p, points, self.aux, params)
        &&& forall|i: int|
            0 <= i < params.left() && !cell_hit(points, self.aux, params, i) ==> #[trigger] p[i]
                == self.vec_l@[i]
        &&& points.len() == 0 ==> p == self.vec_l@ + self.vec_r@
    }
}

impl PaxosSolver {
    /// Encodes the points into sampled left and right parts.
    ///
    /// The encoding succeeds exactly if the parts have the lengths of the
    /// parameters and the points are not tangled under the seeds. The result
    /// then has the code length and decodes, at the key of every point, to
    /// the point's value; left cells that no point is hashed to keep their
    /// sampled values. On tangled points the encoding fails with
    /// `SolverTooManyConstraints` exactly if the points have more
    /// independent loops than there are right cells, which cannot happen
    /// with no more points than right cells, and else with
    /// `SolverNoSolution`.
    pub fn encode_from(
        points: &[(F128b, F128b)],
        aux: PaxosAux,
        params: PaxosSolverParams,
        vec_l: Vec<F128b>,
        vec_r: Vec<F128b>,
    ) -> (res: Result<Vec<F128b>, Error>)
        ensures
            !encodable(points@.len(), params, vec_l@.len(), vec_r@.len()) <==> res == Err::<
                Vec<F128b>,
                Error,
            >(Error::InvariantViolation),
            res is Ok <==> encodable(points@.len(), params, vec_l@.len(), vec_r@.len()) && !tangled(
                points@,
                aux,
                params,
            ),
            res == Err::<Vec<F128b>, Error>(Error::SolverTooManyConstraints) <==> encodable(
                points@.len(),
                params,
                vec_l@.len(),
                vec_r@.len(),
            ) && loops(points@, aux, params) > params.right(),
            match res {
                Ok(p) => {
                    &&& p@.len() == params.spec_code_length()
                    &&& decodes_points(p@, points@, aux, params)
                    &&& forall|i: int|
                        0 <= i < params.left() && !cell_hit(points@, aux, params, i) ==> #[trigger] p@[i]
                            == vec_l@[i]
                    &&& points@.len() == 0 ==> p@ == vec_l@ + vec_r@
                },
                Err(e) => {
                    &&& e == Error::InvariantViolation || e == Error::SolverTooManyConstraints || e
                        == Error::SolverNoSolution
                    &&& e == Error::SolverTooManyConstraints ==> points@.len() > params.right()
                    &&& e != Error::InvariantViolation ==> points@.len() > 0
                },
            },
    {
        let ghost l0 = vec_l@;
        let ghost r0 = vec_r@;
        let l_size = params.l_size();
        let r_size = params.r_size();
        if (points.len() > 0 && l_size == 0) || vec_l.len() != l_size || vec_r.len() != r_size {
            return Err(Error::InvariantViolation);
        }
        let mut vec_l = vec_l;
        let mut vec_r = vec_r;

        // The cuckoo graph of the points.
        let mut graph = construct_cuckoo_graph(points, aux, params);
        let ghost built = graph;

        // First pass: one constraint on the right part per back edge.
        let constraints = dfs_to_find_constraints(&mut graph, aux, params);
        let ghost rows = system_of(constraints@);
        proof {
            // There is one constraint for every independent loop.
            lemma_matches_kept(built, graph, points@, aux, params);
            lemma_graph_loops(graph, points@, aux, params);
            assert(constraints@.len() == rows.len());
        }

        if constraints.len() > r_size {
            proof {
                // More constraints than right cells are dependent.
                let sel = lemma_too_many_rows(bits_of(rows), r_size as int);
                assert(vanishes(bits_of(rows), sel, r_size as int));
                lemma_dependent_rows_tangle(graph);
                lemma_tangled_graph_points(graph, points@, aux, params);
            }
            return Err(Error::SolverTooManyConstraints);
        }
        if constraints.len() > 0 {
            proof {
                assert(rows[0].0.len() == r_size);
                assert forall|t: int| 0 <= t < rows.len() implies (#[trigger] rows[t]).0.len()
                    == r_size by {
                    assert(graph.rows@[t].0.len() == r_size);
                }
                assert(matrix_error(rows) is None);
            }
            // Solve the constraints for the right part.
            match gaussian_elimination(constraints) {
                Err(e) => {
                    return Err(e);
                },
                Ok(None) => {
                    proof {
                        lemma_dependent_rows_tangle(graph);
                        lemma_matches_kept(built, graph, points@, aux, params);
                        lemma_tangled_graph_points(graph, points@, aux, params);
                    }
                    return Err(Error::SolverNoSolution);
                },
                Ok(Some(equations)) => {
                    proof {
                        assert forall|t: int| 0 <= t < equations@.len() implies (
                        #[trigger] equations@[t]).0 < vec_r@.len() && equations@[t].1@.len()
                            <= vec_r@.len() by {}
                        lemma_adjusted_satisfies(equations@, vec_r@, equations@.len() as int);
                    }
                    let ghost before = vec_r@;
                    adjust_vec_r(equations.as_slice(), &mut vec_r);
                    proof {
                        if tangled(points@, aux, params) {
                            lemma_matches_kept(built, graph, points@, aux, params);
                            lemma_tangled_points_graph(graph, points@, aux, params);
                            lemma_tangle_dependent_rows(graph);
                        }
                        let sys = equations_system(equations@);
                        assert forall|t: int| 0 <= t < sys.len() implies inner_product(
                            (#[trigger] sys[t]).0,
                            vec_r@,
                        ) == sys[t].1 by {
                            let _ = equations@[t];
                        }
                        assert(satisfies(sys, vec_r@));
                        assert(satisfies(rows, vec_r@));
                    }
                },
            }
        } else {
            proof {
                assert(satisfies(rows, vec_r@));
                if tangled(points@, aux, params) {
                    lemma_matches_kept(built, graph, points@, aux, params);
                    lemma_tangled_points_graph(graph, points@, aux, params);
                    lemma_tangle_dependent_rows(graph);
                }
            }
        }

        // Second pass: the left part, tree by tree.
        let ghost searched = graph;
        dfs_to_calc_vec_l(&mut graph, aux, params, vec_r.as_slice(), &mut vec_l);

        let ghost left = vec_l@;
        let ghost right = vec_r@;
        let mut result = vec_l;
        result.append(&mut vec_r);
        proof {
            assert(result@.skip(l_size as int) =~= right);
            assert forall|k: int| 0 <= k < points@.len() implies decode_spec(
                result@,
                (#[trigger] points@[k]).0,
                aux,
                params,
            ) == points@[k].1 by {
                let e = graph.edges@[k];
                assert(graph.edge_decodes(k, left, right));
                assert(graph.edge_wf(k));
                assert(graph.node_wf(e.u as int));
                assert(graph.node_wf(e.v as int));
            }
            assert forall|i: int|
                0 <= i < params.left() && !cell_hit(points@, aux, params, i) implies #[trigger] result@[i]
                == l0[i] by {
                assert(searched.cell_kept(i, l0, left));
                assert(built.slots@[i] is None);
            }
            if points@.len() == 0 {
                assert(result@ =~= l0 + r0);
            }
        }
        Ok(result)
    }

    /// Encodes the points: samples both parts of the code vector uniformly
    /// and fits them to the points as [`PaxosSolver::encode_from`] does.
    pub fn encode(
        rng: &mut StdRng,
        points: &[(F128b, F128b)],
        aux: PaxosAux,
        params: PaxosSolverParams,
    ) -> (res: Result<Vec<F128b>, Error>)
        ensures
            points@.len() > 0 && params.left() == 0 <==> res == Err::<Vec<F128b>, Error>(
                Error::InvariantViolation,
            ),
            res is Ok <==> (points@.len() > 0 ==> params.left() > 0) && !tangled(
                points@,
                aux,
                params,
            ),
            res == Err::<Vec<F128b>, Error>(Error::SolverTooManyConstraints) <==> (points@.len() > 0
                ==> params.left() > 0) && loops(points@, aux, params) > params.right(),
            match res {
                Ok(p) => {
                    &&& p@.len() == params.spec_code_length()
                    &&& decodes_points(p@, points@, aux, params)
                },
                Err(e) => {
                    &&& e == Error::InvariantViolation || e == Error::SolverTooManyConstraints || e
                        == Error::SolverNoSolution
                    &&& e == Error::SolverTooManyConstraints ==> points@.len() > params.right()
                    &&& e != Error::InvariantViolation ==> points@.len() > 0
                },
            },
    {
        let vec_l = random_fields(rng, params.l_size());
        let vec_r = random_fields(rng, params.r_size());
        PaxosSolver::encode_from(points, aux, params, vec_l, vec_r)
    }

    /// Encodes with the first seeds and sampled parts, and if that fails,
    /// with the second. Returns the seeds that succeeded with the code
    /// vector; if both attempts fail, the error of the second.
    pub fn encode_from_either(
        points: &[(F128b, F128b)],
        params: PaxosSolverParams,
        first: Attempt,
        second: Attempt,
    ) -> (res: Result<(PaxosAux, Vec<F128b>), Error>)
        ensures
            first.succeeds(points@, params) ==> (res matches Ok(found) && found.0 == first.aux
                && first.gives(points@, params, found.1@)),
            !first.succeeds(points@, params) && second.succeeds(points@, params) ==> (res matches Ok(
                found,
            ) && found.0 == second.aux && second.gives(points@, params, found.1@)),
            !first.succeeds(points@, params) && !second.succeeds(points@, params) ==> res == Err::<
                (PaxosAux, Vec<F128b>),
                Error,
            >(second.error(points@, params)),
            res matches Err(e) ==> {
                &&& e == Error::SolverTooManyConstraints ==> points@.len() > params.right()
                &&& e != Error::InvariantViolation ==> points@.len() > 0
            },
    {
        let Attempt { aux, vec_l, vec_r } = first;
        match PaxosSolver::encode_from(points, aux, params, vec_l, vec_r) {
            Ok(p) => Ok((aux, p)),
            Err(_) => {
                let Attempt { aux, vec_l, vec_r } = second;
                match PaxosSolver::encode_from(points, aux, params, vec_l, vec_r) {
                    Ok(p) => Ok((aux, p)),
                    Err(e) => Err(e),
                }
            },
        }
    }

    /// Encodes with fresh seeds, and once more with other seeds if the first
    /// attempt fails, as [`PaxosSolver::encode_from_either`] does. The seeds
    /// and the parts of both attempts are drawn beforehand. Returns the
    /// seeds that succeeded with the code vector.
    pub fn encode_with_retry(
        rng: &mut StdRng,
        points: &[(F128b, F128b)],
        params: PaxosSolverParams,
    ) -> (res: Result<(PaxosAux, Vec<F128b>), Error>)
        ensures
            points@.len() > 0 && params.left() == 0 <==> res == Err::<(PaxosAux, Vec<F128b>), Error>(
                Error::InvariantViolation,
            ),
            match res {
                Ok((aux, p)) => {
                    &&& p@.len() == params.spec_code_length()
                    &&& decodes_points(p@, points@, aux, params)
                    &&& !tangled(points@, aux, params)
                },
                Err(e) => {
                    &&& e == Error::InvariantViolation || e == Error::SolverTooManyConstraints || e
                        == Error::SolverNoSolution
                    &&& e == Error::SolverTooManyConstraints ==> points@.len() > params.right()
                    &&& e != Error::InvariantViolation ==> points@.len() > 0
                },
            },
    {
        let first = PaxosSolver::draw(rng, params);
        let second = PaxosSolver::draw(rng, params);
        PaxosSolver::encode_from_either(points, params, first, second)
    }

    /// Draws the seeds and the parts of one attempt.
    pub fn draw(rng: &mut StdRng, params: PaxosSolverParams) -> (attempt: Attempt)
        ensures
            attempt.vec_l@.len() == params.left(),
            attempt.vec_r@.len() == params.right(),
    {
        let aux = match PaxosSolver::gen_aux(rng) {
            Ok(aux) => aux,
            Err(_) => {
                assert(false);
                (0u64, 0u64, 0u64)
            },
        };
        let vec_l = random_fields(rng, params.l_size());
        let vec_r = random_fields(rng, params.r_size());
        Attempt { aux, vec_l, vec_r }
    }
}

} // verus!
