//! The separated oblivious pseudorandom function.
//!
//! Offline, both roles take their side of one VOLE correlation. Online, the
//! receiver encodes its queries, masks the code vector with its VOLE share
//! and sends it; the sender turns what it gets into a key vector. Both then
//! evaluate the same function at the receiver's queries.

use crate::cli_utils::SolverType;
use crate::error::Error;
use crate::field::{
    gf_add, gf_mul, lemma_add_cancel, lemma_add_interchange, lemma_add_laws, lemma_mul_distributes,
    F128b,
};
use crate::field_laws::lemma_mul_laws;
use crate::hash_utils::{hash, hash_f, hash_f_spec, hash_spec};
use crate::solver::vandelmode::{gf_pow, poly_eval_upto};
use crate::solver::gaussian_eliminations::row::{inner_product, inner_upto};
use crate::solver::paxos::{hash2index_spec, r_bits, PaxosAux, PaxosSolverParams};
use crate::solver::vandelmode::separable;
use crate::solver::{
    calc_params, code_length_for, decodable, decode, decode_spec, encode, holds_points, params_of,
    refuses, solvable, AuxInfo, Params, SolverParams,
};
use crate::vole::correlated;
use rand::rngs::StdRng;
use vstd::prelude::*;

verus! {

/// The sender's key vector: `K[i] = delta * A'[i] + B[i]`.
pub open spec fn key_vector(delta: F128b, a_dash: Seq<F128b>, b: Seq<F128b>) -> Seq<F128b> {
    Seq::new(b.len(), |i: int| gf_add(gf_mul(delta, a_dash[i]), b[i]))
}

/// The entrywise sum of a code vector and a VOLE share.
pub open spec fn masked(p: Seq<F128b>, a: Seq<F128b>) -> Seq<F128b> {
    Seq::new(p.len(), |i: int| gf_add(p[i], a[i]))
}

/// The points that the receiver encodes: every query with its hash.
pub open spec fn oprf_points(queries: Seq<F128b>) -> Seq<(F128b, F128b)> {
    Seq::new(queries.len(), |i: int| (queries[i], hash_f_spec(queries[i])))
}

/// The sender's function: `f(x) = H(decode(K, x) - delta * H_F(x), x)`.
pub open spec fn oprf_eval(k: Seq<F128b>, delta: F128b, aux: AuxInfo, params: Params, x: F128b) -> F128b {
    hash_spec(gf_add(decode_spec(k, x, aux, params), gf_mul(delta, hash_f_spec(x))), x)
}

/// The receiver's output at a query: `H(decode(C, x), x)`.
pub open spec fn oprf_output(c: Seq<F128b>, aux: AuxInfo, params: Params, x: F128b) -> F128b {
    hash_spec(decode_spec(c, x, aux, params), x)
}

/// The receiver's outputs: every query with the function's value.
pub open spec fn oprf_outputs(c: Seq<F128b>, aux: AuxInfo, params: Params, queries: Seq<F128b>) -> Seq<
    (F128b, F128b),
> {
    Seq::new(queries.len(), |i: int| (queries[i], oprf_output(c, aux, params, queries[i])))
}

/// The sender after the offline phase.
pub struct SepOprfSenderWithVole {
    params: Params,
    delta: F128b,
    vec_b: Vec<F128b>,
}

/// The receiver after the offline phase.
pub struct SepOprfReceiverWithVole {
    params: Params,
    vec_a: Vec<F128b>,
    vec_c: Vec<F128b>,
}

/// The sender's function after the online phase.
pub struct OprfKey {
    k: Vec<F128b>,
    delta: F128b,
    aux: AuxInfo,
    params: Params,
}

impl OprfKey {
    pub closed spec fn key(&self) -> Seq<F128b> {
        self.k@
    }

    pub closed spec fn delta(&self) -> F128b {
        self.delta
    }

    pub closed spec fn aux(&self) -> AuxInfo {
        self.aux
    }

    pub closed spec fn params(&self) -> Params {
        self.params
    }

    /// The value of the function at `x`.
    pub open spec fn value(&self, x: F128b) -> F128b {
        oprf_eval(self.key(), self.delta(), self.aux(), self.params(), x)
    }

    /// Whether the key vector can be decoded.
    pub open spec fn usable(&self) -> bool {
        decodable(self.key().len(), self.aux(), self.params())
    }

    /// Evaluates the function at `x`.
    pub fn eval(&self, x: F128b) -> (y: Result<F128b, Error>)
        ensures
            self.usable() ==> y == Ok::<F128b, Error>(self.value(x)),
            !self.usable() ==> y == Err::<F128b, Error>(Error::InvariantViolation),
    {
        let d = match decode(self.k.as_slice(), x, self.aux, self.params) {
            Ok(d) => d,
            Err(e) => {
                return Err(e);
            },
        };
        let hx = match hash_f(x) {
            Ok(h) => h,
            Err(e) => {
                return Err(e);
            },
        };
        let f_dash = d.minus(self.delta.times(hx));
        hash(f_dash, x)
    }
}

impl SepOprfSenderWithVole {
    pub closed spec fn params(&self) -> Params {
        self.params
    }

    /// The parameters that the offline phase fixed. The share has their
    /// code length.
    pub fn parameters(&self) -> (params: Params)
        ensures
            params == self.params(),
            self.share().len() == params.spec_code_length(),
    {
        proof {
            use_type_invariant(self);
        }
        self.params
    }

    pub closed spec fn delta(&self) -> F128b {
        self.delta
    }

    pub closed spec fn share(&self) -> Seq<F128b> {
        self.vec_b@
    }

    #[verifier::type_invariant]
    spec fn matched(&self) -> bool {
        self.vec_b@.len() == self.params.spec_code_length()
    }

    /// Takes the sender's side `(delta, B)` of a VOLE correlation for
    /// `query_num` queries. The share must have the solver's code length.
    pub fn precomp(solver: SolverType, query_num: usize, delta: F128b, vec_b: Vec<F128b>) -> (res:
        Result<SepOprfSenderWithVole, Error>)
        requires
            code_length_for(solver, query_num as nat) <= usize::MAX,
        ensures
            vec_b@.len() != code_length_for(solver, query_num as nat) <==> res matches Err(
                Error::InvariantViolation,
            ),
            res matches Ok(s) ==> {
                &&& s.params() == params_of(solver, query_num as nat)
                &&& s.params().solver() == solver
                &&& s.params().spec_code_length() == code_length_for(solver, query_num as nat)
                &&& s.delta() == delta
                &&& s.share() == vec_b@
            },
            res is Err ==> res matches Err(Error::InvariantViolation),
    {
        let params = calc_params(solver, query_num);
        let m = params.code_length();
        if vec_b.len() != m {
            return Err(Error::InvariantViolation);
        }
        Ok(SepOprfSenderWithVole { params, delta, vec_b })
    }

    /// The online step: from the receiver's auxiliary information and masked
    /// code vector `A'` to the key vector `K[i] = delta * A'[i] + B[i]`.
    ///
    /// Auxiliary information of another solver is a misuse; a vector of
    /// another length than the code length is a length mismatch.
    pub fn send(self, aux: AuxInfo, a_dash: Vec<F128b>) -> (res: Result<OprfKey, Error>)
        ensures
            aux.solver() != self.params().solver() <==> res matches Err(Error::ProtocolMisuse),
            aux.solver() == self.params().solver() && a_dash@.len() != self.share().len()
                <==> res matches Err(Error::InvariantViolation),
            res matches Ok(key) ==> {
                &&& key.key() == key_vector(self.delta(), a_dash@, self.share())
                &&& key.delta() == self.delta()
                &&& key.aux() == aux
                &&& key.params() == self.params()
                &&& key.usable() <==> !refuses(1, self.params())
            },
            res is Err ==> (res matches Err(Error::ProtocolMisuse)) || (res matches Err(
                Error::InvariantViolation,
            )),
    {
        proof {
            use_type_invariant(&self);
        }
        if !same_solver(aux, self.params) {
            return Err(Error::ProtocolMisuse);
        }
        let m = self.vec_b.len();
        if a_dash.len() != m {
            return Err(Error::InvariantViolation);
        }
        let delta = self.delta;
        let mut k: Vec<F128b> = Vec::with_capacity(m);
        let mut i: usize = 0;
        while i < m
            invariant
                i <= m,
                m == self.vec_b@.len(),
                m == a_dash@.len(),
                delta == self.delta,
                k@.len() == i,
                forall|c: int|
                    0 <= c < i ==> k@[c] == gf_add(gf_mul(delta, a_dash@[c]), self.vec_b@[c]),
            decreases m - i,
        {
            k.push(delta.times(a_dash[i]).plus(self.vec_b[i]));
            i = i + 1;
        }
        assert(k@ =~= key_vector(self.delta, a_dash@, self.vec_b@));
        Ok(OprfKey { k, delta, aux, params: self.params })
    }
}

/// Whether auxiliary information and parameters belong to one solver.
pub fn same_solver(aux: AuxInfo, params: Params) -> (b: bool)
    ensures
        b == (aux.solver() == params.solver()),
{
    match (aux, params) {
        (AuxInfo::Paxos(_, _, _), Params::Paxos(_)) => true,
        (AuxInfo::Vandelmonde, Params::Vandelmonde(_)) => true,
        _ => false,
    }
}

impl SepOprfReceiverWithVole {
    pub closed spec fn params(&self) -> Params {
        self.params
    }

    pub closed spec fn share_a(&self) -> Seq<F128b> {
        self.vec_a@
    }

    pub closed spec fn share_c(&self) -> Seq<F128b> {
        self.vec_c@
    }

    #[verifier::type_invariant]
    spec fn matched(&self) -> bool {
        &&& self.vec_a@.len() == self.params.spec_code_length()
        &&& self.vec_c@.len() == self.params.spec_code_length()
    }

    /// Takes the receiver's side `(A, C)` of a VOLE correlation for
    /// `query_num` queries. Both shares must have the solver's code length.
    pub fn precomp(solver: SolverType, query_num: usize, vec_a: Vec<F128b>, vec_c: Vec<F128b>) -> (res:
        Result<SepOprfReceiverWithVole, Error>)
        requires
            code_length_for(solver, query_num as nat) <= usize::MAX,
        ensures
            vec_a@.len() != code_length_for(solver, query_num as nat) || vec_c@.len()
                != code_length_for(solver, query_num as nat) <==> res matches Err(
                Error::InvariantViolation,
            ),
            res matches Ok(r) ==> {
                &&& r.params() == params_of(solver, query_num as nat)
                &&& r.params().solver() == solver
                &&& r.params().spec_code_length() == code_length_for(solver, query_num as nat)
                &&& r.share_a() == vec_a@
                &&& r.share_c() == vec_c@
            },
            res is Err ==> res matches Err(Error::InvariantViolation),
    {
        let params = calc_params(solver, query_num);
        let m = params.code_length();
        if vec_a.len() != m || vec_c.len() != m {
            return Err(Error::InvariantViolation);
        }
        Ok(SepOprfReceiverWithVole { params, vec_a, vec_c })
    }

    /// The parameters that the offline phase fixed. Both shares have their
    /// code length.
    pub fn parameters(&self) -> (params: Params)
        ensures
            params == self.params(),
            self.share_a().len() == params.spec_code_length(),
            self.share_c().len() == params.spec_code_length(),
    {
        proof {
            use_type_invariant(self);
        }
        self.params
    }

    /// The points to encode for the queries: every query with its hash.
    pub fn points(queries: &[F128b]) -> (points: Vec<(F128b, F128b)>)
        ensures
            points@ == oprf_points(queries@),
    {
        let mut points: Vec<(F128b, F128b)> = Vec::with_capacity(queries.len());
        let mut i: usize = 0;
        while i < queries.len()
            invariant
                i <= queries@.len(),
                points@.len() == i,
                forall|c: int| 0 <= c < i ==> points@[c] == (queries@[c], hash_f_spec(queries@[c])),
            decreases queries@.len() - i,
        {
            let x = queries[i];
            match hash_f(x) {
                Ok(y) => {
                    points.push((x, y));
                },
                Err(_) => {
                    assert(false);
                },
            }
            i = i + 1;
        }
        assert(points@ =~= oprf_points(queries@));
        points
    }

    /// The online step, given the encoding `p` of the queries' points under
    /// `aux`: the masked code vector `P + A` to send after `aux`, and the
    /// outputs `(x, H(decode(C, x), x))`.
    ///
    /// Auxiliary information of another solver is a misuse; a code vector of
    /// another length than the shares, or shares that cannot be decoded, are
    /// a length mismatch.
    pub fn receive(self, queries: &[F128b], aux: AuxInfo, p: Vec<F128b>) -> (res: Result<
        (Vec<F128b>, Vec<(F128b, F128b)>),
        Error,
    >)
        ensures
            aux.solver() != self.params().solver() <==> res matches Err(Error::ProtocolMisuse),
            aux.solver() == self.params().solver() && (p@.len() != self.share_a().len() || (
            queries@.len() > 0 && !decodable(self.share_c().len(), aux, self.params())))
                <==> res matches Err(Error::InvariantViolation),
            res matches Ok(out) ==> {
                &&& out.0@ == masked(p@, self.share_a())
                &&& out.1@ == oprf_outputs(self.share_c(), aux, self.params(), queries@)
            },
            res is Err ==> (res matches Err(Error::ProtocolMisuse)) || (res matches Err(
                Error::InvariantViolation,
            )),
    {
        proof {
            use_type_invariant(&self);
        }
        if !same_solver(aux, self.params) {
            return Err(Error::ProtocolMisuse);
        }
        let m = self.vec_a.len();
        if p.len() != m {
            return Err(Error::InvariantViolation);
        }
        let mut p_plus_a: Vec<F128b> = Vec::with_capacity(m);
        let mut i: usize = 0;
        while i < m
            invariant
                i <= m,
                m == self.vec_a@.len(),
                m == p@.len(),
                p_plus_a@.len() == i,
                forall|c: int| 0 <= c < i ==> p_plus_a@[c] == gf_add(p@[c], self.vec_a@[c]),
            decreases m - i,
        {
            p_plus_a.push(p[i].plus(self.vec_a[i]));
            i = i + 1;
        }
        assert(p_plus_a@ =~= masked(p@, self.vec_a@));

        let mut res: Vec<(F128b, F128b)> = Vec::with_capacity(queries.len());
        let mut j: usize = 0;
        while j < queries.len()
            invariant
                j <= queries@.len(),
                res@.len() == j,
                aux.solver() == self.params.solver(),
                p@.len() == self.vec_a@.len(),
                j > 0 ==> decodable(self.vec_c@.len(), aux, self.params),
                forall|c: int|
                    0 <= c < j ==> res@[c] == (
                        queries@[c],
                        oprf_output(self.vec_c@, aux, self.params, queries@[c]),
                    ),
            decreases queries@.len() - j,
        {
            let x = queries[j];
            let d = match decode(self.vec_c.as_slice(), x, aux, self.params) {
                Ok(d) => d,
                Err(e) => {
                    return Err(e);
                },
            };
            match hash(d, x) {
                Ok(y) => {
                    res.push((x, y));
                },
                Err(_) => {
                    assert(false);
                },
            }
            j = j + 1;
        }
        assert(res@ =~= oprf_outputs(self.vec_c@, aux, self.params, queries@));
        Ok((p_plus_a, res))
    }
}

impl SepOprfReceiverWithVole {
    /// The whole online step: encodes the queries' points with the solver
    /// of the parameters and goes on as [`Self::receive`] does. Returns the
    /// auxiliary information to send, the masked code vector to send after
    /// it, and the outputs.
    ///
    /// With the interpolating solver the step succeeds exactly on separable
    /// queries that are as many as the shares are long. With PaXoS it fails
    /// where the solver does, which but for a refusal depends on the seeds
    /// that are drawn.
    pub fn receive_encoding(self, rng: &mut StdRng, queries: &[F128b]) -> (res: Result<
        (AuxInfo, Vec<F128b>, Vec<(F128b, F128b)>),
        Error,
    >)
        ensures
            res matches Ok(out) ==> {
                &&& out.0.solver() == self.params().solver()
                &&& exists|p: Seq<F128b>|
                    {
                        &&& #[trigger] masked(p, self.share_a()) == out.1@
                        &&& p.len() == self.share_a().len()
                        &&& holds_points(p, oprf_points(queries@), out.0, self.params())
                        &&& solvable(oprf_points(queries@), out.0, self.params())
                    }
                &&& out.2@ == oprf_outputs(self.share_c(), out.0, self.params(), queries@)
            },
            res matches Err(Error::InvariantViolation) <==> refuses(queries@.len(), self.params()) || (
            self.params().solver() == SolverType::Vandelmonde && separable(oprf_points(queries@))
                && queries@.len() != self.share_a().len()),
            self.params().solver() == SolverType::Vandelmonde ==> (res is Ok <==> separable(
                oprf_points(queries@),
            ) && queries@.len() == self.share_a().len()),
            res matches Err(e) ==> e == Error::InvariantViolation || e
                == Error::SolverTooManyConstraints || e == Error::SolverNoSolution,
    {
        proof {
            use_type_invariant(&self);
        }
        let points = SepOprfReceiverWithVole::points(queries);
        let (aux, p) = match encode(rng, points.as_slice(), self.params) {
            Ok(found) => found,
            Err(e) => {
                return Err(e);
            },
        };
        let ghost code = p@;
        let ghost share_a = self.vec_a@;
        match self.receive(queries, aux, p) {
            Ok((p_plus_a, outputs)) => {
                proof {
                    assert(masked(code, share_a) == p_plus_a@);
                }
                Ok((aux, p_plus_a, outputs))
            },
            Err(e) => Err(e),
        }
    }
}

/// The inner product of a bit vector with `delta * P + C` is `delta` times
/// its inner product with `P`, plus its inner product with `C`.
pub proof fn lemma_inner_scaled(
    bits: Seq<bool>,
    delta: F128b,
    p: Seq<F128b>,
    c: Seq<F128b>,
    k: Seq<F128b>,
    n: int,
)
    requires
        forall|i: int| 0 <= i < n ==> #[trigger] k[i] == gf_add(gf_mul(delta, p[i]), c[i]),
    ensures
        inner_upto(bits, k, n) == gf_add(
            gf_mul(delta, inner_upto(bits, p, n)),
            inner_upto(bits, c, n),
        ),
    decreases n,
{
    if n <= 0 {
        lemma_mul_distributes(delta, F128b(0), F128b(0));
        lemma_add_laws(F128b(0), F128b(0), F128b(0));
    } else {
        lemma_inner_scaled(bits, delta, p, c, k, n - 1);
        let sp = inner_upto(bits, p, n - 1);
        let sc = inner_upto(bits, c, n - 1);
        assert(k[n - 1] == gf_add(gf_mul(delta, p[n - 1]), c[n - 1]));
        lemma_add_interchange(gf_mul(delta, sp), sc, gf_mul(delta, p[n - 1]), c[n - 1]);
        lemma_mul_distributes(delta, sp, p[n - 1]);
    }
}

/// PaXoS decoding is linear: decoding `delta * P + C` gives `delta` times
/// the decoding of `P`, plus the decoding of `C`.
pub proof fn lemma_paxos_decode_scaled(
    delta: F128b,
    p: Seq<F128b>,
    c: Seq<F128b>,
    k: Seq<F128b>,
    x: F128b,
    aux: PaxosAux,
    params: PaxosSolverParams,
)
    requires
        params.left() > 0,
        p.len() >= params.spec_code_length(),
        c.len() == p.len(),
        k.len() == p.len(),
        forall|i: int| 0 <= i < p.len() ==> #[trigger] k[i] == gf_add(gf_mul(delta, p[i]), c[i]),
    ensures
        crate::solver::paxos::decode_spec(k, x, aux, params) == gf_add(
            gf_mul(delta, crate::solver::paxos::decode_spec(p, x, aux, params)),
            crate::solver::paxos::decode_spec(c, x, aux, params),
        ),
{
    let l = params.left() as int;
    let i = hash2index_spec(aux.0, x, params.left());
    let j = hash2index_spec(aux.1, x, params.left());
    let bits = r_bits(aux.2, x, params.right());
    let (pr, cr, kr) = (p.skip(l), c.skip(l), k.skip(l));
    assert forall|t: int| 0 <= t < bits.len() implies #[trigger] kr[t] == gf_add(
        gf_mul(delta, pr[t]),
        cr[t],
    ) by {
        assert(k[l + t] == gf_add(gf_mul(delta, p[l + t]), c[l + t]));
    }
    lemma_inner_scaled(bits, delta, pr, cr, kr, bits.len() as int);
    assert(k[i] == gf_add(gf_mul(delta, p[i]), c[i]));
    assert(k[j] == gf_add(gf_mul(delta, p[j]), c[j]));
    let ip_p = inner_product(bits, pr);
    let ip_c = inner_product(bits, cr);
    lemma_add_interchange(gf_mul(delta, p[i]), c[i], gf_mul(delta, p[j]), c[j]);
    lemma_mul_distributes(delta, p[i], p[j]);
    let pij = gf_add(p[i], p[j]);
    let cij = gf_add(c[i], c[j]);
    lemma_add_interchange(gf_mul(delta, pij), cij, gf_mul(delta, ip_p), ip_c);
    lemma_mul_distributes(delta, pij, ip_p);
}

/// Evaluating the polynomial `delta * P + C` gives `delta` times the value
/// of `P`, plus the value of `C`.
pub proof fn lemma_poly_eval_scaled(
    delta: F128b,
    p: Seq<F128b>,
    c: Seq<F128b>,
    k: Seq<F128b>,
    x: F128b,
    n: int,
)
    requires
        forall|i: int| 0 <= i < n ==> #[trigger] k[i] == gf_add(gf_mul(delta, p[i]), c[i]),
    ensures
        poly_eval_upto(k, x, n) == gf_add(
            gf_mul(delta, poly_eval_upto(p, x, n)),
            poly_eval_upto(c, x, n),
        ),
    decreases n,
{
    if n <= 0 {
        lemma_mul_distributes(delta, F128b(0), F128b(0));
        lemma_add_laws(F128b(0), F128b(0), F128b(0));
    } else {
        lemma_poly_eval_scaled(delta, p, c, k, x, n - 1);
        let sp = poly_eval_upto(p, x, n - 1);
        let sc = poly_eval_upto(c, x, n - 1);
        let pw = gf_pow(x, (n - 1) as nat);
        let (pi, ci) = (p[n - 1], c[n - 1]);
        assert(k[n - 1] == gf_add(gf_mul(delta, pi), ci));
        lemma_mul_laws(gf_mul(delta, pi), ci, pw);
        lemma_mul_laws(delta, pi, pw);
        lemma_add_interchange(gf_mul(delta, sp), sc, gf_mul(delta, gf_mul(pi, pw)), gf_mul(ci, pw));
        lemma_mul_distributes(delta, sp, gf_mul(pi, pw));
    }
}

/// Decoding is linear under either solver: decoding `delta * P + C` gives
/// `delta` times the decoding of `P`, plus the decoding of `C`.
pub proof fn lemma_decode_scaled(
    delta: F128b,
    p: Seq<F128b>,
    c: Seq<F128b>,
    k: Seq<F128b>,
    x: F128b,
    aux: AuxInfo,
    params: Params,
)
    requires
        decodable(p.len(), aux, params),
        c.len() == p.len(),
        k.len() == p.len(),
        forall|i: int| 0 <= i < p.len() ==> #[trigger] k[i] == gf_add(gf_mul(delta, p[i]), c[i]),
    ensures
        decode_spec(k, x, aux, params) == gf_add(
            gf_mul(delta, decode_spec(p, x, aux, params)),
            decode_spec(c, x, aux, params),
        ),
{
    match (aux, params) {
        (AuxInfo::Paxos(k1, k2, k3), Params::Paxos(pp)) => {
            lemma_paxos_decode_scaled(delta, p, c, k, x, (k1, k2, k3), pp);
        },
        _ => {
            lemma_poly_eval_scaled(delta, p, c, k, x, p.len() as int);
        },
    }
}

/// OPRF agreement: where the receiver's code vector `P` decodes to
/// `H_F(x)`, as it does at every query, the sender's function on the key
/// vector made from `P + A` gives the receiver's output.
pub proof fn lemma_oprf_agreement(
    delta: F128b,
    b: Seq<F128b>,
    a: Seq<F128b>,
    c: Seq<F128b>,
    p: Seq<F128b>,
    aux: AuxInfo,
    params: Params,
    x: F128b,
)
    requires
        correlated(delta, b, a, c),
        p.len() == b.len(),
        decodable(p.len(), aux, params),
        decode_spec(p, x, aux, params) == hash_f_spec(x),
    ensures
        oprf_eval(key_vector(delta, masked(p, a), b), delta, aux, params, x) == oprf_output(
            c,
            aux,
            params,
            x,
        ),
{
    let k = key_vector(delta, masked(p, a), b);
    assert forall|i: int| 0 <= i < p.len() implies #[trigger] k[i] == gf_add(
        gf_mul(delta, p[i]),
        c[i],
    ) by {
        assert(c[i] == gf_add(gf_mul(delta, a[i]), b[i]));
        lemma_mul_distributes(delta, p[i], a[i]);
        lemma_add_laws(gf_mul(delta, p[i]), gf_mul(delta, a[i]), b[i]);
    }
    lemma_decode_scaled(delta, p, c, k, x, aux, params);
    let dc = decode_spec(c, x, aux, params);
    let dh = gf_mul(delta, hash_f_spec(x));
    lemma_add_laws(dh, dc, dh);
    lemma_add_cancel(dc, dh);
}

} // verus!
