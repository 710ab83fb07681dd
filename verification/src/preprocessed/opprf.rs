//! The separated oblivious programmable pseudorandom function.
//!
//! The sender programs the function at points `(x, z)` of its choice: after
//! one oblivious pseudorandom function `f` it encodes the points
//! `(x, z - f(x))` and sends the code vector, and the receiver adds what the
//! vector decodes to at its queries to its own outputs of `f`.

use crate::cli_utils::SolverType;
use crate::error::Error;
use crate::field::{gf_add, lemma_add_cancel, F128b};
use crate::preprocessed::oprf::{
    key_vector, masked, oprf_output, oprf_outputs, oprf_points, same_solver, OprfKey,
    SepOprfReceiverWithVole, SepOprfSenderWithVole,
};
use crate::solver::vandelmode::{lemma_separable_by_keys, separable};
use crate::solver::{
    code_length_for, decodable, decode, decode_spec, encode, encoded_len, holds_points, params_of,
    refuses, solvable, AuxInfo, Params, SolverParams,
};
use rand::rngs::StdRng;
use vstd::prelude::*;

verus! {

/// An oblivious programmable pseudorandom function: a keyed function whose
/// sender fixes the outputs at inputs of its choice.
pub trait ObliviousProgrammablePrf: Sized {
    /// What the function is keyed by.
    type Seed;

    /// What the function takes.
    type Input;

    /// What the function gives.
    type Output;
}

/// The sender after the offline phase.
pub struct SepOpprfSenderWithVole {
    oprf_sender: SepOprfSenderWithVole,
}

/// The receiver after the offline phase.
pub struct SepOpprfReceiverWithVole {
    oprf_receiver: SepOprfReceiverWithVole,
}

impl ObliviousProgrammablePrf for SepOpprfSenderWithVole {
    type Seed = ();

    type Input = F128b;

    type Output = F128b;
}

impl ObliviousProgrammablePrf for SepOpprfReceiverWithVole {
    type Seed = ();

    type Input = F128b;

    type Output = F128b;
}

/// The points that the sender encodes: `(x, z - f(x))` for every point
/// `(x, z)` to program.
pub open spec fn programmed_points(key: OprfKey, points: Seq<(F128b, F128b)>) -> Seq<(F128b, F128b)> {
    Seq::new(points.len(), |i: int| (points[i].0, gf_add(points[i].1, key.value(points[i].0))))
}

/// The programmed function at `x`: what the code vector decodes to, plus `f(x)`.
pub open spec fn opprf_eval(p: Seq<F128b>, aux: AuxInfo, params: Params, key: OprfKey, x: F128b) -> F128b {
    gf_add(decode_spec(p, x, aux, params), key.value(x))
}

/// The receiver's values: for every output `(x, f(x))` of the oblivious
/// pseudorandom function, `x` with what the code vector decodes to plus `f(x)`.
pub open spec fn opprf_outputs(
    p: Seq<F128b>,
    aux: AuxInfo,
    params: Params,
    oprf_res: Seq<(F128b, F128b)>,
) -> Seq<(F128b, F128b)> {
    Seq::new(
        oprf_res.len(),
        |i: int| (oprf_res[i].0, gf_add(decode_spec(p, oprf_res[i].0, aux, params), oprf_res[i].1)),
    )
}

/// The sender's programmed function after the online phase.
pub struct OpprfKey {
    p: Vec<F128b>,
    aux: AuxInfo,
    params: Params,
    key: OprfKey,
}

impl OpprfKey {
    pub closed spec fn code(&self) -> Seq<F128b> {
        self.p@
    }

    pub closed spec fn aux(&self) -> AuxInfo {
        self.aux
    }

    pub closed spec fn params(&self) -> Params {
        self.params
    }

    pub closed spec fn inner(&self) -> OprfKey {
        self.key
    }

    /// The value of the function at `x`.
    pub open spec fn value(&self, x: F128b) -> F128b {
        opprf_eval(self.code(), self.aux(), self.params(), self.inner(), x)
    }

    /// Whether both the code vector and the key vector can be decoded.
    pub open spec fn usable(&self) -> bool {
        decodable(self.code().len(), self.aux(), self.params()) && self.inner().usable()
    }

    /// The sender's function from the key of the pseudorandom function and
    /// the code vector that programs it.
    pub fn new(key: OprfKey, aux: AuxInfo, params: Params, p: Vec<F128b>) -> (k: OpprfKey)
        ensures
            k.code() == p@,
            k.aux() == aux,
            k.params() == params,
            k.inner() == key,
    {
        OpprfKey { p, aux, params, key }
    }

    /// Evaluates the programmed function at `x`.
    pub fn eval(&self, x: F128b) -> (y: Result<F128b, Error>)
        ensures
            self.usable() ==> y == Ok::<F128b, Error>(self.value(x)),
            !self.usable() ==> y == Err::<F128b, Error>(Error::InvariantViolation),
    {
        let d = match decode(self.p.as_slice(), x, self.aux, self.params) {
            Ok(d) => d,
            Err(e) => {
                return Err(e);
            },
        };
        match self.key.eval(x) {
            Ok(f) => Ok(d.plus(f)),
            Err(e) => Err(e),
        }
    }
}

impl SepOpprfSenderWithVole {
    pub closed spec fn oprf(&self) -> SepOprfSenderWithVole {
        self.oprf_sender
    }

    /// The parameters that the offline phase fixed.
    pub open spec fn params(&self) -> Params {
        self.oprf().params()
    }

    /// The parameters that the offline phase fixed. The share has their
    /// code length.
    pub fn parameters(&self) -> (params: Params)
        ensures
            params == self.params(),
            self.oprf().share().len() == params.spec_code_length(),
    {
        self.oprf_sender.parameters()
    }

    /// Takes the sender's side `(delta, B)` of a VOLE correlation for
    /// `query_num` queries. The share must have the solver's code length.
    pub fn precomp(solver: SolverType, query_num: usize, delta: F128b, vec_b: Vec<F128b>) -> (res:
        Result<SepOpprfSenderWithVole, Error>)
        requires
            code_length_for(solver, query_num as nat) <= usize::MAX,
        ensures
            vec_b@.len() != code_length_for(solver, query_num as nat) <==> res matches Err(
                Error::InvariantViolation,
            ),
            res matches Ok(s) ==> {
                &&& s.params() == params_of(solver, query_num as nat)
                &&& s.params().solver() == solver
                &&& s.params().spec_code_length() == code_length_for(solver, query_num as nat)
                &&& s.oprf().delta() == delta
                &&& s.oprf().share() == vec_b@
            },
            res is Err ==> res matches Err(Error::InvariantViolation),
    {
        match SepOprfSenderWithVole::precomp(solver, query_num, delta, vec_b) {
            Ok(oprf_sender) => Ok(SepOpprfSenderWithVole { oprf_sender }),
            Err(e) => Err(e),
        }
    }

    /// The first online step: runs the sender of the pseudorandom function
    /// on what the peer sent, and turns the points `(x, z)` to program into
    /// the points `(x, z - f(x))` to encode. Returns the key of `f` with
    /// those points.
    pub fn send(self, aux: AuxInfo, a_dash: Vec<F128b>, points: &[(F128b, F128b)]) -> (res: Result<
        (OprfKey, Vec<(F128b, F128b)>),
        Error,
    >)
        ensures
            aux.solver() != self.params().solver() <==> res matches Err(Error::ProtocolMisuse),
            aux.solver() == self.params().solver() && (a_dash@.len() != self.oprf().share().len()
                || refuses(points@.len(), self.params())) <==> res matches Err(
                Error::InvariantViolation,
            ),
            res matches Ok(out) ==> {
                &&& out.0.key() == key_vector(self.oprf().delta(), a_dash@, self.oprf().share())
                &&& out.0.delta() == self.oprf().delta()
                &&& out.0.aux() == aux
                &&& out.0.params() == self.params()
                &&& out.0.usable() <==> !refuses(1, self.params())
                &&& out.1@ == programmed_points(out.0, points@)
            },
            res is Err ==> (res matches Err(Error::ProtocolMisuse)) || (res matches Err(
                Error::InvariantViolation,
            )),
    {
        let _ = self.oprf_sender.parameters();
        let key = match self.oprf_sender.send(aux, a_dash) {
            Ok(key) => key,
            Err(e) => {
                return Err(e);
            },
        };
        proof {
            assert(key.key().len() == self.params().spec_code_length());
        }
        let mut shifted: Vec<(F128b, F128b)> = Vec::with_capacity(points.len());
        let mut i: usize = 0;
        while i < points.len()
            invariant
                i <= points@.len(),
                shifted@.len() == i,
                aux.solver() == self.params().solver(),
                a_dash@.len() == self.oprf().share().len(),
                key.aux() == aux,
                key.params() == self.params(),
                key.usable() == !refuses(points@.len(), self.params()) || points@.len() == 0,
                i > 0 ==> key.usable(),
                forall|c: int|
                    0 <= c < i ==> shifted@[c] == (
                        points@[c].0,
                        gf_add(points@[c].1, key.value(points@[c].0)),
                    ),
            decreases points@.len() - i,
        {
            let (x, z) = points[i];
            match key.eval(x) {
                Ok(f) => {
                    shifted.push((x, z.minus(f)));
                },
                Err(e) => {
                    return Err(e);
                },
            }
            i = i + 1;
        }
        assert(shifted@ =~= programmed_points(key, points@));
        Ok((key, shifted))
    }

    /// Both online steps: after [`Self::send`], encodes the shifted points
    /// with the solver of the parameters. Returns the auxiliary information
    /// and the code vector to send, and the programmed function.
    ///
    /// With the interpolating solver the steps succeed exactly on separable
    /// points after auxiliary information of that solver and a masked
    /// vector as long as the share. With PaXoS they fail where
    /// [`Self::send`] or the solver does, which but for a refusal depends on
    /// the seeds that are drawn.
    pub fn send_encoding(
        self,
        rng: &mut StdRng,
        aux: AuxInfo,
        a_dash: Vec<F128b>,
        points: &[(F128b, F128b)],
    ) -> (res: Result<(AuxInfo, Vec<F128b>, OpprfKey), Error>)
        ensures
            res matches Ok(out) ==> {
                &&& out.0.solver() == self.params().solver()
                &&& out.2.code() == out.1@
                &&& out.2.aux() == out.0
                &&& out.2.params() == self.params()
                &&& out.2.inner().key() == key_vector(self.oprf().delta(), a_dash@, self.oprf().share())
                &&& out.2.inner().delta() == self.oprf().delta()
                &&& out.2.inner().aux() == aux
                &&& out.2.inner().params() == self.params()
                &&& out.1@.len() == encoded_len(points@.len(), self.params())
                &&& holds_points(out.1@, programmed_points(out.2.inner(), points@), out.0, self.params())
                &&& solvable(programmed_points(out.2.inner(), points@), out.0, self.params())
                &&& points@.len() > 0 ==> out.2.usable()
            },
            aux.solver() != self.params().solver() <==> res matches Err(Error::ProtocolMisuse),
            aux.solver() == self.params().solver() && (a_dash@.len() != self.oprf().share().len()
                || refuses(points@.len(), self.params())) <==> res matches Err(
                Error::InvariantViolation,
            ),
            self.params().solver() == SolverType::Vandelmonde ==> (res is Ok <==> aux.solver()
                == SolverType::Vandelmonde && a_dash@.len() == self.oprf().share().len()
                && separable(points@)),
            res matches Err(e) ==> e == Error::ProtocolMisuse || e == Error::InvariantViolation || e
                == Error::SolverTooManyConstraints || e == Error::SolverNoSolution,
    {
        let params = self.oprf_sender.parameters();
        let (key, shifted) = match self.send(aux, a_dash, points) {
            Ok(out) => out,
            Err(e) => {
                return Err(e);
            },
        };
        proof {
            lemma_separable_by_keys(shifted@, points@);
        }
        let (fresh, p) = match encode(rng, shifted.as_slice(), params) {
            Ok(found) => found,
            Err(e) => {
                return Err(e);
            },
        };
        let sent = copy_fields(p.as_slice());
        Ok((fresh, sent, OpprfKey::new(key, fresh, params, p)))
    }
}

/// A copy of a vector of field elements.
pub fn copy_fields(v: &[F128b]) -> (copy: Vec<F128b>)
    ensures
        copy@ == v@,
{
    let mut copy: Vec<F128b> = Vec::with_capacity(v.len());
    let mut i: usize = 0;
    while i < v.len()
        invariant
            i <= v@.len(),
            copy@.len() == i,
            forall|c: int| 0 <= c < i ==> copy@[c] == v@[c],
        decreases v@.len() - i,
    {
        copy.push(v[i]);
        i = i + 1;
    }
    assert(copy@ =~= v@);
    copy
}

/// The receiver between its two online steps: the outputs of the
/// pseudorandom function, waiting for the sender's code vector.
pub struct OpprfPending {
    params: Params,
    oprf_res: Vec<(F128b, F128b)>,
}

impl OpprfPending {
    pub closed spec fn params(&self) -> Params {
        self.params
    }

    pub closed spec fn outputs(&self) -> Seq<(F128b, F128b)> {
        self.oprf_res@
    }

    /// The second online step: from the sender's auxiliary information and
    /// code vector to the values `(x, decode(P, x) + f(x))`.
    ///
    /// Auxiliary information of another solver is a misuse; a code vector
    /// that cannot be decoded is a length mismatch.
    pub fn finish(self, aux: AuxInfo, p: &[F128b]) -> (res: Result<Vec<(F128b, F128b)>, Error>)
        ensures
            aux.solver() != self.params().solver() <==> res matches Err(Error::ProtocolMisuse),
            aux.solver() == self.params().solver() && self.outputs().len() > 0 && !decodable(
                p@.len(),
                aux,
                self.params(),
            ) <==> res matches Err(Error::InvariantViolation),
            res matches Ok(out) ==> out@ == opprf_outputs(p@, aux, self.params(), self.outputs()),
            res is Err ==> (res matches Err(Error::ProtocolMisuse)) || (res matches Err(
                Error::InvariantViolation,
            )),
    {
        if !same_solver(aux, self.params) {
            return Err(Error::ProtocolMisuse);
        }
        let n = self.oprf_res.len();
        let mut out: Vec<(F128b, F128b)> = Vec::with_capacity(n);
        let mut i: usize = 0;
        while i < n
            invariant
                i <= n,
                n == self.oprf_res@.len(),
                out@.len() == i,
                aux.solver() == self.params.solver(),
                i > 0 ==> decodable(p@.len(), aux, self.params),
                forall|c: int|
                    0 <= c < i ==> out@[c] == (
                        self.oprf_res@[c].0,
                        gf_add(
                            decode_spec(p@, self.oprf_res@[c].0, aux, self.params),
                            self.oprf_res@[c].1,
                        ),
                    ),
            decreases n - i,
        {
            let (x, fkx) = self.oprf_res[i];
            match decode(p, x, aux, self.params) {
                Ok(d) => {
                    out.push((x, d.plus(fkx)));
                },
                Err(e) => {
                    return Err(e);
                },
            }
            i = i + 1;
        }
        assert(out@ =~= opprf_outputs(p@, aux, self.params, self.oprf_res@));
        Ok(out)
    }
}

impl SepOpprfReceiverWithVole {
    pub closed spec fn oprf(&self) -> SepOprfReceiverWithVole {
        self.oprf_receiver
    }

    /// The parameters that the offline phase fixed.
    pub open spec fn params(&self) -> Params {
        self.oprf().params()
    }

    /// The parameters that the offline phase fixed. Both shares have their
    /// code length.
    pub fn parameters(&self) -> (params: Params)
        ensures
            params == self.params(),
            self.oprf().share_a().len() == params.spec_code_length(),
            self.oprf().share_c().len() == params.spec_code_length(),
    {
        self.oprf_receiver.parameters()
    }

    /// Takes the receiver's side `(A, C)` of a VOLE correlation for
    /// `query_num` queries. Both shares must have the solver's code length.
    pub fn precomp(solver: SolverType, query_num: usize, vec_a: Vec<F128b>, vec_c: Vec<F128b>) -> (res:
        Result<SepOpprfReceiverWithVole, Error>)
        requires
            code_length_for(solver, query_num as nat) <= usize::MAX,
        ensures
            vec_a@.len() != code_length_for(solver, query_num as nat) || vec_c@.len()
                != code_length_for(solver, query_num as nat) <==> res matches Err(
                Error::InvariantViolation,
            ),
            res matches Ok(r) ==> {
                &&& r.params() == params_of(solver, query_num as nat)
                &&& r.params().solver() == solver
                &&& r.params().spec_code_length() == code_length_for(solver, query_num as nat)
                &&& r.oprf().share_a() == vec_a@
                &&& r.oprf().share_c() == vec_c@
            },
            res is Err ==> res matches Err(Error::InvariantViolation),
    {
        match SepOprfReceiverWithVole::precomp(solver, query_num, vec_a, vec_c) {
            Ok(oprf_receiver) => Ok(SepOpprfReceiverWithVole { oprf_receiver }),
            Err(e) => Err(e),
        }
    }

    /// The points to encode for the queries: every query with its hash.
    pub fn points(queries: &[F128b]) -> (points: Vec<(F128b, F128b)>)
        ensures
            points@ == crate::preprocessed::oprf::oprf_points(queries@),
    {
        SepOprfReceiverWithVole::points(queries)
    }

    /// The first online step, given the encoding `p` of the queries' points
    /// under `aux`: the masked code vector to send after `aux`, and the
    /// state that waits for the sender's answer.
    pub fn receive(self, queries: &[F128b], aux: AuxInfo, p: Vec<F128b>) -> (res: Result<
        (Vec<F128b>, OpprfPending),
        Error,
    >)
        ensures
            aux.solver() != self.params().solver() <==> res matches Err(Error::ProtocolMisuse),
            aux.solver() == self.params().solver() && (p@.len() != self.oprf().share_a().len() || (
            queries@.len() > 0 && !decodable(self.oprf().share_c().len(), aux, self.params())))
                <==> res matches Err(Error::InvariantViolation),
            res matches Ok(out) ==> {
                &&& out.0@ == masked(p@, self.oprf().share_a())
                &&& out.1.params() == self.params()
                &&& out.1.outputs() == oprf_outputs(self.oprf().share_c(), aux, self.params(), queries@)
            },
            res is Err ==> (res matches Err(Error::ProtocolMisuse)) || (res matches Err(
                Error::InvariantViolation,
            )),
    {
        let params = self.oprf_receiver.parameters();
        match self.oprf_receiver.receive(queries, aux, p) {
            Ok((p_plus_a, oprf_res)) => Ok((p_plus_a, OpprfPending { params, oprf_res })),
            Err(e) => Err(e),
        }
    }

    /// The whole first online step: encodes the queries' points as
    /// [`SepOprfReceiverWithVole::receive_encoding`] does. Returns the
    /// auxiliary information and the masked code vector to send, and the
    /// state that waits for the sender's answer.
    pub fn receive_encoding(self, rng: &mut StdRng, queries: &[F128b]) -> (res: Result<
        (AuxInfo, Vec<F128b>, OpprfPending),
        Error,
    >)
        ensures
            res matches Ok(out) ==> {
                &&& out.0.solver() == self.params().solver()
                &&& out.2.params() == self.params()
                &&& out.2.outputs() == oprf_outputs(self.oprf().share_c(), out.0, self.params(), queries@)
                &&& exists|p: Seq<F128b>|
                    {
                        &&& #[trigger] masked(p, self.oprf().share_a()) == out.1@
                        &&& p.len() == self.oprf().share_a().len()
                        &&& holds_points(p, oprf_points(queries@), out.0, self.params())
                        &&& solvable(oprf_points(queries@), out.0, self.params())
                    }
            },
            res matches Err(Error::InvariantViolation) <==> refuses(queries@.len(), self.params()) || (
            self.params().solver() == SolverType::Vandelmonde && separable(oprf_points(queries@))
                && queries@.len() != self.oprf().share_a().len()),
            self.params().solver() == SolverType::Vandelmonde ==> (res is Ok <==> separable(
                oprf_points(queries@),
            ) && queries@.len() == self.oprf().share_a().len()),
            res matches Err(e) ==> e == Error::InvariantViolation || e
                == Error::SolverTooManyConstraints || e == Error::SolverNoSolution,
    {
        let params = self.oprf_receiver.parameters();
        match self.oprf_receiver.receive_encoding(rng, queries) {
            Ok((aux, p_plus_a, oprf_res)) => Ok((aux, p_plus_a, OpprfPending { params, oprf_res })),
            Err(e) => Err(e),
        }
    }
}

/// OPPRF programmability: at a point `(x, z)` that the sender programmed,
/// where its code vector decodes to `z - f(x)` and the receiver's output of
/// the pseudorandom function agrees with the sender's `f(x)`, the receiver's
/// value is `z`.
pub proof fn lemma_opprf_programmed(
    p: Seq<F128b>,
    aux: AuxInfo,
    params: Params,
    key: OprfKey,
    x: F128b,
    z: F128b,
    fx: F128b,
)
    requires
        decode_spec(p, x, aux, params) == gf_add(z, key.value(x)),
        fx == key.value(x),
    ensures
        gf_add(decode_spec(p, x, aux, params), fx) == z,
        opprf_eval(p, aux, params, key, x) == z,
{
    lemma_add_cancel(z, fx);
}

/// OPPRF programmability, from end to end: with a VOLE correlation behind
/// the pseudorandom function, a query `x` that the receiver encoded, and a
/// point `(x, z)` that the sender programmed, the receiver's value at `x`
/// is `z`.
pub proof fn lemma_opprf_programmed_value(
    delta: F128b,
    b: Seq<F128b>,
    a: Seq<F128b>,
    c: Seq<F128b>,
    query_code: Seq<F128b>,
    query_aux: AuxInfo,
    params: Params,
    key: OprfKey,
    point_code: Seq<F128b>,
    point_aux: AuxInfo,
    x: F128b,
    z: F128b,
)
    requires
        crate::vole::correlated(delta, b, a, c),
        query_code.len() == b.len(),
        decodable(query_code.len(), query_aux, params),
        decode_spec(query_code, x, query_aux, params) == crate::hash_utils::hash_f_spec(x),
        key.key() == crate::preprocessed::oprf::key_vector(
            delta,
            crate::preprocessed::oprf::masked(query_code, a),
            b,
        ),
        key.delta() == delta,
        key.aux() == query_aux,
        key.params() == params,
        decode_spec(point_code, x, point_aux, params) == gf_add(z, key.value(x)),
    ensures
        gf_add(decode_spec(point_code, x, point_aux, params), oprf_output(c, query_aux, params, x)) == z,
{
    crate::preprocessed::oprf::lemma_oprf_agreement(delta, b, a, c, query_code, query_aux, params, x);
    lemma_opprf_programmed(point_code, point_aux, params, key, x, z, key.value(x));
}

} // verus!
