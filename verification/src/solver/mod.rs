//! Solvers: encoders of key-value points into a code vector that decodes pointwise.

pub mod gaussian_eliminations;
pub mod paxos;
pub mod vandelmode;

use crate::cli_utils::SolverType;
use crate::error::Error;
use crate::field::F128b;
use crate::hash_utils::{
    lemma_u64_be_round_trip, u64_be_bytes, u64_from_be, u64_from_be_bytes, u64_to_be,
};
use crate::solver::paxos::{left_cells, right_cells, tangled, PaxosSolver, PaxosSolverParams};
use crate::solver::vandelmode::{poly_eval, separable, VandelmondeSolver, VandelmondeSolverParams};
use rand::rngs::StdRng;
use vstd::prelude::*;
use vstd::slice::slice_subrange;

verus! {

/// Parameters of a solver, fixed by the number of points to encode.
pub trait SolverParams {
    /// Length of the code vectors that these parameters describe.
    spec fn spec_code_length(&self) -> nat;

    /// Length of the code vectors that these parameters describe.
    fn code_length(&self) -> (m: usize)
        ensures
            m == self.spec_code_length(),
    ;
}

/// The parameters of either solver.
#[derive(Clone, Copy)]
pub enum Params {
    Vandelmonde(VandelmondeSolverParams),
    Paxos(PaxosSolverParams),
}

/// The auxiliary information of either solver.
#[derive(Clone, Copy, Debug, PartialEq, Eq, Structural)]
pub enum AuxInfo {
    /// The interpolating solver needs none.
    Vandelmonde,
    /// The three hash seeds of PaXoS.
    Paxos(u64, u64, u64),
}

impl SolverParams for Params {
    open spec fn spec_code_length(&self) -> nat {
        match self {
            Params::Vandelmonde(p) => p.spec_code_length(),
            Params::Paxos(p) => p.spec_code_length(),
        }
    }

    fn code_length(&self) -> (m: usize) {
        match self {
            Params::Vandelmonde(p) => p.code_length(),
            Params::Paxos(p) => p.code_length(),
        }
    }
}

impl Params {
    /// The solver that these parameters belong to.
    pub open spec fn solver(&self) -> SolverType {
        match self {
            Params::Vandelmonde(_) => SolverType::Vandelmonde,
            Params::Paxos(_) => SolverType::Paxos,
        }
    }
}

impl AuxInfo {
    /// The solver that this auxiliary information belongs to.
    pub open spec fn solver(&self) -> SolverType {
        match self {
            AuxInfo::Vandelmonde => SolverType::Vandelmonde,
            AuxInfo::Paxos(_, _, _) => SolverType::Paxos,
        }
    }
}

/// The code length of a solver for `n` points.
pub open spec fn code_length_for(solver: SolverType, n: nat) -> nat {
    match solver {
        SolverType::Vandelmonde => n,
        SolverType::Paxos => left_cells(n) + right_cells(n),
    }
}

/// The parameters of a solver for `n` points.
pub open spec fn params_of(solver: SolverType, n: nat) -> Params {
    match solver {
        SolverType::Vandelmonde => Params::Vandelmonde(VandelmondeSolverParams(n as usize)),
        SolverType::Paxos => Params::Paxos(crate::solver::paxos::params_of(n)),
    }
}

/// The parameters of the given solver for `n` points.
pub fn calc_params(solver: SolverType, n: usize) -> (params: Params)
    requires
        code_length_for(solver, n as nat) <= usize::MAX,
    ensures
        params == params_of(solver, n as nat),
        params.solver() == solver,
        params.spec_code_length() == code_length_for(solver, n as nat),
        match params {
            Params::Vandelmonde(p) => p.0 == n,
            Params::Paxos(p) => p.left() == left_cells(n as nat) && p.right() == right_cells(
                n as nat,
            ),
        },
{
    match solver {
        SolverType::Vandelmonde => Params::Vandelmonde(VandelmondeSolver::calc_params(n)),
        SolverType::Paxos => Params::Paxos(PaxosSolver::calc_params(n)),
    }
}

/// The value that a code vector holds for `x` under either solver.
pub open spec fn decode_spec(p: Seq<F128b>, x: F128b, aux: AuxInfo, params: Params) -> F128b {
    match (aux, params) {
        (AuxInfo::Paxos(k1, k2, k3), Params::Paxos(pp)) => crate::solver::paxos::decode_spec(
            p,
            x,
            (k1, k2, k3),
            pp,
        ),
        _ => poly_eval(p, x),
    }
}

/// Whether a code vector of length `len` can be decoded with this auxiliary
/// information and these parameters: both belong to one solver, and for
/// PaXoS the vector has the code length or more and there is a left cell.
pub open spec fn decodable(len: nat, aux: AuxInfo, params: Params) -> bool {
    match (aux, params) {
        (AuxInfo::Paxos(_, _, _), Params::Paxos(pp)) => pp.left() > 0 && len
            >= pp.spec_code_length(),
        (AuxInfo::Vandelmonde, Params::Vandelmonde(_)) => true,
        _ => false,
    }
}

/// Reads the value stored for `x` in a code vector of either solver.
pub fn decode(p: &[F128b], x: F128b, aux: AuxInfo, params: Params) -> (y: Result<F128b, Error>)
    ensures
        decodable(p@.len(), aux, params) ==> y == Ok::<F128b, Error>(decode_spec(p@, x, aux, params)),
        !decodable(p@.len(), aux, params) ==> y == Err::<F128b, Error>(Error::InvariantViolation),
{
    match (aux, params) {
        (AuxInfo::Paxos(k1, k2, k3), Params::Paxos(pp)) => PaxosSolver::decode(p, x, (k1, k2, k3), pp),
        (AuxInfo::Vandelmonde, Params::Vandelmonde(vp)) => VandelmondeSolver::decode(p, x, (), vp),
        _ => Err(Error::InvariantViolation),
    }
}

/// Whether the code vector holds, for every point, the point's value.
pub open spec fn holds_points(
    p: Seq<F128b>,
    points: Seq<(F128b, F128b)>,
    aux: AuxInfo,
    params: Params,
) -> bool {
    forall|k: int|
        0 <= k < points.len() ==> decode_spec(p, (#[trigger] points[k]).0, aux, params) == points[k].1
}

/// Whether the points can be encoded under this auxiliary information: for
/// the interpolating solver their keys are separable, for PaXoS they are not
/// tangled under the seeds.
pub open spec fn solvable(points: Seq<(F128b, F128b)>, aux: AuxInfo, params: Params) -> bool {
    match (aux, params) {
        (AuxInfo::Paxos(k1, k2, k3), Params::Paxos(pp)) => !tangled(points, (k1, k2, k3), pp),
        (AuxInfo::Vandelmonde, Params::Vandelmonde(_)) => separable(points),
        _ => false,
    }
}

/// Whether the solver takes no such number of points, whatever the
/// auxiliary information: PaXoS without a left cell takes no point.
pub open spec fn refuses(n_points: nat, params: Params) -> bool {
    match params {
        Params::Vandelmonde(_) => false,
        Params::Paxos(pp) => n_points > 0 && pp.left() == 0,
    }
}

/// The length of the code vector that a solver gives for these points.
pub open spec fn encoded_len(n_points: nat, params: Params) -> nat {
    match params {
        Params::Vandelmonde(_) => n_points,
        Params::Paxos(pp) => pp.spec_code_length(),
    }
}

/// Encodes the points with the solver of the parameters, under auxiliary
/// information that it draws itself. PaXoS makes a second attempt under
/// other seeds if the first fails, as
/// [`PaxosSolver::encode_from_either`] does.
///
/// The interpolating solver succeeds exactly on separable points. PaXoS
/// refuses points without a left cell to hash them to; that apart, it fails
/// only on points, and for want of right cells only on more points than
/// there are right cells.
pub fn encode(rng: &mut StdRng, points: &[(F128b, F128b)], params: Params) -> (res: Result<
    (AuxInfo, Vec<F128b>),
    Error,
>)
    ensures
        match res {
            Ok((aux, p)) => {
                &&& aux.solver() == params.solver()
                &&& p@.len() == encoded_len(points@.len(), params)
                &&& holds_points(p@, points@, aux, params)
                &&& solvable(points@, aux, params)
            },
            Err(e) => match params {
                Params::Vandelmonde(_) => e == Error::SolverNoSolution,
                Params::Paxos(pp) => {
                    &&& e == Error::InvariantViolation || e == Error::SolverTooManyConstraints || e
                        == Error::SolverNoSolution
                    &&& e == Error::SolverTooManyConstraints ==> points@.len() > pp.right()
                    &&& e != Error::InvariantViolation ==> points@.len() > 0
                },
            },
        },
        refuses(points@.len(), params) <==> res == Err::<(AuxInfo, Vec<F128b>), Error>(
            Error::InvariantViolation,
        ),
        params.solver() == SolverType::Vandelmonde ==> (res is Ok <==> separable(points@)),
{
    match params {
        Params::Vandelmonde(vp) => {
            match VandelmondeSolver::encode(points, (), vp) {
                Ok(p) => {
                    proof {
                        assert forall|k: int| 0 <= k < points@.len() implies decode_spec(
                            p@,
                            (#[trigger] points@[k]).0,
                            AuxInfo::Vandelmonde,
                            params,
                        ) == points@[k].1 by {}
                    }
                    Ok((AuxInfo::Vandelmonde, p))
                },
                Err(e) => Err(e),
            }
        },
        Params::Paxos(pp) => {
            match PaxosSolver::encode_with_retry(rng, points, pp) {
                Ok((seeds, p)) => {
                    let aux = AuxInfo::Paxos(seeds.0, seeds.1, seeds.2);
                    proof {
                        assert forall|k: int| 0 <= k < points@.len() implies decode_spec(
                            p@,
                            (#[trigger] points@[k]).0,
                            aux,
                            params,
                        ) == points@[k].1 by {}
                    }
                    Ok((aux, p))
                },
                Err(e) => Err(e),
            }
        },
    }
}

/// The bytes that carry auxiliary information to the peer: nothing for the
/// interpolating solver, and for PaXoS the three seeds, each as eight bytes,
/// most significant first.
pub open spec fn aux_bytes(aux: AuxInfo) -> Seq<u8> {
    match aux {
        AuxInfo::Vandelmonde => Seq::empty(),
        AuxInfo::Paxos(k1, k2, k3) => u64_be_bytes(k1) + u64_be_bytes(k2) + u64_be_bytes(k3),
    }
}

/// Number of bytes that carry the auxiliary information of a solver.
pub open spec fn aux_len(solver: SolverType) -> nat {
    match solver {
        SolverType::Vandelmonde => 0,
        SolverType::Paxos => 24,
    }
}

/// The auxiliary information that received bytes stand for.
pub open spec fn aux_of_bytes(solver: SolverType, bytes: Seq<u8>) -> AuxInfo {
    match solver {
        SolverType::Vandelmonde => AuxInfo::Vandelmonde,
        SolverType::Paxos => AuxInfo::Paxos(
            u64_from_be_bytes(bytes.subrange(0, 8)),
            u64_from_be_bytes(bytes.subrange(8, 16)),
            u64_from_be_bytes(bytes.subrange(16, 24)),
        ),
    }
}

/// Number of bytes to read for the auxiliary information of a solver.
pub fn aux_wire_len(solver: SolverType) -> (n: usize)
    ensures
        n == aux_len(solver),
{
    match solver {
        SolverType::Vandelmonde => 0,
        SolverType::Paxos => 24,
    }
}

/// What is written to the channel to send auxiliary information.
pub fn aux_send(aux: AuxInfo) -> (bytes: Vec<u8>)
    ensures
        bytes@ == aux_bytes(aux),
        bytes@.len() == aux_len(aux.solver()),
{
    match aux {
        AuxInfo::Vandelmonde => Vec::new(),
        AuxInfo::Paxos(k1, k2, k3) => {
            let mut bytes = u64_to_be(k1);
            let mut second = u64_to_be(k2);
            let mut third = u64_to_be(k3);
            bytes.append(&mut second);
            bytes.append(&mut third);
            bytes
        },
    }
}

/// What received bytes mean as auxiliary information of the given solver.
/// Any number of bytes other than the solver's is a serialization error.
pub fn aux_receive(solver: SolverType, bytes: &[u8]) -> (aux: Result<AuxInfo, Error>)
    ensures
        bytes@.len() == aux_len(solver) ==> aux == Ok::<AuxInfo, Error>(aux_of_bytes(solver, bytes@)),
        bytes@.len() != aux_len(solver) ==> aux == Err::<AuxInfo, Error>(Error::Serialization),
{
    match solver {
        SolverType::Vandelmonde => {
            if bytes.len() != 0 {
                return Err(Error::Serialization);
            }
            Ok(AuxInfo::Vandelmonde)
        },
        SolverType::Paxos => {
            if bytes.len() != 24 {
                return Err(Error::Serialization);
            }
            let k1 = u64_from_be(slice_subrange(bytes, 0, 8));
            let k2 = u64_from_be(slice_subrange(bytes, 8, 16));
            let k3 = u64_from_be(slice_subrange(bytes, 16, 24));
            Ok(AuxInfo::Paxos(k1, k2, k3))
        },
    }
}

/// Auxiliary information comes back from its bytes.
pub proof fn lemma_aux_round_trip(aux: AuxInfo)
    ensures
        aux_bytes(aux).len() == aux_len(aux.solver()),
        aux_of_bytes(aux.solver(), aux_bytes(aux)) == aux,
{
    match aux {
        AuxInfo::Vandelmonde => {},
        AuxInfo::Paxos(k1, k2, k3) => {
            lemma_u64_be_round_trip(k1);
            lemma_u64_be_round_trip(k2);
            lemma_u64_be_round_trip(k3);
            let b = aux_bytes(aux);
            assert(b.subrange(0, 8) =~= u64_be_bytes(k1));
            assert(b.subrange(8, 16) =~= u64_be_bytes(k2));
            assert(b.subrange(16, 24) =~= u64_be_bytes(k3));
        },
    }
}

} // verus!
