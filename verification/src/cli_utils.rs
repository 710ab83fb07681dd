//! The options of a protocol run: how correlations are shared, which solver
//! encodes, and how the parties are connected.

use crate::solver::{code_length_for, SolverParams};
use vstd::prelude::*;

verus! {

/// How VOLE correlations are shared.
#[derive(Clone, Copy, Debug, PartialEq, Eq, Structural)]
pub enum VoleType {
    /// From oblivious transfers.
    Ot,
    /// From the learning-parity-with-noise assumption.
    Lpn,
}

/// Which solver encodes points into code vectors.
#[derive(Clone, Copy, Debug, PartialEq, Eq, Structural)]
pub enum SolverType {
    /// Polynomial interpolation.
    Vandelmonde,
    /// Probe-and-XOR of strings.
    Paxos,
}

/// How the parties are connected.
#[derive(Clone, Copy, Debug, PartialEq, Eq, Structural)]
pub enum ChannelType {
    /// Unix domain sockets.
    Unix,
    /// TCP sockets.
    Tcp,
    /// In-process queues.
    CrossBeam,
}

/// Whether each party talks to every peer in a thread of its own.
#[derive(Clone, Copy, Debug, PartialEq, Eq, Structural)]
pub enum MultiThreadOptimization {
    On,
    Off,
}

impl VoleType {
    pub open spec fn spec_name(self) -> Seq<char> {
        match self {
            VoleType::Ot => "ot"@,
            VoleType::Lpn => "lpn"@,
        }
    }

    /// The name of the option on the command line.
    pub fn name(&self) -> (s: &'static str)
        ensures
            s@ == self.spec_name(),
    {
        match self {
            VoleType::Ot => "ot",
            VoleType::Lpn => "lpn",
        }
    }
}

impl SolverType {
    pub open spec fn spec_name(self) -> Seq<char> {
        match self {
            SolverType::Vandelmonde => "vandelmonde"@,
            SolverType::Paxos => "paxos"@,
        }
    }

    /// The name of the option on the command line.
    pub fn name(&self) -> (s: &'static str)
        ensures
            s@ == self.spec_name(),
    {
        match self {
            SolverType::Vandelmonde => "vandelmonde",
            SolverType::Paxos => "paxos",
        }
    }
}

impl ChannelType {
    pub open spec fn spec_name(self) -> Seq<char> {
        match self {
            ChannelType::Unix => "unix"@,
            ChannelType::Tcp => "tcp"@,
            ChannelType::CrossBeam => "crossbeam"@,
        }
    }

    /// The name of the option on the command line.
    pub fn name(&self) -> (s: &'static str)
        ensures
            s@ == self.spec_name(),
    {
        match self {
            ChannelType::Unix => "unix",
            ChannelType::Tcp => "tcp",
            ChannelType::CrossBeam => "crossbeam",
        }
    }
}

impl MultiThreadOptimization {
    pub open spec fn spec_name(self) -> Seq<char> {
        match self {
            MultiThreadOptimization::On => "on"@,
            MultiThreadOptimization::Off => "off"@,
        }
    }

    /// The name of the option on the command line.
    pub fn name(&self) -> (s: &'static str)
        ensures
            s@ == self.spec_name(),
    {
        match self {
            MultiThreadOptimization::On => "on",
            MultiThreadOptimization::Off => "off",
        }
    }
}

/// Options of a run of the preprocessing protocol.
#[derive(Clone, Copy, Debug)]
pub struct PrePSIArgs {
    /// Number of parties.
    pub num_parties: usize,
    /// Number of elements in each party's set.
    pub set_size: usize,
    /// Number of elements that all sets share.
    pub common_size: usize,
    pub vole_type: VoleType,
    pub solver_type: SolverType,
    pub channel_type: ChannelType,
    /// Base port of the TCP channels.
    pub port: usize,
    pub multi_thread: MultiThreadOptimization,
    /// Whether the sets and the intersection are printed.
    pub verbose: bool,
}

impl Default for PrePSIArgs {
    fn default() -> (args: PrePSIArgs)
        ensures
            args.num_parties == 3,
            args.set_size == 10,
            args.common_size == 5,
            args.vole_type == VoleType::Lpn,
            args.solver_type == SolverType::Paxos,
            args.channel_type == ChannelType::Unix,
            args.port == 10000,
            args.multi_thread == MultiThreadOptimization::On,
            !args.verbose,
    {
        PrePSIArgs {
            num_parties: 3,
            set_size: 10,
            common_size: 5,
            vole_type: VoleType::Lpn,
            solver_type: SolverType::Paxos,
            channel_type: ChannelType::Unix,
            port: 10000,
            multi_thread: MultiThreadOptimization::On,
            verbose: false,
        }
    }
}

/// Options of a run of the protocol without preprocessing.
#[derive(Clone, Copy, Debug)]
pub struct KmprtArgs {
    /// Number of parties.
    pub num_parties: usize,
    /// Number of elements in each party's set.
    pub set_size: usize,
    /// Number of elements that all sets share.
    pub common_size: usize,
    pub channel_type: ChannelType,
    /// Base port of the TCP channels.
    pub port: usize,
    /// Whether the sets and the intersection are printed.
    pub verbose: bool,
}

impl Default for KmprtArgs {
    fn default() -> (args: KmprtArgs)
        ensures
            args.num_parties == 3,
            args.set_size == 10,
            args.common_size == 5,
            args.channel_type == ChannelType::Unix,
            args.port == 10000,
            !args.verbose,
    {
        KmprtArgs {
            num_parties: 3,
            set_size: 10,
            common_size: 5,
            channel_type: ChannelType::Unix,
            port: 10000,
            verbose: false,
        }
    }
}

/// The two public parameter sets of the LPN-based VOLE extension.
#[derive(Clone, Copy, Debug, PartialEq, Eq, Structural)]
pub enum LpnSize {
    Small,
    Medium,
}

/// The first correlation length that needs the medium parameter set.
pub const LPN_MEDIUM_FROM: usize = 131072;

/// The parameter set for correlations of length `m`: small below `2^17`,
/// medium from there on.
pub fn lpn_size_for(m: usize) -> (size: LpnSize)
    ensures
        size == if m < 131072 {
            LpnSize::Small
        } else {
            LpnSize::Medium
        },
{
    if m < LPN_MEDIUM_FROM {
        LpnSize::Small
    } else {
        LpnSize::Medium
    }
}

/// How the sender's side of a VOLE correlation is to be obtained.
#[derive(Clone, Copy, Debug, PartialEq, Eq, Structural)]
pub enum VoleShareForSenderUnion {
    Ot,
    Lpn(LpnSize),
}

/// How the receiver's side of a VOLE correlation is to be obtained.
#[derive(Clone, Copy, Debug, PartialEq, Eq, Structural)]
pub enum VoleShareForReceiverUnion {
    Ot,
    Lpn(LpnSize),
}

/// What [`create_vole_sr`] chooses.
pub open spec fn vole_choice(vole_type: VoleType, m: nat) -> (
    VoleShareForSenderUnion,
    VoleShareForReceiverUnion,
) {
    match vole_type {
        VoleType::Ot => (VoleShareForSenderUnion::Ot, VoleShareForReceiverUnion::Ot),
        VoleType::Lpn => if m < 131072 {
            (
                VoleShareForSenderUnion::Lpn(LpnSize::Small),
                VoleShareForReceiverUnion::Lpn(LpnSize::Small),
            )
        } else {
            (
                VoleShareForSenderUnion::Lpn(LpnSize::Medium),
                VoleShareForReceiverUnion::Lpn(LpnSize::Medium),
            )
        },
    }
}

/// Chooses how both sides obtain their correlations for sets of `set_size`
/// elements under the given solver: for LPN, the parameter set that the
/// solver's code length calls for.
pub fn create_vole_sr(solver: SolverType, vole_type: VoleType, set_size: usize) -> (sr: (
    VoleShareForSenderUnion,
    VoleShareForReceiverUnion,
))
    requires
        code_length_for(solver, set_size as nat) <= usize::MAX,
    ensures
        sr == vole_choice(vole_type, code_length_for(solver, set_size as nat)),
{
    match vole_type {
        VoleType::Ot => (VoleShareForSenderUnion::Ot, VoleShareForReceiverUnion::Ot),
        VoleType::Lpn => {
            let m = crate::solver::calc_params(solver, set_size).code_length();
            let size = lpn_size_for(m);
            (VoleShareForSenderUnion::Lpn(size), VoleShareForReceiverUnion::Lpn(size))
        },
    }
}

} // verus!
