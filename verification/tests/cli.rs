use preprocessing_mpsi_with_vole::cli_utils::{
    ChannelType, KmprtArgs, MultiThreadOptimization, PrePSIArgs, SolverType, VoleType,
};
use preprocessing_mpsi_with_vole::solver::{calc_params, decode, AuxInfo, Params, SolverParams};
use preprocessing_mpsi_with_vole::error::Error;
use preprocessing_mpsi_with_vole::field::F128b;

#[test]
fn option_names() {
    assert_eq!(VoleType::Ot.name(), "ot");
    assert_eq!(VoleType::Lpn.name(), "lpn");
    assert_eq!(SolverType::Vandelmonde.name(), "vandelmonde");
    assert_eq!(SolverType::Paxos.name(), "paxos");
    assert_eq!(ChannelType::Unix.name(), "unix");
    assert_eq!(ChannelType::Tcp.name(), "tcp");
    assert_eq!(ChannelType::CrossBeam.name(), "crossbeam");
    assert_eq!(MultiThreadOptimization::On.name(), "on");
    assert_eq!(MultiThreadOptimization::Off.name(), "off");
}

#[test]
fn default_options() {
    let args = PrePSIArgs::default();
    assert_eq!(args.num_parties, 3);
    assert_eq!(args.set_size, 10);
    assert_eq!(args.common_size, 5);
    assert_eq!(args.vole_type, VoleType::Lpn);
    assert_eq!(args.solver_type, SolverType::Paxos);
    assert_eq!(args.channel_type, ChannelType::Unix);
    assert_eq!(args.port, 10000);
    assert_eq!(args.multi_thread, MultiThreadOptimization::On);
    assert!(!args.verbose);

    let args = KmprtArgs::default();
    assert_eq!(args.num_parties, 3);
    assert_eq!(args.set_size, 10);
    assert_eq!(args.common_size, 5);
    assert_eq!(args.channel_type, ChannelType::Unix);
    assert_eq!(args.port, 10000);
    assert!(!args.verbose);
}

#[test]
fn solvers_by_tag() {
    assert_eq!(calc_params(SolverType::Vandelmonde, 10).code_length(), 10);
    assert_eq!(calc_params(SolverType::Paxos, 10).code_length(), 20 + 44);
    assert!(matches!(
        calc_params(SolverType::Paxos, 10),
        Params::Paxos(_)
    ));
    // Auxiliary information of one solver does not decode the other's code.
    let p = vec![F128b(1); 10];
    assert_eq!(
        decode(&p, F128b(3), AuxInfo::Paxos(1, 2, 3), calc_params(SolverType::Vandelmonde, 10)),
        Err(Error::InvariantViolation)
    );
    assert_eq!(
        decode(&p, F128b(3), AuxInfo::Vandelmonde, calc_params(SolverType::Paxos, 10)),
        Err(Error::InvariantViolation)
    );
    assert!(decode(&p, F128b(3), AuxInfo::Vandelmonde, calc_params(SolverType::Vandelmonde, 10))
        .is_ok());
}
