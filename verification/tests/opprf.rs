use preprocessing_mpsi_with_vole::cli_utils::SolverType;
use preprocessing_mpsi_with_vole::error::Error;
use preprocessing_mpsi_with_vole::field::F128b;
use preprocessing_mpsi_with_vole::preprocessed::opprf::{
    OpprfKey, SepOpprfReceiverWithVole, SepOpprfSenderWithVole,
};
use preprocessing_mpsi_with_vole::random::random_field;
use preprocessing_mpsi_with_vole::solver::{calc_params, AuxInfo, SolverParams};
use rand::rngs::StdRng;
use rand::seq::SliceRandom;
use rand::SeedableRng;
use std::collections::{HashMap, HashSet};

fn create_sets(set_size: usize, common_size: usize) -> (Vec<F128b>, Vec<F128b>, Vec<F128b>) {
    if set_size < common_size {
        panic!("set_size (={}) < common_size (={})", set_size, common_size);
    }

    let mut rng = StdRng::from_entropy();
    let common = (0..common_size)
        .map(|_| random_field(&mut rng))
        .collect::<Vec<_>>();

    let mut set1 = HashSet::<F128b>::from_iter(common.clone().into_iter());
    while set1.len() < set_size {
        set1.insert(random_field(&mut rng));
    }

    let mut set2 = HashSet::<F128b>::from_iter(common.clone().into_iter());
    while set2.len() < set_size {
        set2.insert(random_field(&mut rng));
    }

    let common = set1
        .iter()
        .filter_map(|x| if set2.contains(x) { Some(*x) } else { None })
        .collect::<Vec<_>>();

    let mut set1 = set1.into_iter().collect::<Vec<F128b>>();
    set1.shuffle(&mut rng);
    let mut set2 = set2.into_iter().collect::<Vec<_>>();
    set2.shuffle(&mut rng);

    (set1, set2, common)
}

#[allow(non_snake_case)]
fn usize2F128b(x: usize) -> F128b {
    let x = x as u128;
    let x = x.to_le_bytes();
    F128b::from_bytes(&x).unwrap()
}

fn vole(rng: &mut StdRng, m: usize) -> (F128b, Vec<F128b>, Vec<F128b>, Vec<F128b>) {
    let delta = random_field(rng);
    let a = (0..m).map(|_| random_field(rng)).collect::<Vec<_>>();
    let b = (0..m).map(|_| random_field(rng)).collect::<Vec<_>>();
    let c = a
        .iter()
        .zip(b.iter())
        .map(|(a, b)| delta.times(*a).plus(*b))
        .collect::<Vec<_>>();
    (delta, b, a, c)
}

// One run of the function between a sender with `points` and a receiver
// with `queries`. Returns the sender's function and the receiver's values.
fn run_opprf(
    solver: SolverType,
    points: &[(F128b, F128b)],
    queries: &[F128b],
    rng: &mut StdRng,
) -> (OpprfKey, Vec<(F128b, F128b)>) {
    let m_size = calc_params(solver, points.len()).code_length();
    let (delta, vec_b, vec_a, vec_c) = vole(rng, m_size);

    let opprf_sender =
        SepOpprfSenderWithVole::precomp(solver, points.len(), delta, vec_b).unwrap();
    let opprf_receiver =
        SepOpprfReceiverWithVole::precomp(solver, queries.len(), vec_a, vec_c).unwrap();

    let (aux, masked, pending) = opprf_receiver.receive_encoding(rng, queries).unwrap();
    let (answer_aux, answer, fk) = opprf_sender.send_encoding(rng, aux, masked, points).unwrap();
    let received = pending.finish(answer_aux, &answer).unwrap();
    (fk, received)
}

fn test_sep_opprf_base(solver: SolverType, set_size: usize, common_size: usize, verbose: bool) {
    let (sender_set, receiver_set, intersection) = create_sets(set_size, common_size);
    let points = sender_set
        .iter()
        .enumerate()
        .map(|(i, &x)| (x, usize2F128b(i)))
        .collect::<Vec<_>>();

    let points_2 = points.clone();

    let points: HashMap<F128b, F128b> = HashMap::from_iter(points.into_iter());

    if verbose {
        println!("sender_set = {:?}\nlen: {}", sender_set, sender_set.len());
        println!(
            "receiver_set = {:?}\nlen: {}",
            receiver_set,
            receiver_set.len()
        );
        println!(
            "intersection = {:?}\nlen: {}",
            intersection,
            intersection.len()
        );
    }

    let mut rng = StdRng::from_entropy();
    let (fk, received) = run_opprf(solver, &points_2, &receiver_set, &mut rng);

    for &(x, y) in points_2.iter() {
        let y_computed = fk.eval(x).unwrap();
        assert_eq!(y, y_computed);
    }

    assert_eq!(received.len(), receiver_set.len());
    let mut programmed = 0;
    for (x, y) in received {
        if let Some(&programmed_y) = points.get(&x) {
            assert_eq!(y, programmed_y);
            programmed += 1;
            if verbose {
                println!("{:?} is in the sender set. and f({:?}) = {:?}", x, x, y);
            }
        } else if verbose {
            println!("{:?} is not in the sender set", x);
        }
    }
    assert_eq!(programmed, intersection.len());
}

#[test]
fn test_sep_opprf_vandelmonde_small() {
    test_sep_opprf_base(SolverType::Vandelmonde, 10, 5, true);
}

#[test]
fn test_sep_opprf_paxos_small() {
    test_sep_opprf_base(SolverType::Paxos, 10, 5, true);
}

#[test]
fn test_sep_opprf_paxos_middle() {
    test_sep_opprf_base(SolverType::Paxos, 100, 50, false);
}

#[test]
fn test_sep_opprf_paxos_large() {
    test_sep_opprf_base(SolverType::Paxos, 1 << 12, 1 << 6, false);
}

#[test]
fn unprogrammed_inputs_look_random() {
    let mut rng = StdRng::seed_from_u64(31);
    let points = (0..20u128).map(|i| (F128b(i + 1), F128b(7))).collect::<Vec<_>>();
    let queries = (0..20u128).map(|i| F128b(i + 11)).collect::<Vec<_>>();
    let (_, received) = run_opprf(SolverType::Paxos, &points, &queries, &mut rng);
    for (x, y) in received {
        if x.0 <= 20 {
            assert_eq!(y, F128b(7));
        } else {
            assert_ne!(y, F128b(7));
        }
    }
}

#[test]
fn opprf_refuses_mismatches() {
    let mut rng = StdRng::seed_from_u64(2);
    let m = calc_params(SolverType::Paxos, 3).code_length();
    let (delta, vec_b, vec_a, vec_c) = vole(&mut rng, m);
    assert!(matches!(
        SepOpprfSenderWithVole::precomp(SolverType::Paxos, 3, delta, vec_b[1..].to_vec()),
        Err(Error::InvariantViolation)
    ));
    assert!(matches!(
        SepOpprfReceiverWithVole::precomp(SolverType::Paxos, 3, vec_a.clone(), vec![]),
        Err(Error::InvariantViolation)
    ));
    let sender =
        SepOpprfSenderWithVole::precomp(SolverType::Paxos, 3, delta, vec_b.clone()).unwrap();
    assert!(matches!(
        sender.send(AuxInfo::Vandelmonde, vec_a.clone(), &[]),
        Err(Error::ProtocolMisuse)
    ));
    let queries = vec![F128b(1), F128b(2), F128b(3)];
    let receiver =
        SepOpprfReceiverWithVole::precomp(SolverType::Paxos, 3, vec_a, vec_c).unwrap();
    let (_, _, pending) = receiver.receive_encoding(&mut rng, &queries).unwrap();
    assert!(matches!(
        pending.finish(AuxInfo::Vandelmonde, &[]),
        Err(Error::ProtocolMisuse)
    ));
}
