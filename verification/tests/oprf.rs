use preprocessing_mpsi_with_vole::channel_utils::{read_vec_f, read_vec_f_len, write_vec_f};
use preprocessing_mpsi_with_vole::cli_utils::SolverType;
use preprocessing_mpsi_with_vole::error::Error;
use preprocessing_mpsi_with_vole::field::F128b;
use preprocessing_mpsi_with_vole::hash_utils::{hash, hash_f};
use preprocessing_mpsi_with_vole::preprocessed::oprf::{
    SepOprfReceiverWithVole, SepOprfSenderWithVole,
};
use preprocessing_mpsi_with_vole::random::random_field;
use preprocessing_mpsi_with_vole::solver::{
    aux_receive, aux_send, calc_params, decode, AuxInfo, SolverParams,
};
use rand::rngs::StdRng;
use rand::seq::SliceRandom;
use rand::SeedableRng;
use std::collections::HashSet;

fn create_sets(set_size: usize, common_size: usize) -> (Vec<F128b>, Vec<F128b>, Vec<F128b>) {
    if set_size < common_size {
        panic!("set_size (={}) < common_size (={})", set_size, common_size);
    }

    let mut rng = StdRng::from_entropy();
    let common = (0..common_size)
        .map(|_| random_field(&mut rng))
        .collect::<Vec<_>>();

    let mut set1 = HashSet::<F128b>::from_iter(common.clone().into_iter());
    while set1.len() < set_size {
        set1.insert(random_field(&mut rng));
    }

    let mut set2 = HashSet::<F128b>::from_iter(common.clone().into_iter());
    while set2.len() < set_size {
        set2.insert(random_field(&mut rng));
    }

    let common = set1
        .iter()
        .filter_map(|x| if set2.contains(x) { Some(*x) } else { None })
        .collect::<Vec<_>>();

    let mut set1 = set1.into_iter().collect::<Vec<F128b>>();
    set1.shuffle(&mut rng);
    let mut set2 = set2.into_iter().collect::<Vec<_>>();
    set2.shuffle(&mut rng);

    (set1, set2, common)
}

// A VOLE correlation of length `m`: (delta, B) and (A, C) with C = delta A + B.
fn vole(rng: &mut StdRng, m: usize) -> (F128b, Vec<F128b>, Vec<F128b>, Vec<F128b>) {
    let delta = random_field(rng);
    let a = (0..m).map(|_| random_field(rng)).collect::<Vec<_>>();
    let b = (0..m).map(|_| random_field(rng)).collect::<Vec<_>>();
    let c = a
        .iter()
        .zip(b.iter())
        .map(|(a, b)| delta.times(*a).plus(*b))
        .collect::<Vec<_>>();
    (delta, b, a, c)
}

// Sends a vector as its frame and reads it back.
fn over_the_wire(v: &[F128b]) -> Vec<F128b> {
    let frame = write_vec_f(v);
    let len = read_vec_f_len(&frame[..8]).unwrap();
    assert_eq!(frame.len(), 8 + len);
    read_vec_f(&frame[8..]).unwrap()
}

fn test_2party_psi_base(solver: SolverType, set_size: usize, common_size: usize, verbose: bool) {
    let (sender_set, receiver_set, intersection) = create_sets(set_size, common_size);

    let m_size = calc_params(solver, set_size).code_length();

    if verbose {
        println!("sender_set = {:?}\nlen: {}", sender_set, sender_set.len());
        println!(
            "receiver_set = {:?}\nlen: {}",
            receiver_set,
            receiver_set.len()
        );
        println!(
            "intersection = {:?}\nlen: {}",
            intersection,
            intersection.len()
        );
    } else {
        println!("set_size = {}", set_size);
        println!("common_size = {}", common_size);
    }

    let mut rng = StdRng::from_entropy();

    // offline phase
    let (delta, vec_b, vec_a, vec_c) = vole(&mut rng, m_size);
    let oprf_sender =
        SepOprfSenderWithVole::precomp(solver, sender_set.len(), delta, vec_b).unwrap();
    let oprf_receiver =
        SepOprfReceiverWithVole::precomp(solver, receiver_set.len(), vec_a, vec_c.clone())
            .unwrap();

    // online phase: the receiver encodes and masks
    let (aux, p_plus_a, received) = oprf_receiver.receive_encoding(&mut rng, &receiver_set).unwrap();
    assert_eq!(p_plus_a.len(), m_size);

    // the receiver's outputs are H(decode(C, x), x)
    for (x, y) in received.iter().take(20) {
        let d = decode(&vec_c, *x, aux, calc_params(solver, set_size)).unwrap();
        assert_eq!(*y, hash(d, *x).unwrap());
    }

    // online phase: the sender takes what travelled
    let aux = aux_receive(solver, &aux_send(aux)).unwrap();
    let a_dash = over_the_wire(&p_plus_a);
    let fk = oprf_sender.send(aux, a_dash).unwrap();

    let fk_set = sender_set
        .iter()
        .map(|&x| fk.eval(x).unwrap())
        .collect::<HashSet<_>>();

    let res = received
        .into_iter()
        .filter_map(|(x, y)| if fk_set.contains(&y) { Some(x) } else { None })
        .collect::<Vec<_>>();

    let res = HashSet::<F128b>::from_iter(res.into_iter());
    let intersection = HashSet::<F128b>::from_iter(intersection.into_iter());

    assert_eq!(res, intersection);
}

#[test]
fn test_2party_psi_vandelmonde() {
    test_2party_psi_base(SolverType::Vandelmonde, 10, 5, true);
}

#[test]
fn test_2party_psi_paxos() {
    test_2party_psi_base(SolverType::Paxos, 10, 5, true);
}

#[test]
fn test_2party_psi_paxos_middle() {
    test_2party_psi_base(SolverType::Paxos, 1 << 16, 1 << 15, false);
}

#[test]
fn test_2party_psi_paxos_large() {
    test_2party_psi_base(SolverType::Paxos, 1 << 17, 1 << 16, false);
}

#[test]
fn oprf_agrees_at_every_query() {
    let mut rng = StdRng::seed_from_u64(4);
    let queries = (0..40u128).map(|i| F128b(i * 3 + 1)).collect::<Vec<_>>();
    let m = calc_params(SolverType::Paxos, queries.len()).code_length();
    let (delta, vec_b, vec_a, vec_c) = vole(&mut rng, m);
    let sender = SepOprfSenderWithVole::precomp(SolverType::Paxos, 40, delta, vec_b).unwrap();
    let receiver =
        SepOprfReceiverWithVole::precomp(SolverType::Paxos, 40, vec_a, vec_c).unwrap();
    let (aux, masked, outputs) = receiver.receive_encoding(&mut rng, &queries).unwrap();
    let key = sender.send(aux, masked).unwrap();
    for (x, y) in outputs.iter() {
        assert_eq!(key.eval(*x), Ok(*y));
    }
    // Outside the queries the two sides do not agree.
    let other = F128b(2);
    assert!(!queries.contains(&other));
    assert_ne!(key.eval(other).unwrap(), hash_f(other).unwrap());
}

#[test]
fn oprf_refuses_mismatches() {
    let mut rng = StdRng::seed_from_u64(8);
    let m = calc_params(SolverType::Paxos, 4).code_length();
    let (delta, vec_b, vec_a, vec_c) = vole(&mut rng, m);

    assert!(matches!(
        SepOprfSenderWithVole::precomp(SolverType::Paxos, 4, delta, vec_b[1..].to_vec()),
        Err(Error::InvariantViolation)
    ));
    assert!(matches!(
        SepOprfReceiverWithVole::precomp(
            SolverType::Paxos,
            4,
            vec_a[1..].to_vec(),
            vec_c.clone()
        ),
        Err(Error::InvariantViolation)
    ));
    assert!(matches!(
        SepOprfReceiverWithVole::precomp(
            SolverType::Paxos,
            4,
            vec_a.clone(),
            vec_c[1..].to_vec()
        ),
        Err(Error::InvariantViolation)
    ));

    let sender =
        SepOprfSenderWithVole::precomp(SolverType::Paxos, 4, delta, vec_b.clone()).unwrap();
    assert!(matches!(
        sender.send(AuxInfo::Vandelmonde, vec_a.clone()),
        Err(Error::ProtocolMisuse)
    ));
    let sender =
        SepOprfSenderWithVole::precomp(SolverType::Paxos, 4, delta, vec_b.clone()).unwrap();
    assert!(matches!(
        sender.send(AuxInfo::Paxos(1, 2, 3), vec_a[1..].to_vec()),
        Err(Error::InvariantViolation)
    ));

    let queries = vec![F128b(1), F128b(2), F128b(3), F128b(4)];
    let receiver =
        SepOprfReceiverWithVole::precomp(SolverType::Paxos, 4, vec_a.clone(), vec_c.clone())
            .unwrap();
    assert!(matches!(
        receiver.receive(&queries, AuxInfo::Vandelmonde, vec_a.clone()),
        Err(Error::ProtocolMisuse)
    ));
    let receiver =
        SepOprfReceiverWithVole::precomp(SolverType::Paxos, 4, vec_a.clone(), vec_c.clone())
            .unwrap();
    assert!(matches!(
        receiver.receive(&queries, AuxInfo::Paxos(1, 2, 3), vec_a[1..].to_vec()),
        Err(Error::InvariantViolation)
    ));
    let receiver = SepOprfReceiverWithVole::precomp(
        SolverType::Vandelmonde,
        4,
        vec_a[..4].to_vec(),
        vec_c[..4].to_vec(),
    )
    .unwrap();
    // Fewer queries than the shares were made for give a code vector of
    // another length than the shares.
    assert!(matches!(
        receiver.receive_encoding(&mut rng, &queries[..3]),
        Err(Error::InvariantViolation)
    ));
    let receiver = SepOprfReceiverWithVole::precomp(
        SolverType::Vandelmonde,
        4,
        vec_a[..4].to_vec(),
        vec_c[..4].to_vec(),
    )
    .unwrap();
    let twice = vec![F128b(1), F128b(2), F128b(1), F128b(4)];
    assert!(matches!(
        receiver.receive_encoding(&mut rng, &twice),
        Err(Error::SolverNoSolution)
    ));
}

#[test]
fn oprf_key_vector_and_mask() {
    // With the interpolating solver the code length is the number of queries.
    let delta = F128b(2);
    let vec_b = vec![F128b(10), F128b(20)];
    let sender =
        SepOprfSenderWithVole::precomp(SolverType::Vandelmonde, 2, delta, vec_b).unwrap();
    let key = sender
        .send(AuxInfo::Vandelmonde, vec![F128b(1), F128b(3)])
        .unwrap();
    // K = delta * A' + B = (2 + 10, 6 + 20); K(x) = 8 + 18 x.
    let x = F128b(1);
    let d = F128b(8 ^ 18);
    let expected = hash(d.minus(delta.times(hash_f(x).unwrap())), x).unwrap();
    assert_eq!(key.eval(x), Ok(expected));

    let receiver = SepOprfReceiverWithVole::precomp(
        SolverType::Vandelmonde,
        2,
        vec![F128b(5), F128b(6)],
        vec![F128b(7), F128b(1)],
    )
    .unwrap();
    let (masked, out) = receiver
        .receive(&[F128b(1)], AuxInfo::Vandelmonde, vec![F128b(9), F128b(12)])
        .unwrap();
    assert_eq!(masked, vec![F128b(9 ^ 5), F128b(12 ^ 6)]);
    // C(x) = 7 + x at x = 1.
    assert_eq!(out, vec![(F128b(1), hash(F128b(6), F128b(1)).unwrap())]);
    assert_eq!(
        SepOprfReceiverWithVole::points(&[F128b(1)]),
        vec![(F128b(1), hash_f(F128b(1)).unwrap())]
    );
}
