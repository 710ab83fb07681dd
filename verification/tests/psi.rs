use preprocessing_mpsi_with_vole::cli_utils::{SolverType, VoleType};
use preprocessing_mpsi_with_vole::error::Error;
use preprocessing_mpsi_with_vole::field::F128b;
use preprocessing_mpsi_with_vole::preprocessed::opprf::{
    SepOpprfReceiverWithVole, SepOpprfSenderWithVole,
};
use preprocessing_mpsi_with_vole::preprocessed::psi::{
    accumulate, pair_points, secret_sharing_of_zero, select_intersection, shares_of_zero_from,
    sort_by_party, turn, Party, Receiver, Sender, Turn, ZeroShares,
};
use preprocessing_mpsi_with_vole::random::random_field;
use preprocessing_mpsi_with_vole::set_utils::create_sets_without_check;
use preprocessing_mpsi_with_vole::solver::{calc_params, SolverParams};
use preprocessing_mpsi_with_vole::vole::ot_based::{OtVoleReceiver, OtVoleSender};
use rand::rngs::StdRng;
use rand::{Rng, SeedableRng};
use std::collections::HashSet;

#[test]
fn test_secret_sharing_of_zero() {
    let mut rng = StdRng::from_entropy();
    let nparties = (rng.gen::<usize>() % 98) + 2;
    let shares: Vec<F128b> = secret_sharing_of_zero(nparties, &mut rng);
    assert!(shares.len() == nparties);
    let mut sum = F128b::zero();
    for s in shares.into_iter() {
        assert!(s != F128b::zero());
        sum = sum.plus(s);
    }
    assert_eq!(sum, F128b::zero());
}

// A VOLE correlation of length `m`, as an expansion or as transfers would
// give it.
fn vole(vole_type: VoleType, rng: &mut StdRng, m: usize) -> (F128b, Vec<F128b>, Vec<F128b>, Vec<F128b>) {
    match vole_type {
        VoleType::Lpn => {
            let delta = random_field(rng);
            let a = (0..m).map(|_| random_field(rng)).collect::<Vec<_>>();
            let b = (0..m).map(|_| random_field(rng)).collect::<Vec<_>>();
            let c = a
                .iter()
                .zip(b.iter())
                .map(|(a, b)| delta.times(*a).plus(*b))
                .collect::<Vec<_>>();
            (delta, b, a, c)
        }
        VoleType::Ot => {
            let mut vole_sender = OtVoleSender::new();
            let (delta, b_vec, inputs) = vole_sender.receive(rng, m).unwrap();
            let mut vole_receiver = OtVoleReceiver::new();
            let (a_vec, choices) = vole_receiver.sample(rng, m).unwrap();
            let rhos = inputs
                .iter()
                .zip(choices.iter())
                .map(|(pair, bit)| if *bit { pair.1 } else { pair.0 })
                .collect::<Vec<_>>();
            let (a_vec, c_vec) = vole_receiver.receive(a_vec, &rhos).unwrap();
            (delta, b_vec, a_vec, c_vec)
        }
    }
}

// The two roles of one function after the offline phase.
fn opprf_pair(
    solver: SolverType,
    vole_type: VoleType,
    set_size: usize,
    rng: &mut StdRng,
) -> (SepOpprfSenderWithVole, SepOpprfReceiverWithVole) {
    let m = calc_params(solver, set_size).code_length();
    let (delta, vec_b, vec_a, vec_c) = vole(vole_type, rng, m);
    (
        SepOpprfSenderWithVole::precomp(solver, set_size, delta, vec_b).unwrap(),
        SepOpprfReceiverWithVole::precomp(solver, set_size, vec_a, vec_c).unwrap(),
    )
}

// One online run of a function: what the receiver gets at its queries.
fn run_opprf(
    sender: SepOpprfSenderWithVole,
    receiver: SepOpprfReceiverWithVole,
    points: &[(F128b, F128b)],
    queries: &[F128b],
    rng: &mut StdRng,
) -> Vec<(F128b, F128b)> {
    let (aux, masked, pending) = receiver.receive_encoding(rng, queries).unwrap();
    let (answer_aux, answer, _fk) = sender.send_encoding(rng, aux, masked, points).unwrap();
    pending.finish(answer_aux, &answer).unwrap()
}

fn test_protocol_base(
    solver: SolverType,
    vole_type: VoleType,
    nparties: usize,
    set_size: usize,
    common_size: usize,
) {
    let mut rng = StdRng::from_entropy();

    let (intersection, sets) =
        create_sets_without_check(nparties, set_size, common_size, &mut rng).unwrap();

    println!("intersection prepared.");

    // offline phase: every party gets its roles towards every peer
    let mut senders: Vec<Vec<(usize, SepOpprfSenderWithVole)>> =
        (0..nparties).map(|_| Vec::new()).collect();
    let mut receivers: Vec<Vec<(usize, SepOpprfReceiverWithVole)>> =
        (0..nparties).map(|_| Vec::new()).collect();
    for i in 0..nparties {
        for j in 0..nparties {
            if i != j {
                let (s, r) = opprf_pair(solver, vole_type, set_size, &mut rng);
                senders[i].push((j, s));
                receivers[j].push((i, r));
            }
        }
    }
    let mut rc_senders = Vec::new();
    let mut rc_receivers = Vec::new();
    for j in 1..nparties {
        let (s, r) = opprf_pair(solver, vole_type, set_size, &mut rng);
        rc_senders.push(s);
        rc_receivers.push((j, r));
    }

    let mut parties = Vec::new();
    for (i, (s, r)) in senders.into_iter().zip(receivers.into_iter()).enumerate() {
        parties.push(Party::precomp(i, s, r).unwrap());
    }
    let mut parties = parties.into_iter();
    let receiver = Receiver::precomp(parties.next().unwrap(), rc_receivers).unwrap();
    assert_eq!(receiver.get_id(), 0);
    let mut senders = Vec::new();
    for (j, (party, rc)) in parties.zip(rc_senders.into_iter()).enumerate() {
        let sender = Sender::precomp(j + 1, party, rc).unwrap();
        assert_eq!(sender.get_id(), j + 1);
        println!("sender {} prepared.", j + 1);
        senders.push(sender);
    }
    println!("receiver prepared.");

    // online phase: conditional zero sharing
    let (sharing0, rc_receivers) = receiver.receive(set_size, &mut rng).unwrap();
    let mut sharings = vec![sharing0];
    let mut rc_senders = Vec::new();
    for sender in senders {
        let (sharing, rc) = sender.send(set_size, &mut rng).unwrap();
        sharings.push(sharing);
        rc_senders.push(rc);
    }

    for i in 0..nparties {
        for j in (i + 1)..nparties {
            let with_j = sharings[i].next_exchange(&sets[i]).unwrap().unwrap();
            let with_i = sharings[j].next_exchange(&sets[j]).unwrap().unwrap();
            assert_eq!(with_j.link.them, j);
            assert_eq!(with_i.link.them, i);
            assert_eq!(with_j.turn, Turn::SendFirst);
            assert_eq!(with_i.turn, Turn::ReceiveFirst);

            // the lower number sends first
            let s_hats = run_opprf(
                with_j.link.sender,
                with_i.link.receiver,
                &with_j.points,
                &sets[j],
                &mut rng,
            );
            sharings[j].absorb(&s_hats).unwrap();

            let s_hats = run_opprf(
                with_i.link.sender,
                with_j.link.receiver,
                &with_i.points,
                &sets[i],
                &mut rng,
            );
            sharings[i].absorb(&s_hats).unwrap();
        }
    }
    let mut sums = Vec::new();
    for mut sharing in sharings {
        assert!(matches!(sharing.next_exchange(&sets[0]), Ok(None)));
        sums.push(sharing.into_sums().unwrap());
    }

    // online phase: conditional reconstruction
    for ((j, rc_sender), (them, rc_receiver)) in
        rc_senders.into_iter().enumerate().zip(rc_receivers.into_iter())
    {
        assert_eq!(them, j + 1);
        let points = pair_points(&sets[j + 1], &sums[j + 1]).unwrap();
        let shares = run_opprf(rc_sender, rc_receiver, &points, &sets[0], &mut rng);
        let (mine, _) = sums.split_at_mut(1);
        accumulate(&mut mine[0], &shares).unwrap();
        println!("sender {} finished.", j + 1);
    }

    let res = select_intersection(&sets[0], &sums[0]);

    println!("receiver finished.");

    assert_eq!(res.len(), common_size);
    for x in res.iter() {
        for set in sets.iter() {
            assert!(set.contains(x));
        }
    }

    let res: HashSet<F128b> = HashSet::from_iter(res);
    let intersection: HashSet<F128b> = HashSet::from_iter(intersection);

    assert_eq!(res, intersection);
}

#[test]
fn test_protocol_vandelmonde_small() {
    let nparties = 3;
    let set_size = 10;
    let common_size = 5;
    test_protocol_base(
        SolverType::Vandelmonde,
        VoleType::Lpn,
        nparties,
        set_size,
        common_size,
    );
}

#[test]
fn test_protocol_paxos_small() {
    let nparties = 3;
    let set_size = 10;
    let common_size = 5;
    test_protocol_base(SolverType::Paxos, VoleType::Lpn, nparties, set_size, common_size);
}

#[test]
fn test_protocol_paxos_middle() {
    let nparties = 5;
    let set_size = 1 << 10;
    let common_size = 1 << 5;
    test_protocol_base(SolverType::Paxos, VoleType::Lpn, nparties, set_size, common_size);
}

#[test]
fn protocol_paxos_on_larger_sets() {
    let nparties = 5;
    let set_size = 1 << 13;
    let common_size = 1 << 5;
    test_protocol_base(SolverType::Paxos, VoleType::Lpn, nparties, set_size, common_size);
}

#[test]
fn test_protocol_paxos_small_with_ot() {
    let nparties = 3;
    let set_size = 10;
    let common_size = 5;
    test_protocol_base(SolverType::Paxos, VoleType::Ot, nparties, set_size, common_size);
}

#[test]
fn test_protocol_paxos_middle_with_ot() {
    let nparties = 5;
    let set_size = 1 << 10;
    let common_size = 1 << 5;
    test_protocol_base(SolverType::Paxos, VoleType::Ot, nparties, set_size, common_size);
}

#[test]
fn protocol_paxos_with_ot_on_larger_sets() {
    let nparties = 5;
    let set_size = 3 << 9;
    let common_size = 1 << 5;
    test_protocol_base(SolverType::Paxos, VoleType::Ot, nparties, set_size, common_size);
}

#[test]
fn zero_sharing_from_given_shares() {
    let shares = shares_of_zero_from(vec![F128b(1), F128b(2), F128b(4)]);
    assert_eq!(shares, vec![F128b(1), F128b(2), F128b(4), F128b(7)]);
    assert_eq!(shares_of_zero_from(vec![]), vec![F128b(0)]);

    let mut rng = StdRng::seed_from_u64(6);
    let z = ZeroShares::sample(4, 3, &mut rng);
    let columns = (0..4).map(|j| z.shares_for(j).unwrap()).collect::<Vec<_>>();
    for k in 0..3 {
        let sum = columns.iter().fold(F128b::zero(), |s, c| s.plus(c[k]));
        assert_eq!(sum, F128b::zero());
    }
    assert_eq!(z.shares_for(4), Err(Error::ProtocolMisuse));
}

#[test]
fn sums_and_selection() {
    let inputs = vec![F128b(10), F128b(20), F128b(30)];
    let mut sums = vec![F128b(1), F128b(2), F128b(3)];
    let received = vec![
        (F128b(10), F128b(1)),
        (F128b(20), F128b(5)),
        (F128b(30), F128b(3)),
    ];
    assert_eq!(accumulate(&mut sums, &received), Ok(()));
    assert_eq!(sums, vec![F128b(0), F128b(7), F128b(0)]);
    assert_eq!(select_intersection(&inputs, &sums), vec![F128b(10), F128b(30)]);
    assert_eq!(select_intersection(&inputs, &sums[..1]), vec![F128b(10)]);
    assert_eq!(select_intersection(&inputs, &[]), vec![]);

    assert_eq!(
        accumulate(&mut sums, &received[..2]),
        Err(Error::InvariantViolation)
    );
    assert_eq!(sums, vec![F128b(0), F128b(7), F128b(0)]);

    assert_eq!(
        pair_points(&inputs, &sums),
        Ok(vec![
            (F128b(10), F128b(0)),
            (F128b(20), F128b(7)),
            (F128b(30), F128b(0))
        ])
    );
    assert_eq!(
        pair_points(&inputs, &sums[..2]),
        Err(Error::InvariantViolation)
    );
}

#[test]
fn the_lower_number_sends_first() {
    assert_eq!(turn(0, 1), Turn::SendFirst);
    assert_eq!(turn(1, 0), Turn::ReceiveFirst);
    assert_eq!(turn(2, 4), Turn::SendFirst);
    assert_eq!(turn(4, 2), Turn::ReceiveFirst);
}

#[test]
fn peers_are_put_in_order() {
    let mut v = vec![(3usize, 'c'), (1, 'a'), (2, 'b'), (1, 'z'), (0, 'o')];
    sort_by_party(&mut v);
    assert_eq!(
        v.iter().map(|e| e.0).collect::<Vec<_>>(),
        vec![0, 1, 1, 2, 3]
    );
    let mut letters = v.iter().map(|e| e.1).collect::<Vec<_>>();
    letters.sort();
    assert_eq!(letters, vec!['a', 'b', 'c', 'o', 'z']);

    let mut rng = StdRng::seed_from_u64(12);
    let solver = SolverType::Paxos;
    let mut senders = Vec::new();
    let mut receivers = Vec::new();
    for them in [3usize, 0, 2] {
        let (s, _) = opprf_pair(solver, VoleType::Lpn, 2, &mut rng);
        senders.push((them, s));
    }
    for them in [0usize, 2, 3] {
        let (_, r) = opprf_pair(solver, VoleType::Lpn, 2, &mut rng);
        receivers.push((them, r));
    }
    let mut party = Party::precomp(1, senders, receivers).unwrap();
    assert_eq!(party.get_id(), 1);
    assert_eq!(party.remaining(), 3);
    let order = (0..3)
        .map(|_| {
            let (t, link) = party.next_peer().unwrap();
            (link.them, t)
        })
        .collect::<Vec<_>>();
    assert_eq!(
        order,
        vec![
            (0, Turn::ReceiveFirst),
            (2, Turn::SendFirst),
            (3, Turn::SendFirst)
        ]
    );
    assert!(party.next_peer().is_none());
}

#[test]
fn misnumbered_parties_are_refused() {
    let mut rng = StdRng::seed_from_u64(13);
    let solver = SolverType::Paxos;
    let (s, r) = opprf_pair(solver, VoleType::Lpn, 2, &mut rng);
    assert!(matches!(
        Party::precomp(0, vec![(1, s)], vec![(2, r)]),
        Err(Error::InvariantViolation)
    ));
    let (s, _) = opprf_pair(solver, VoleType::Lpn, 2, &mut rng);
    assert!(matches!(
        Party::precomp(0, vec![(1, s)], vec![]),
        Err(Error::InvariantViolation)
    ));

    let (rc, _) = opprf_pair(solver, VoleType::Lpn, 2, &mut rng);
    let party = Party::precomp(0, vec![], vec![]).unwrap();
    assert!(matches!(
        Sender::precomp(0, party, rc),
        Err(Error::ProtocolMisuse)
    ));
    let party = Party::precomp(2, vec![], vec![]).unwrap();
    assert!(matches!(
        Receiver::precomp(party, vec![]),
        Err(Error::ProtocolMisuse)
    ));
}

#[test]
fn sharing_deals_and_sums() {
    let mut rng = StdRng::seed_from_u64(21);
    let solver = SolverType::Paxos;
    let inputs = vec![F128b(10), F128b(20)];
    let mut senders = Vec::new();
    let mut receivers = Vec::new();
    for them in [2usize, 0] {
        let (s, r) = opprf_pair(solver, VoleType::Lpn, 2, &mut rng);
        senders.push((them, s));
        receivers.push((them, r));
    }
    let party = Party::precomp(1, senders, receivers).unwrap();
    let mut sharing = party.conditional_secret_sharing(inputs.len(), &mut rng).unwrap();

    // Too few inputs leave the peer in place.
    assert!(matches!(
        sharing.next_exchange(&inputs[..1]),
        Err(Error::InvariantViolation)
    ));

    let first = sharing.next_exchange(&inputs).unwrap().unwrap();
    assert_eq!(first.link.them, 0);
    assert_eq!(first.turn, Turn::ReceiveFirst);
    let second = sharing.next_exchange(&inputs).unwrap().unwrap();
    assert_eq!(second.link.them, 2);
    assert_eq!(second.turn, Turn::SendFirst);
    assert!(matches!(sharing.next_exchange(&inputs), Ok(None)));
    assert_eq!(
        first.points.iter().map(|p| p.0).collect::<Vec<_>>(),
        inputs
    );

    // One value per sum, or nothing is added.
    assert_eq!(
        sharing.absorb(&[(F128b(10), F128b(1))]),
        Err(Error::InvariantViolation)
    );
    sharing
        .absorb(&[(F128b(10), F128b(1)), (F128b(20), F128b(2))])
        .unwrap();
    let sums = sharing.into_sums().unwrap();

    // For every input the three shares sum to zero: the party's own share
    // is its sum without what it took in.
    for k in 0..inputs.len() {
        let own = sums[k].minus(F128b(k as u128 + 1));
        assert_eq!(own.plus(first.points[k].1).plus(second.points[k].1), F128b(0));
    }
}

#[test]
fn sharing_refuses_misuse() {
    let mut rng = StdRng::seed_from_u64(22);
    let solver = SolverType::Paxos;

    // Party 5 with one peer has no share of its own.
    let (s, r) = opprf_pair(solver, VoleType::Lpn, 2, &mut rng);
    let party = Party::precomp(5, vec![(0, s)], vec![(0, r)]).unwrap();
    assert!(matches!(
        party.conditional_secret_sharing(2, &mut rng),
        Err(Error::ProtocolMisuse)
    ));

    // Peer 7 of two parties has no share either.
    let (s, r) = opprf_pair(solver, VoleType::Lpn, 2, &mut rng);
    let party = Party::precomp(0, vec![(7, s)], vec![(7, r)]).unwrap();
    let mut sharing = party.conditional_secret_sharing(2, &mut rng).unwrap();
    assert!(matches!(
        sharing.next_exchange(&[F128b(1), F128b(2)]),
        Err(Error::ProtocolMisuse)
    ));
    // The sharing cannot end while a peer is left.
    assert!(matches!(sharing.into_sums(), Err(Error::ProtocolMisuse)));

    // A sender's roles must be its own.
    let (rc, _) = opprf_pair(solver, VoleType::Lpn, 2, &mut rng);
    let party = Party::precomp(2, vec![], vec![]).unwrap();
    assert!(matches!(
        Sender::precomp(1, party, rc),
        Err(Error::InvariantViolation)
    ));
}
