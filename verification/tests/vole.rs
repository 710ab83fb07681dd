use preprocessing_mpsi_with_vole::cli_utils::{
    create_vole_sr, lpn_size_for, LpnSize, SolverType, VoleShareForReceiverUnion,
    VoleShareForSenderUnion, VoleType,
};
use preprocessing_mpsi_with_vole::channel_utils::{read_vec_f, read_vec_f_len, write_vec_f};
use preprocessing_mpsi_with_vole::error::Error;
use preprocessing_mpsi_with_vole::field::F128b;
use preprocessing_mpsi_with_vole::hash_utils::hash_f;
use preprocessing_mpsi_with_vole::random::random_field;
use preprocessing_mpsi_with_vole::solver::vandelmode::VandelmondeSolver;
use preprocessing_mpsi_with_vole::vole::lpn_based::{LPNVoleReceiver, LPNVoleSender};
use preprocessing_mpsi_with_vole::vole::ot_based::{entries_from, OtVoleReceiver, OtVoleSender};
use rand::rngs::StdRng;
use rand::{Rng, SeedableRng};

// What an expansion of at least `len` entries hands to the two sides.
fn expand(rng: &mut StdRng, len: usize) -> (F128b, Vec<F128b>, Vec<(F128b, F128b)>) {
    let delta = random_field(rng);
    let mut out_b = Vec::with_capacity(len);
    let mut out_ac = Vec::with_capacity(len);
    for _ in 0..len {
        let a = F128b(rng.gen::<bool>() as u128);
        let b = random_field(rng);
        out_b.push(b);
        out_ac.push((a, delta.times(a).plus(b)));
    }
    (delta, out_b, out_ac)
}

fn test_vole_share_base(vole_size: usize, size: LpnSize) {
    let mut rng = StdRng::from_entropy();
    let (delta, out_b, out_ac) = expand(&mut rng, vole_size + 37);

    let mut vole_sender = LPNVoleSender::new(size);
    let (delta, b_vec) = vole_sender.receive(delta, out_b, vole_size).unwrap();

    let mut vole_receiver = LPNVoleReceiver::new(size);
    let (a_vec, c_vec) = vole_receiver.receive(out_ac, vole_size).unwrap();

    assert_eq!(b_vec.len(), vole_size);
    assert_eq!(a_vec.len(), vole_size);
    assert_eq!(c_vec.len(), vole_size);

    for ((a, b), c) in a_vec
        .into_iter()
        .zip(b_vec.into_iter())
        .zip(c_vec.into_iter())
    {
        assert_eq!(delta.times(a).plus(b), c);
    }
}

#[test]
fn vole_test_vole_share_small() {
    test_vole_share_base(100, LpnSize::Small);
}

#[test]
fn vole_test_vole_share_middle() {
    for e in 1..=17 {
        println!("n = 2^{} = {}", e, 2usize.pow(e));
        test_vole_share_base(2usize.pow(e), LpnSize::Small);
    }
}

#[test]
fn vole_test_vole_share_large() {
    for e in 18..=20 {
        println!("n = 2^{} = {}", e, 2usize.pow(e));
        test_vole_share_base(2usize.pow(e), LpnSize::Medium);
    }
}

#[test]
fn lpn_expansion_too_short() {
    let mut rng = StdRng::seed_from_u64(1);
    let (delta, out_b, out_ac) = expand(&mut rng, 9);
    let mut sender = LPNVoleSender::new(LpnSize::Small);
    let mut receiver = LPNVoleReceiver::new(LpnSize::Small);
    assert_eq!(
        sender.receive(delta, out_b.clone(), 10),
        Err(Error::VoleInsufficient)
    );
    assert_eq!(
        receiver.receive(out_ac.clone(), 10),
        Err(Error::VoleInsufficient)
    );
    let (d, b) = sender.receive(delta, out_b.clone(), 9).unwrap();
    assert_eq!(d, delta);
    assert_eq!(b, out_b);
    let (a, c) = receiver.receive(out_ac.clone(), 4).unwrap();
    assert_eq!(a, out_ac[..4].iter().map(|p| p.0).collect::<Vec<_>>());
    assert_eq!(c, out_ac[..4].iter().map(|p| p.1).collect::<Vec<_>>());
    assert_eq!(sender.size(), LpnSize::Small);
    assert_eq!(receiver.size(), LpnSize::Small);
}

#[test]
fn lpn_parameter_sets() {
    assert_eq!(lpn_size_for(0), LpnSize::Small);
    assert_eq!(lpn_size_for((1 << 17) - 1), LpnSize::Small);
    assert_eq!(lpn_size_for(1 << 17), LpnSize::Medium);
    // 2.01 * 2^16 + 56 cells exceed 2^17.
    assert_eq!(
        create_vole_sr(SolverType::Paxos, VoleType::Lpn, 1 << 16),
        (
            VoleShareForSenderUnion::Lpn(LpnSize::Medium),
            VoleShareForReceiverUnion::Lpn(LpnSize::Medium)
        )
    );
    assert_eq!(
        create_vole_sr(SolverType::Vandelmonde, VoleType::Lpn, 1 << 16),
        (
            VoleShareForSenderUnion::Lpn(LpnSize::Small),
            VoleShareForReceiverUnion::Lpn(LpnSize::Small)
        )
    );
    assert_eq!(
        create_vole_sr(SolverType::Paxos, VoleType::Ot, 10),
        (VoleShareForSenderUnion::Ot, VoleShareForReceiverUnion::Ot)
    );
}

// The two sides of an OT-based VOLE, with transfers that hand over exactly
// the chosen message.
fn ot_vole(rng: &mut StdRng, m: usize) -> (F128b, Vec<F128b>, Vec<F128b>, Vec<F128b>) {
    let mut vole_sender = OtVoleSender::new();
    let (delta, b_vec, inputs) = vole_sender.receive(rng, m).unwrap();

    let mut vole_receiver = OtVoleReceiver::new();
    let (a_vec, choices) = vole_receiver.sample(rng, m).unwrap();

    assert_eq!(inputs.len(), 128 * m);
    assert_eq!(choices.len(), 128 * m);
    let rhos = inputs
        .iter()
        .zip(choices.iter())
        .map(|(pair, bit)| if *bit { pair.1 } else { pair.0 })
        .collect::<Vec<_>>();

    let (a_vec, c_vec) = vole_receiver.receive(a_vec, &rhos).unwrap();
    (delta, b_vec, a_vec, c_vec)
}

fn test_ot_vole_share_base(vole_size: usize) {
    let mut rng = StdRng::from_entropy();
    let (delta, b_vec, a_vec, c_vec) = ot_vole(&mut rng, vole_size);

    assert_eq!(b_vec.len(), vole_size);
    assert_eq!(a_vec.len(), vole_size);
    assert_eq!(c_vec.len(), vole_size);

    for ((a, b), c) in a_vec
        .into_iter()
        .zip(b_vec.into_iter())
        .zip(c_vec.into_iter())
    {
        assert!(!a.is_zero());
        assert_eq!(delta.times(a).plus(b), c);
    }
}

#[test]
fn ot_based_test_vole_share_small() {
    test_ot_vole_share_base(100);
}

#[test]
fn ot_vole_shares_at_growing_sizes() {
    for e in 1..=15 {
        println!("n = 2^{} = {}", e, 2usize.pow(e));
        test_ot_vole_share_base(2usize.pow(e));
    }
}

#[test]
fn ot_vole_shares_on_many_entries() {
    test_ot_vole_share_base(2usize.pow(16));
}

#[test]
fn ot_shares_from_given_masks() {
    let delta = F128b(0b101);
    let rhos = (0..128u128).map(|j| F128b(j + 1)).collect::<Vec<_>>();
    let (b_vec, inputs) = OtVoleSender::offers_from(delta, &rhos, 1).unwrap();
    let sum = rhos.iter().fold(F128b::zero(), |s, r| s.plus(*r));
    assert_eq!(b_vec, vec![sum]);
    // The second message adds delta * x^j to the mask.
    assert_eq!(inputs[0], (F128b(1), F128b(1 ^ 0b101)));
    assert_eq!(inputs[1], (F128b(2), F128b(2 ^ 0b1010)));
    assert_eq!(inputs[3], (F128b(4), F128b(4 ^ 0b101000)));

    assert_eq!(
        OtVoleSender::offers_from(delta, &rhos, 2),
        Err(Error::InvariantViolation)
    );

    let choices = OtVoleReceiver::choices_from(&[F128b(0b110)]).unwrap();
    assert_eq!(choices.len(), 128);
    assert_eq!(&choices[..4], &[false, true, true, false]);
    assert!(choices[4..].iter().all(|b| !*b));

    let mut receiver = OtVoleReceiver::new();
    assert_eq!(
        receiver.receive(vec![F128b(1)], &rhos[..100]),
        Err(Error::InvariantViolation)
    );
    let (a, c) = receiver.receive(vec![F128b(1)], &rhos).unwrap();
    assert_eq!(a, vec![F128b(1)]);
    assert_eq!(c, vec![sum]);
}

#[test]
fn test_vole_compute() {
    const VOLE_SIZE: usize = 100;

    let mut rng = StdRng::from_entropy();
    let set: Vec<F128b> = (0..VOLE_SIZE).map(|_| random_field(&mut rng)).collect();

    let (delta, out_b, out_ac) = expand(&mut rng, VOLE_SIZE + 37);
    let mut vole_sender = LPNVoleSender::new(LpnSize::Small);
    let (delta, b_vec) = vole_sender.receive(delta, out_b, VOLE_SIZE).unwrap();
    let mut vole_receiver = LPNVoleReceiver::new(LpnSize::Small);
    let (a_vec, c_vec) = vole_receiver.receive(out_ac, VOLE_SIZE).unwrap();

    let params = VandelmondeSolver::calc_params(set.len());

    let points = set
        .iter()
        .map(|&x| (x, hash_f(x).unwrap()))
        .collect::<Vec<_>>();
    let p = VandelmondeSolver::encode(&points, (), params).unwrap();

    // a_dash = a + p
    let a_dash = a_vec
        .iter()
        .zip(p.iter())
        .map(|(&a, &p)| a.plus(p))
        .collect::<Vec<_>>();

    let frame = write_vec_f(&a_dash);
    let len = read_vec_f_len(&frame[..8]).unwrap();
    let a_dash_vec: Vec<F128b> = read_vec_f(&frame[8..8 + len]).unwrap();

    // k = b + delta * (a_dash)
    let k_vec = b_vec
        .iter()
        .zip(a_dash_vec.iter())
        .map(|(&b, &a_dash)| b.plus(delta.times(a_dash)))
        .collect::<Vec<_>>();

    let sender_res = set
        .iter()
        .map(|&x| {
            let y = VandelmondeSolver::decode(&k_vec, x, (), params).unwrap();
            y.minus(delta.times(hash_f(x).unwrap()))
        })
        .collect::<Vec<_>>();

    let res = set
        .into_iter()
        .map(|x| VandelmondeSolver::decode(&c_vec, x, (), params).unwrap())
        .collect::<Vec<_>>();

    assert_eq!(res, sender_res);
}

#[test]
fn zero_draws_are_passed_over() {
    let draws = [F128b(1), F128b(0), F128b(2), F128b(0), F128b(0), F128b(3)];
    assert_eq!(
        entries_from(&draws, 3),
        Ok(vec![F128b(1), F128b(2), F128b(3)])
    );
    assert_eq!(entries_from(&draws, 2), Ok(vec![F128b(1), F128b(2)]));
    assert_eq!(entries_from(&draws, 0), Ok(vec![]));
    assert_eq!(entries_from(&draws, 4), Err(Error::VoleInsufficient));
    assert_eq!(entries_from(&[F128b(0); 9], 1), Err(Error::VoleInsufficient));
    assert_eq!(entries_from(&[], 0), Ok(vec![]));
    assert_eq!(entries_from(&[], 1), Err(Error::VoleInsufficient));
}

#[test]
fn sampling_gives_as_many_entries_as_asked() {
    let mut rng = StdRng::seed_from_u64(41);
    let mut receiver = OtVoleReceiver::new();
    let (a_vec, choices) = receiver.sample(&mut rng, 0).unwrap();
    assert!(a_vec.is_empty() && choices.is_empty());
    let (a_vec, choices) = receiver.sample(&mut rng, 5).unwrap();
    assert_eq!(a_vec.len(), 5);
    assert_eq!(choices.len(), 5 * 128);
    for (i, a) in a_vec.iter().enumerate() {
        assert_ne!(*a, F128b(0));
        for j in 0..128 {
            assert_eq!(choices[128 * i + j], (a.0 >> j) & 1 == 1);
        }
    }
    assert_eq!(
        receiver.sample(&mut rng, usize::MAX / 64),
        Err(Error::InvariantViolation)
    );
}
