use preprocessing_mpsi_with_vole::cli_utils::SolverType;
use preprocessing_mpsi_with_vole::error::Error;
use preprocessing_mpsi_with_vole::field::F128b;
use preprocessing_mpsi_with_vole::hash_utils::hash_f;
use preprocessing_mpsi_with_vole::random::random_field;
use preprocessing_mpsi_with_vole::solver::vandelmode::VandelmondeSolver;
use preprocessing_mpsi_with_vole::solver::{calc_params, decode, encode, SolverParams};
use rand::rngs::StdRng;
use rand::SeedableRng;

fn create_set(set_size: usize) -> Vec<F128b> {
    let mut rng = StdRng::from_entropy();
    (0..set_size).map(|_| random_field(&mut rng)).collect::<Vec<_>>()
}

fn test_vandelmonde_base() {
    let set = create_set(10);

    let aux = VandelmondeSolver::gen_aux().unwrap();
    let params = VandelmondeSolver::calc_params(set.len());

    let points = set
        .iter()
        .map(|x| (*x, hash_f(*x).unwrap()))
        .collect::<Vec<_>>();

    let p = VandelmondeSolver::encode(&points, aux, params).unwrap();
    assert_eq!(p.len(), params.code_length());

    let reconstructed_ys = set
        .iter()
        .map(|x| VandelmondeSolver::decode(&p, *x, aux, params).unwrap())
        .collect::<Vec<_>>();

    let ys = points.iter().map(|(_, y)| *y).collect::<Vec<_>>();

    assert_eq!(ys, reconstructed_ys);
}

#[test]
fn vandelmode_test_vandelmonde() {
    test_vandelmonde_base();
}

#[test]
fn vandelmonde_test_vandelmonde() {
    test_vandelmonde_base();
}

#[test]
fn decode_evaluates_the_polynomial() {
    let params = VandelmondeSolver::calc_params(3);
    // 5 + 3 x + x^2 at x = 2:  5 + 6 + 4 = 7 in characteristic two.
    let p = vec![F128b(5), F128b(3), F128b(1)];
    assert_eq!(VandelmondeSolver::decode(&p, F128b(2), (), params), Ok(F128b(7)));
    assert_eq!(VandelmondeSolver::decode(&p, F128b(0), (), params), Ok(F128b(5)));
    assert_eq!(VandelmondeSolver::decode(&[], F128b(9), (), params), Ok(F128b(0)));
}

#[test]
fn encode_gives_the_coefficients_in_ascending_order() {
    // The line through (1, 2) and (3, 6) has the slope
    // (2 + 6) / (1 + 3) = x^2 / x = 2 and takes 0 at 0.
    let points = vec![(F128b(1), F128b(2)), (F128b(3), F128b(6))];
    let params = VandelmondeSolver::calc_params(points.len());
    let p = VandelmondeSolver::encode(&points, (), params).unwrap();
    assert_eq!(p, vec![F128b(0), F128b(2)]);
    assert_eq!(VandelmondeSolver::calc_params(17).code_length(), 17);
}

#[test]
fn encode_of_one_point_is_constant() {
    let params = VandelmondeSolver::calc_params(1);
    let p = VandelmondeSolver::encode(&[(F128b(77), F128b(5))], (), params).unwrap();
    assert_eq!(p, vec![F128b(5)]);
    assert_eq!(VandelmondeSolver::decode(&p, F128b(123), (), params), Ok(F128b(5)));
}

#[test]
fn encode_of_no_point_is_empty() {
    let params = VandelmondeSolver::calc_params(0);
    assert_eq!(VandelmondeSolver::encode(&[], (), params), Ok(vec![]));
}

#[test]
fn encode_refuses_a_repeated_key() {
    let params = VandelmondeSolver::calc_params(3);
    let points = vec![(F128b(1), F128b(2)), (F128b(3), F128b(6)), (F128b(1), F128b(2))];
    assert_eq!(
        VandelmondeSolver::encode(&points, (), params),
        Err(Error::SolverNoSolution)
    );
}

#[test]
fn encode_round_trip_on_many_points() {
    for n in [2usize, 3, 17, 64, 200] {
        let set = create_set(n);
        let points = set
            .iter()
            .enumerate()
            .map(|(i, x)| (*x, F128b(i as u128 * 7919 + 1)))
            .collect::<Vec<_>>();
        let params = VandelmondeSolver::calc_params(n);
        let p = VandelmondeSolver::encode(&points, (), params).unwrap();
        assert_eq!(p.len(), params.code_length());
        for (x, y) in points.iter() {
            assert_eq!(VandelmondeSolver::decode(&p, *x, (), params), Ok(*y));
        }
    }
}

#[test]
fn either_solver_encodes_what_it_decodes() {
    let mut rng = StdRng::seed_from_u64(5);
    for solver in [SolverType::Vandelmonde, SolverType::Paxos] {
        let points = (0..50u128)
            .map(|i| (F128b(i * i + 3), F128b(1000 + i)))
            .collect::<Vec<_>>();
        let params = calc_params(solver, points.len());
        let (aux, p) = encode(&mut rng, &points, params).unwrap();
        assert_eq!(p.len(), params.code_length());
        for (x, y) in points.iter() {
            assert_eq!(decode(&p, *x, aux, params), Ok(*y));
        }
    }
    let vandermonde = calc_params(SolverType::Vandelmonde, 2);
    let twice = vec![(F128b(4), F128b(1)), (F128b(4), F128b(1))];
    assert_eq!(encode(&mut rng, &twice, vandermonde), Err(Error::SolverNoSolution));
    let paxos = calc_params(SolverType::Paxos, 2);
    assert_eq!(encode(&mut rng, &twice, paxos), Err(Error::SolverNoSolution));
}
