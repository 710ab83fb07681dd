use preprocessing_mpsi_with_vole::error::Error;
use preprocessing_mpsi_with_vole::field::F128b;
use preprocessing_mpsi_with_vole::random::random_field;
use preprocessing_mpsi_with_vole::set_utils::FromU128;
use preprocessing_mpsi_with_vole::solver::gaussian_eliminations::gaussian_elimination;
use preprocessing_mpsi_with_vole::solver::gaussian_eliminations::row::{add_rows, Row};
use preprocessing_mpsi_with_vole::solver::paxos::adjust_vec_r;
use rand::rngs::StdRng;
use rand::{Rng, SeedableRng};

fn inner(n: usize, m: usize, rng: &mut StdRng, verbose: bool) -> bool {
    let mut matrix = Vec::with_capacity(n);
    for _ in 0..n {
        let mut row = Vec::with_capacity(m);
        for _ in 0..m {
            row.push(rng.gen::<bool>());
        }
        let target: F128b = random_field(rng);
        matrix.push((row, target));
    }

    let res = match gaussian_elimination(matrix.clone()) {
        Ok(Some(res)) => res,
        Ok(None) => {
            if verbose {
                println!("[No Solution] matrix: {:?}", matrix);
            }
            return false;
        }
        Err(e) => {
            panic!("error: {:?}", e);
        }
    };

    if verbose {
        println!("matrix: {:?}", matrix);
        println!("res: {:?}", res);
    }

    let mut vec_r: Vec<F128b> = (0..m).map(|_| random_field(rng)).collect::<Vec<_>>();

    for (i, row, target) in res.iter() {
        let mut sum = F128b::zero();
        let mut total = F128b::zero();

        for (j, val) in row.iter().enumerate() {
            if *i != j && *val {
                sum = sum.plus(vec_r[j]);
                total = total.plus(vec_r[j]);
            }
        }
        sum = sum.plus(*target);
        vec_r[*i] = sum;

        total = total.plus(vec_r[*i]);

        assert_eq!(total, *target);
    }

    for (row, target) in matrix.iter() {
        let mut sum = F128b::zero();
        for (j, val) in row.iter().enumerate() {
            if *val {
                sum = sum.plus(vec_r[j]);
            }
        }
        assert_eq!(sum, *target);
    }

    true
}

fn random_test_successful(min: usize, max: usize, rng: &mut StdRng, verbose: bool) -> bool {
    let n = rng.gen_range(min..=max);
    let m = rng.gen_range((2 * n)..=(max + 2 * n));

    inner(n, m, rng, verbose)
}

fn random_test_possible_failure(min: usize, max: usize, rng: &mut StdRng, verbose: bool) -> bool {
    let n = rng.gen_range(min..=max);
    let m = rng.gen_range(n..=max);

    inner(n, m, rng, verbose)
}

#[test]
fn random_small_test() {
    let mut rng = StdRng::from_entropy();
    random_test_successful(3, 10, &mut rng, true);
}

#[test]
fn random_large_test() {
    let mut rng = StdRng::from_entropy();

    let mut success_count = 0;
    let mut fail_count = 0;

    for _ in 0..500 {
        let res = random_test_successful(10, 100, &mut rng, false);

        if res {
            success_count += 1;
        } else {
            fail_count += 1;
        }
    }

    println!(
        "[successful] success: {}, fail: {}",
        success_count, fail_count
    );

    let mut success_count = 0;
    let mut fail_count = 0;

    for _ in 0..500 {
        let res = random_test_possible_failure(10, 100, &mut rng, false);

        if res {
            success_count += 1;
        } else {
            fail_count += 1;
        }
    }

    println!(
        "[possible failure] success: {}, fail: {}",
        success_count, fail_count
    );
}

#[test]
fn test_edge_case_1() {
    let matrix = vec![(vec![true, false, false], F128b::from_u128(1))];

    let res = gaussian_elimination(matrix).unwrap().unwrap();

    assert_eq!(
        res,
        vec![(0, vec![true, false, false], F128b::from_u128(1))]
    );
}

#[test]
fn test_edge_case_2() {
    let matrix = vec![(vec![false, false, true], F128b::from_u128(1))];

    let res = gaussian_elimination(matrix).unwrap().unwrap();

    assert_eq!(
        res,
        vec![(2, vec![false, false, true], F128b::from_u128(1))]
    );
}

#[test]
fn test_edge_case_3() {
    let matrix = vec![(vec![true, false, false], F128b::from_u128(1))];

    let res = gaussian_elimination(matrix).unwrap().unwrap();

    assert_eq!(
        res,
        vec![(0, vec![true, false, false], F128b::from_u128(1))]
    );
}

#[test]
fn test_edge_case_4() {
    let matrix = vec![(vec![true], F128b::from_u128(1))];

    let res = gaussian_elimination(matrix).unwrap().unwrap();

    assert_eq!(res, vec![(0, vec![true], F128b::from_u128(1))]);
}

#[test]
fn test_err_1() {
    let matrix = vec![(vec![], F128b::from_u128(1))];

    let res = gaussian_elimination(matrix);

    assert!(res.is_err());
}

#[test]
fn test_no_solution_0() {
    let matrix = vec![(vec![false, false, false], F128b::from_u128(1))];

    let res = gaussian_elimination(matrix).unwrap();

    assert!(res.is_none());
}

#[test]
fn test_no_solution_1() {
    let matrix = vec![
        (vec![true, false, false], F128b::from_u128(1)),
        (vec![false, false, false], F128b::from_u128(1)),
    ];

    let res = gaussian_elimination(matrix).unwrap();

    assert!(res.is_none());
}

#[test]
fn test_no_solution_2() {
    let matrix = vec![
        (vec![true, false, false], F128b::from_u128(1)),
        (vec![true, false, false], F128b::from_u128(1)),
    ];

    let res = gaussian_elimination(matrix).unwrap();

    assert!(res.is_none());
}

#[test]
fn refused_matrices() {
    let empty: Vec<(Vec<bool>, F128b)> = vec![];
    assert_eq!(gaussian_elimination(empty), Err(Error::InvariantViolation));

    let tall = vec![
        (vec![true], F128b::from_u128(1)),
        (vec![true], F128b::from_u128(2)),
    ];
    assert_eq!(
        gaussian_elimination(tall),
        Err(Error::SolverTooManyConstraints)
    );

    let ragged = vec![
        (vec![true, false, true], F128b::from_u128(1)),
        (vec![true, false], F128b::from_u128(2)),
    ];
    assert_eq!(gaussian_elimination(ragged), Err(Error::InvariantViolation));
}

#[test]
fn reduces_to_echelon_form() {
    // x0 + x1 = 1, x1 + x2 = 2  reduces to  x0 + x2 = 3, x1 + x2 = 2.
    let matrix = vec![
        (vec![true, true, false], F128b::from_u128(1)),
        (vec![false, true, true], F128b::from_u128(2)),
    ];
    let res = gaussian_elimination(matrix).unwrap().unwrap();
    assert_eq!(
        res,
        vec![
            (0, vec![true, false, true], F128b::from_u128(3)),
            (1, vec![false, true, true], F128b::from_u128(2)),
        ]
    );
}

#[test]
fn rows_are_exchanged_for_a_pivot() {
    let matrix = vec![
        (vec![false, true], F128b::from_u128(5)),
        (vec![true, true], F128b::from_u128(9)),
    ];
    let res = gaussian_elimination(matrix).unwrap().unwrap();
    assert_eq!(
        res,
        vec![
            (0, vec![true, false], F128b::from_u128(12)),
            (1, vec![false, true], F128b::from_u128(5)),
        ]
    );
}

#[test]
fn adjust_solves_for_the_pivots() {
    // x0 + x2 = 3, x1 + x2 = 2 with x2 = 8 gives x0 = 11, x1 = 10.
    let equations = vec![
        (0, vec![true, false, true], F128b::from_u128(3)),
        (1, vec![false, true, true], F128b::from_u128(2)),
    ];
    let mut vec_r = vec![F128b(100), F128b(200), F128b(8)];
    adjust_vec_r(&equations, &mut vec_r);
    assert_eq!(vec_r, vec![F128b(11), F128b(10), F128b(8)]);
}

#[test]
fn rows_are_added_on_a_range() {
    let rows = || {
        vec![
            Row::new(vec![true, false, true, true], F128b(5)),
            Row::new(vec![true, true, false, true], F128b(9)),
        ]
    };
    let mut matrix = rows();
    add_rows(&mut matrix, 0, 1, 1..4);
    assert_eq!(matrix[0].values, vec![true, true, true, false]);
    assert_eq!(matrix[0].target, F128b(5 ^ 9));
    assert_eq!(matrix[1].values, vec![true, true, false, true]);
    assert_eq!(matrix[1].target, F128b(9));

    // A row added to itself is cleared on the range, with its target.
    let mut matrix = rows();
    add_rows(&mut matrix, 1, 1, 0..2);
    assert_eq!(matrix[1].values, vec![false, false, false, true]);
    assert_eq!(matrix[1].target, F128b(0));

    // A range that ends before it starts has no columns.
    let mut matrix = rows();
    add_rows(&mut matrix, 0, 1, 9..2);
    assert_eq!(matrix[0].values, vec![true, false, true, true]);
    assert_eq!(matrix[0].target, F128b(5 ^ 9));
}
