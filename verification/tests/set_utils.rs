use preprocessing_mpsi_with_vole::error::Error;
use preprocessing_mpsi_with_vole::field::F128b;
use preprocessing_mpsi_with_vole::set_utils::{
    create_sets_random, create_sets_with_check, create_sets_without_check,
};
use rand::rngs::StdRng;
use rand::SeedableRng;
use std::collections::HashSet;

#[test]
fn test_small() {
    let mut rng = StdRng::from_entropy();

    let (common, sets): (Vec<F128b>, Vec<Vec<F128b>>) =
        create_sets_with_check(3, 10, 5, &mut rng).unwrap();

    println!("{:?}", common);
    println!("{:?}", sets);

    assert_eq!(sets.len(), 3);
    assert_eq!(sets[0].len(), 10);
    assert_eq!(sets[1].len(), 10);
    assert_eq!(sets[2].len(), 10);

    for x in common.iter() {
        assert!(sets[0].contains(x));
        assert!(sets[1].contains(x));
        assert!(sets[2].contains(x));
    }
}

#[test]
fn test_big_with_check() {
    let mut rng = StdRng::from_entropy();

    let (common, sets): (Vec<F128b>, Vec<Vec<F128b>>) =
        create_sets_with_check(5, 1 << 6, 1 << 3, &mut rng).unwrap();

    for x in common.iter() {
        for set in sets.iter() {
            assert!(set.contains(x));
        }
    }
}

#[test]
fn test_big_without_check() {
    let mut rng = StdRng::from_entropy();

    let (_common, _sets): (Vec<F128b>, Vec<Vec<F128b>>) =
        create_sets_without_check(5, 1 << 20, 1 << 10, &mut rng).unwrap();
}

#[test]
fn sets_hold_what_they_should() {
    let mut rng = StdRng::seed_from_u64(31);
    let (common, sets) = create_sets_with_check(4, 12, 5, &mut rng).unwrap();
    assert_eq!(sets.len(), 4);
    for (i, set) in sets.iter().enumerate() {
        assert_eq!(set.len(), 12);
        assert_eq!(set.iter().collect::<HashSet<_>>().len(), 12);
        // The numbers of the other parties, and not its own.
        for j in 0..4u128 {
            assert_eq!(set.contains(&F128b(j)), j != i as u128);
        }
    }
    // What the check finds is what all sets hold, and no more.
    assert_eq!(common.len(), 5);
    for x in sets[0].iter() {
        let everywhere = sets.iter().all(|set| set.contains(x));
        assert_eq!(common.contains(x), everywhere);
    }

    let (common, sets) = create_sets_without_check(3, 7, 7, &mut rng).unwrap();
    assert_eq!(common.len(), 7);
    for set in sets.iter() {
        assert_eq!(
            set.iter().collect::<HashSet<_>>(),
            common.iter().collect::<HashSet<_>>()
        );
    }

    let (common, sets) = create_sets_random(3, 9, &mut rng).unwrap();
    assert!(common.len() < 9);
    assert_eq!(sets.len(), 3);
    for set in sets.iter() {
        assert_eq!(set.len(), 9);
        for x in common.iter() {
            assert!(set.contains(x));
        }
    }
}

#[test]
fn sets_are_shuffled() {
    // A set that only holds the common elements holds them in another
    // order than they were drawn in, but for one chance in 20!.
    let mut rng = StdRng::seed_from_u64(32);
    let (common, sets) = create_sets_without_check(2, 20, 20, &mut rng).unwrap();
    assert_ne!(sets[0], common);
    assert_ne!(sets[0], sets[1]);
}

#[test]
fn refused_requests_for_sets() {
    let mut rng = StdRng::seed_from_u64(33);
    assert_eq!(
        create_sets_with_check(1, 10, 5, &mut rng),
        Err(Error::ProtocolMisuse)
    );
    assert_eq!(
        create_sets_with_check(3, 4, 5, &mut rng),
        Err(Error::ProtocolMisuse)
    );
    assert_eq!(
        create_sets_without_check(0, 10, 5, &mut rng),
        Err(Error::ProtocolMisuse)
    );
    assert_eq!(
        create_sets_without_check(2, 0, 1, &mut rng),
        Err(Error::ProtocolMisuse)
    );
    assert_eq!(
        create_sets_random(1, 3, &mut rng),
        Err(Error::ProtocolMisuse)
    );
}
