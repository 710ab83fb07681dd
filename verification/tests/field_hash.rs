use preprocessing_mpsi_with_vole::error::Error;
use preprocessing_mpsi_with_vole::field::F128b;
use preprocessing_mpsi_with_vole::hash_utils::{hash, hash_f, u64_from_be, u64_to_be};
use preprocessing_mpsi_with_vole::random::{random_field, random_fields};
use preprocessing_mpsi_with_vole::set_utils::{check_set_sizes, FromU128};
use rand::rngs::StdRng;
use rand::SeedableRng;
use sha2::{Digest, Sha256};

#[test]
fn test_hash() {
    let mut rng = StdRng::from_entropy();
    let x: F128b = random_field(&mut rng);
    let y: F128b = random_field(&mut rng);

    let h = hash(x, y).unwrap();

    let mut hasher = Sha256::new();
    hasher.update(x.to_bytes());
    hasher.update(y.to_bytes());
    let res = hasher.finalize();
    let slc = res.as_slice();
    let h2 = F128b::from_bytes(&slc[..16]).unwrap();

    assert_eq!(h, h2);
}

#[test]
fn test_hash_f() {
    let mut rng = StdRng::from_entropy();
    let x: F128b = random_field(&mut rng);

    let h = hash_f(x).unwrap();

    let mut hasher = Sha256::new();
    hasher.update(x.to_bytes());
    let res = hasher.finalize();
    let slc = res.as_slice();
    let h2 = F128b::from_bytes(&slc[..16]).unwrap();

    assert_eq!(h, h2);
}

#[test]
fn hash_known_answers() {
    assert_eq!(
        hash_f(F128b(0)).unwrap(),
        F128b(0x28d26cd575c89e97d59d71f7ff084737)
    );
    assert_eq!(
        hash(F128b(1), F128b(2)).unwrap(),
        F128b(0x3dec7b498771d587d247c3f72bf351e3)
    );
    // The hashes are not the identity on their input.
    assert_ne!(hash_f(F128b(0)).unwrap(), F128b(0));
}

#[test]
fn field_addition_is_xor() {
    let a = F128b(0b1100);
    let b = F128b(0b1010);
    assert_eq!(a.plus(b), F128b(0b0110));
    assert_eq!(a.minus(b), F128b(0b0110));
    assert_eq!(a.plus(a), F128b::zero());
    assert_eq!(a.plus(F128b::zero()), a);
    assert!(F128b::zero().is_zero());
    assert!(!F128b::one().is_zero());
}

#[test]
fn field_multiplication_known_answers() {
    // (x + 1)^2 = x^2 + 1
    assert_eq!(F128b(3).times(F128b(3)), F128b(5));
    // x^127 * x = x^7 + x^2 + x + 1
    assert_eq!(F128b(1 << 127).times(F128b(2)), F128b(0x87));
    let a = F128b(0x0123456789abcdef0123456789abcdef);
    let b = F128b(0xfedcba9876543210fedcba9876543210);
    assert_eq!(a.times(b), F128b(0x725cfee53719bb81d3fd5f4496b81a20));
    assert_eq!(b.times(a), F128b(0x725cfee53719bb81d3fd5f4496b81a20));
    assert_eq!(a.times(F128b::one()), a);
    assert_eq!(a.times(F128b::zero()), F128b::zero());
}

#[test]
fn field_multiplication_distributes() {
    let mut rng = StdRng::seed_from_u64(11);
    for _ in 0..100 {
        let a = random_field(&mut rng);
        let b = random_field(&mut rng);
        let c = random_field(&mut rng);
        assert_eq!(a.times(b.plus(c)), a.times(b).plus(a.times(c)));
    }
}

#[test]
fn field_bytes_round_trip() {
    let a = F128b(0x0102030405060708090a0b0c0d0e0f10);
    let bytes = a.to_bytes();
    assert_eq!(bytes.len(), 16);
    assert_eq!(bytes[0], 0x10);
    assert_eq!(bytes[15], 0x01);
    assert_eq!(F128b::from_bytes(&bytes).unwrap(), a);
    assert_eq!(F128b::from_bytes(&bytes[..15]), Err(Error::Serialization));
    assert_eq!(F128b::from_bytes(&[0u8; 17]), Err(Error::Serialization));
}

#[test]
fn from_u128_keeps_the_bits() {
    assert_eq!(F128b::from_u128(0), F128b::zero());
    assert_eq!(F128b::from_u128(1), F128b::one());
    assert_eq!(F128b::from_u128(u128::MAX), F128b(u128::MAX));
}

#[test]
fn big_endian_integers() {
    assert_eq!(u64_to_be(0x0102030405060708), vec![1, 2, 3, 4, 5, 6, 7, 8]);
    assert_eq!(u64_from_be(&[1, 2, 3, 4, 5, 6, 7, 8]), 0x0102030405060708);
    assert_eq!(u64_from_be(&u64_to_be(u64::MAX)), u64::MAX);
}

#[test]
fn random_fields_have_the_length() {
    let mut rng = StdRng::seed_from_u64(5);
    assert_eq!(random_fields(&mut rng, 0).len(), 0);
    let v = random_fields(&mut rng, 17);
    assert_eq!(v.len(), 17);
    // Two draws from one generator differ.
    assert_ne!(v[0], v[1]);
}

#[test]
fn set_sizes_are_checked() {
    assert_eq!(check_set_sizes(3, 10, 5), Ok(()));
    assert_eq!(check_set_sizes(2, 5, 5), Ok(()));
    assert_eq!(check_set_sizes(1, 10, 5), Err(Error::ProtocolMisuse));
    assert_eq!(check_set_sizes(0, 10, 5), Err(Error::ProtocolMisuse));
    assert_eq!(check_set_sizes(3, 4, 5), Err(Error::ProtocolMisuse));
}

#[test]
fn error_messages() {
    assert_eq!(Error::SolverTooManyConstraints.message(), "too many constraints");
    assert_eq!(
        Error::SolverNoSolution.message(),
        "failed to solve linear equations"
    );
    assert_ne!(Error::Transport.message(), Error::Serialization.message());
}

#[test]
fn field_inverse() {
    assert_eq!(F128b(0).inverse(), None);
    assert_eq!(F128b(1).inverse(), Some(F128b(1)));
    // x * x^127 = x^128 = x^7 + x^2 + x + 1, so the inverse of x is
    // x^127 + x^6 + x + 1.
    assert_eq!(F128b(2).inverse(), Some(F128b((1 << 127) | 0x43)));
    let mut rng = StdRng::seed_from_u64(11);
    for _ in 0..20 {
        let a = random_field(&mut rng);
        let inv = a.inverse().unwrap();
        assert_eq!(a.times(inv), F128b(1));
        assert_eq!(inv.inverse(), Some(a));
    }
}

#[test]
fn field_from_halves() {
    assert_eq!(F128b::from_halves(0, 0), F128b(0));
    assert_eq!(F128b::from_halves(5, 0), F128b(5));
    assert_eq!(F128b::from_halves(0, 1), F128b(1 << 64));
    assert_eq!(
        F128b::from_halves(0x0123_4567_89ab_cdef, 0xfedc_ba98_7654_3210),
        F128b(0xfedc_ba98_7654_3210_0123_4567_89ab_cdef)
    );
    assert_eq!(F128b::from_halves(u64::MAX, u64::MAX), F128b(u128::MAX));
}
