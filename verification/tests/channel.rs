use preprocessing_mpsi_with_vole::channel_utils::{
    read_vec_f, read_vec_f_len, vec_f_payload, write_vec_f,
};
use preprocessing_mpsi_with_vole::cli_utils::SolverType;
use preprocessing_mpsi_with_vole::error::Error;
use preprocessing_mpsi_with_vole::field::F128b;
use preprocessing_mpsi_with_vole::random::random_field;
use preprocessing_mpsi_with_vole::solver::{aux_receive, aux_send, aux_wire_len, AuxInfo};
use rand::rngs::StdRng;
use rand::SeedableRng;

#[test]
fn test_write_read_vec_f() {
    let mut rng = StdRng::from_entropy();

    let v = (0..10).map(|_| random_field(&mut rng)).collect::<Vec<_>>();
    let w = v.clone();

    // What one end writes: five bytes, then the vector.
    let mut wire: Vec<u8> = Vec::new();
    wire.extend_from_slice(b"hello");
    wire.extend(write_vec_f(&w));

    // What the other end reads.
    let mut buf = [0u8; 5];
    buf.copy_from_slice(&wire[..5]);
    assert_eq!(&buf, b"hello");

    let len = read_vec_f_len(&wire[5..13]).unwrap();
    let res = read_vec_f(&wire[13..13 + len]).unwrap();
    assert_eq!(13 + len, wire.len());

    assert_eq!(v, res);
}

#[test]
fn frame_layout() {
    let v = vec![F128b(0x0102), F128b(u128::MAX)];
    let frame = write_vec_f(&v);
    assert_eq!(frame.len(), 8 + 32);
    assert_eq!(&frame[..8], &[0, 0, 0, 0, 0, 0, 0, 32]);
    assert_eq!(&frame[8..11], &[0x02, 0x01, 0x00]);
    assert!(frame[24..].iter().all(|b| *b == 0xff));
    assert_eq!(vec_f_payload(&v), frame[8..].to_vec());
    assert_eq!(write_vec_f(&[]), vec![0u8; 8]);
    assert_eq!(read_vec_f(&[]), Ok(vec![]));
}

#[test]
fn broken_frames() {
    assert_eq!(read_vec_f_len(&[0, 0, 0, 0, 0, 0, 0, 16]), Ok(16));
    assert_eq!(read_vec_f_len(&[0, 0, 0, 0, 0, 0, 1, 0]), Ok(256));
    assert_eq!(
        read_vec_f_len(&[0, 0, 0, 0, 0, 0, 0, 17]),
        Err(Error::Serialization)
    );
    assert_eq!(read_vec_f_len(&[0, 0, 16]), Err(Error::Serialization));
    assert_eq!(read_vec_f(&[0u8; 15]), Err(Error::Serialization));
    assert_eq!(read_vec_f(&[0u8; 33]), Err(Error::Serialization));
}

#[test]
fn aux_travels_as_three_integers() {
    let aux = AuxInfo::Paxos(1, 0x0203, u64::MAX);
    let bytes = aux_send(aux);
    assert_eq!(bytes.len(), 24);
    assert_eq!(aux_wire_len(SolverType::Paxos), 24);
    assert_eq!(&bytes[..8], &[0, 0, 0, 0, 0, 0, 0, 1]);
    assert_eq!(&bytes[8..16], &[0, 0, 0, 0, 0, 0, 2, 3]);
    assert_eq!(&bytes[16..], &[0xff; 8]);
    assert_eq!(aux_receive(SolverType::Paxos, &bytes), Ok(aux));
    assert_eq!(
        aux_receive(SolverType::Paxos, &bytes[..23]),
        Err(Error::Serialization)
    );

    assert_eq!(aux_send(AuxInfo::Vandelmonde), Vec::<u8>::new());
    assert_eq!(aux_wire_len(SolverType::Vandelmonde), 0);
    assert_eq!(
        aux_receive(SolverType::Vandelmonde, &[]),
        Ok(AuxInfo::Vandelmonde)
    );
    assert_eq!(
        aux_receive(SolverType::Vandelmonde, &[0]),
        Err(Error::Serialization)
    );
}
