use curve25519_dalek::ristretto::RistrettoPoint;
use curve25519_dalek::scalar::Scalar;
use mpz::block::Block;
use mpz::ot::chou_orlandi::receiver::{
    Receiver, ReceiverError, SenderPayload, SenderSetup, Setup,
};
use mpz::ot::TransferId;

fn sender_key() -> Scalar {
    Scalar::from_bytes_mod_order([3; 32])
}

fn hash(input: ([u8; 32], u128)) -> Block {
    let mut bytes = input.0.to_vec();
    bytes.extend_from_slice(&input.1.to_le_bytes());
    Block::from_slice(&blake3::hash(&bytes).as_bytes()[..16]).unwrap()
}

fn setup() -> Receiver<Setup> {
    let public_key = RistrettoPoint::mul_base(&sender_key()).compress().to_bytes();
    Receiver::new_with_seed([7; 32])
        .setup(SenderSetup { public_key })
        .unwrap()
}

#[test]
fn test_receive_count_err() {
    let mut receiver = setup();

    receiver.queue_recv_ot(&[true, false]);

    assert_eq!(
        receiver.receive(
            SenderPayload {
                payload: vec![[Block::zero(); 2]],
            },
            &mut Vec::new()
        ),
        Err(ReceiverError::CountMismatch(2, 1))
    );

    assert_eq!(
        receiver.receive(
            SenderPayload {
                payload: vec![[Block::zero(); 2]; 3],
            },
            &mut Vec::new()
        ),
        Err(ReceiverError::CountMismatch(2, 3))
    );
}

/// Once there are keys, their number is expected, whatever was not chosen yet.
#[test]
fn count_err_after_choice() {
    let mut receiver = setup();
    let mut outputs = Vec::new();
    let some = |n| SenderPayload { payload: vec![[Block::zero(); 2]; n] };

    receiver.queue_recv_ot(&[true, false]);
    assert_eq!(
        receiver.receive(some(2), &mut outputs),
        Err(ReceiverError::CountMismatch(0, 2))
    );
    receiver.choose_all(&hash);
    assert_eq!(
        receiver.receive(some(1), &mut outputs),
        Err(ReceiverError::CountMismatch(2, 1))
    );
    receiver.queue_recv_ot(&[true]);
    assert_eq!(
        receiver.receive(some(1), &mut outputs),
        Err(ReceiverError::CountMismatch(2, 1))
    );
    assert_eq!(
        receiver.receive(some(3), &mut outputs),
        Err(ReceiverError::CountMismatch(2, 3))
    );
    assert!(outputs.is_empty());
}

/// A sender that knows the private key encrypts two messages for each choice,
/// and the receiver opens the chosen one.
#[test]
fn transfer() {
    let mut receiver = setup();
    let choices = [true, false, false, true];
    receiver.queue_recv_ot(&choices[..3]);
    receiver.queue_recv_ot(&choices[3..]);
    assert!(receiver.wants_flush());
    let blinded = receiver.choose_all(&hash);
    assert!(!receiver.wants_flush());
    assert_eq!(blinded.blinded_choices.len(), 4);

    let a = sender_key();
    let public = RistrettoPoint::mul_base(&a);
    let msgs: Vec<[Block; 2]> = (0..4).map(|i| [Block(10 + i), Block(20 + i)]).collect();
    let payload = blinded
        .blinded_choices
        .iter()
        .enumerate()
        .map(|(i, b)| {
            let b = curve25519_dalek::ristretto::CompressedRistretto(*b).decompress().unwrap();
            let k0 = hash(((b * a).compress().to_bytes(), i as u128));
            let k1 = hash((((b - public) * a).compress().to_bytes(), i as u128));
            [msgs[i][0] ^ k0, msgs[i][1] ^ k1]
        })
        .collect();

    let mut outputs = Vec::new();
    receiver.receive(SenderPayload { payload }, &mut outputs).unwrap();
    assert_eq!(outputs.len(), 2);
    assert_eq!(outputs[0].id, TransferId(0));
    assert_eq!(outputs[1].id, TransferId(1));
    assert_eq!(outputs[0].msgs, vec![msgs[0][1], msgs[1][0], msgs[2][0]]);
    assert_eq!(outputs[1].msgs, vec![msgs[3][1]]);
}

/// The private keys go on where they stopped: no blinded choice comes twice.
#[test]
fn fresh_keys() {
    let mut receiver = setup();
    receiver.queue_recv_ot(&[false, false]);
    let first = receiver.choose_all(&hash).blinded_choices;
    receiver.queue_recv_ot(&[false]);
    let second = receiver.choose_all(&hash).blinded_choices;
    assert_ne!(first[0], first[1]);
    assert!(!first.contains(&second[0]));

    let mut other = setup();
    other.queue_recv_ot(&[false, false, false]);
    let all = other.choose_all(&hash).blinded_choices;
    assert_eq!(all[..2], first[..]);
    assert_eq!(all[2..], second[..]);
}

#[test]
fn invalid_public_key() {
    let r = Receiver::new_with_seed([7; 32]).setup(SenderSetup { public_key: [0xff; 32] });
    assert_eq!(r.err(), Some(ReceiverError::InvalidPoint));
}
