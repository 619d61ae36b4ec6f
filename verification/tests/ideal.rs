use mpz::block::Block;
use mpz::ot::ideal::cot::{ideal_cot, IdealCOT, IdealCOTError};
use mpz::ot::ideal::rot::{ideal_rot, IdealROT, IdealROTError};
use rand::rngs::StdRng;
use rand::{RngExt, SeedableRng};

fn assert_cot(delta: Block, choices: &[bool], keys: &[Block], msgs: &[Block]) {
    assert_eq!(choices.len(), keys.len());
    assert_eq!(choices.len(), msgs.len());
    for ((choice, key), msg) in choices.iter().zip(keys).zip(msgs) {
        assert_eq!(*msg, if *choice { *key ^ delta } else { *key });
    }
}

fn assert_rot(choices: &[bool], keys: &[[Block; 2]], msgs: &[Block]) {
    assert_eq!(choices.len(), keys.len());
    assert_eq!(choices.len(), msgs.len());
    for ((choice, pair), msg) in choices.iter().zip(keys).zip(msgs) {
        assert_eq!(*msg, pair[*choice as usize]);
    }
}

/// Test using separate sender/receiver with explicit message passing.
#[test]
fn test_ideal_cot_separate() {
    let mut rng = StdRng::seed_from_u64(0);
    let delta = Block(rng.random());

    let count = 128;
    let choices: Vec<bool> = (0..count).map(|_| rng.random()).collect();
    let keys: Vec<Block> = (0..count).map(|_| Block(rng.random())).collect();

    let (mut sender, mut receiver) = ideal_cot(delta);

    // Queue operations
    sender.queue_send_cot(&keys);
    receiver.queue_recv_cot(&choices);

    // Flush (sender produces message, receiver consumes it)
    let (mut sent, mut received) = (Vec::new(), Vec::new());
    let flush_msg = sender.flush(&mut sent).expect("should have message");
    receiver.flush(flush_msg, &mut received).unwrap();

    assert_eq!(sent.len(), 1);
    assert_eq!(received.len(), 1);
    assert_eq!(sent[0].id, received[0].id);
    assert_cot(delta, &choices, &keys, &received[0].msgs);
}

/// Test using IdealCOT wrapper with unified interface.
#[test]
fn test_ideal_cot_wrapper() {
    let mut rng = StdRng::seed_from_u64(0);
    let delta = Block(rng.random());

    let count = 128;
    let choices: Vec<bool> = (0..count).map(|_| rng.random()).collect();
    let keys: Vec<Block> = (0..count).map(|_| Block(rng.random())).collect();

    let (sent, received) = IdealCOT::new(delta).transfer(&choices, &keys).unwrap();

    assert_eq!(sent.id, received.id);
    assert_cot(delta, &choices, &keys, &received.msgs);
}

/// Test using separate sender/receiver with explicit message passing.
#[test]
fn test_ideal_rot_separate() {
    let mut rng = StdRng::seed_from_u64(0);
    let seed: Block = Block(rng.random());

    let (mut sender, mut receiver) = ideal_rot(seed);

    let count = 128;

    // Allocate
    sender.allocate(count);
    receiver.allocate(count);

    // Flush (sender produces message, receiver consumes it)
    let flush_msg = sender.flush(&mut Vec::new()).expect("should have message");
    receiver.flush(flush_msg, &mut Vec::new()).unwrap();

    // Transfer
    let sent = sender.try_send_rot(count).unwrap();
    let received = receiver.try_recv_rot(count).unwrap();

    assert_eq!(sent.id, received.id);
    assert_rot(&received.choices, &sent.keys, &received.msgs);
}

/// Test using IdealROT wrapper with unified interface.
#[test]
fn test_ideal_rot_wrapper() {
    let mut rng = StdRng::seed_from_u64(0);
    let mut ideal = IdealROT::new(Block(rng.random()));

    let count = 128;

    let (sent, received) = ideal.transfer(count).unwrap();

    assert_eq!(sent.id, received.id);
    assert_rot(&received.choices, &sent.keys, &received.msgs);
}

#[test]
fn cot_nothing_to_flush() {
    let (mut sender, receiver) = ideal_cot(Block(1));
    assert!(!sender.wants_flush());
    assert!(!receiver.wants_flush());
    assert_eq!(sender.delta(), Block(1));
    assert!(sender.flush(&mut Vec::new()).is_none());
}

#[test]
fn cot_count_mismatch() {
    let (mut sender, mut receiver) = ideal_cot(Block(1));
    sender.queue_send_cot(&[Block(2), Block(3)]);
    receiver.queue_recv_cot(&[true]);
    let msg = sender.flush(&mut Vec::new()).unwrap();
    assert!(matches!(
        receiver.flush(msg, &mut Vec::new()),
        Err(IdealCOTError::CountMismatch { sender: 2, receiver: 1 })
    ));

    let (mut sender, mut receiver) = ideal_cot(Block(1));
    sender.queue_send_cot(&[Block(2)]);
    sender.queue_send_cot(&[Block(3)]);
    receiver.queue_recv_cot(&[true]);
    let msg = sender.flush(&mut Vec::new()).unwrap();
    assert!(matches!(
        receiver.flush(msg, &mut Vec::new()),
        Err(IdealCOTError::BatchCountMismatch { sender: 2, receiver: 1 })
    ));
}

/// The choices are set, or drawn from a seeded generator: they are no constant.
#[test]
fn rot_choices() {
    let mut ideal = IdealROT::new(Block(42));
    ideal.set_receiver_choices(vec![true, false, true]);
    let (_, received) = ideal.transfer(3).unwrap();
    assert_eq!(received.choices, vec![true, false, true]);

    let mut ideal = IdealROT::new(Block(42));
    let (_, received) = ideal.transfer(128).unwrap();
    assert!(received.choices.contains(&true) && received.choices.contains(&false));
    let mut other = IdealROT::new(Block(42));
    let (_, again) = other.transfer(128).unwrap();
    assert_eq!(received.choices, again.choices);
}

#[test]
fn rot_insufficient() {
    let (mut sender, mut receiver) = ideal_rot(Block(0));
    assert!(matches!(sender.try_send_rot(1), Err(IdealROTError::NotEnough { .. })));
    assert!(matches!(receiver.try_recv_rot(1), Err(IdealROTError::NotEnough { .. })));
    assert!(sender.queue_send_rot(1).is_none());

    let (mut sender, mut receiver) = ideal_rot(Block(0));
    sender.allocate(2);
    receiver.allocate(1);
    let msg = sender.flush(&mut Vec::new()).unwrap();
    assert!(matches!(
        receiver.flush(msg, &mut Vec::new()),
        Err(IdealROTError::CountMismatch { sender: 2, receiver: 1 })
    ));

    let (mut sender, mut receiver) = ideal_rot(Block(0));
    sender.allocate(2);
    receiver.allocate(2);
    receiver.set_choices(vec![true]);
    let msg = sender.flush(&mut Vec::new()).unwrap();
    assert!(matches!(
        receiver.flush(msg, &mut Vec::new()),
        Err(IdealROTError::ForcedChoices { choices: 1, count: 2 })
    ));
}

/// Requests that wait for a flush are served as transfers. The choices that are
/// drawn are those of the generator, one after another.
#[test]
fn rot_queued() {
    let (mut sender, mut receiver) = ideal_rot(Block(u128::MAX - 4));
    let (mut sent, mut received) = (Vec::new(), Vec::new());
    let mut drawn = Vec::new();
    for _ in 0..2 {
        sender.allocate(5);
        receiver.allocate(5);
        for count in [2, 3] {
            assert!(sender.queue_send_rot(count).is_none());
            assert!(receiver.queue_recv_rot(count).is_none());
        }
        let msg = sender.flush(&mut sent).unwrap();
        receiver.flush(msg, &mut received).unwrap();
    }
    assert_eq!(sent.len(), 4);
    assert_eq!(received.len(), 4);
    for (i, (s, r)) in sent.iter().zip(&received).enumerate() {
        assert_eq!(s.id.0, i as u64);
        assert_eq!(s.id, r.id);
        assert_rot(&r.choices, &s.keys, &r.msgs);
        drawn.extend_from_slice(&r.choices);
    }
    // The pairs are three apart, in the cyclic order of all blocks.
    assert_eq!(sent[0].keys[0], [Block(u128::MAX - 4), Block(u128::MAX - 3)]);
    assert_eq!(sent[1].keys[0], [Block(1), Block(2)]);
    let mut rng = rand_chacha::ChaCha8Rng::seed_from_u64(0);
    let expected: Vec<bool> = (0..10).map(|_| rng.random()).collect();
    assert_eq!(drawn, expected);
}
