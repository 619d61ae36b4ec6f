use mpz::block::Block;
use mpz::circuits::builder::CircuitBuilder;
use mpz::circuits::circuit::{Circuit, Gate};
use mpz::digest::Transcript;
use mpz::memory::correlated::keys::Key;
use mpz::memory::correlated::macs::Mac;
use mpz::memory::correlated::Delta;
use mpz::zk::protocol::{ot_count, Call, Progress, Prover as Protocol, Step};
use mpz::zk::check::{Statement, UV};
use mpz::zk::prover::{Prover, ProverError};
use mpz::zk::store::prover::{Decode, ProverStore, ProverStoreError};
use rand::rngs::StdRng;
use rand::{RngExt, SeedableRng};
use std::sync::Arc;

fn circuit() -> Arc<Circuit> {
    let mut b = CircuitBuilder::new();
    let (x, y, z) = (b.add_input(), b.add_input(), b.add_input());
    let t = b.add_and_gate(x, y);
    let u = b.add_inv_gate(z);
    let v = b.add_and_gate(t, u);
    let first = b.add_xor_gate(v, x);
    let second = b.add_id_gate(t);
    b.add_output(first);
    b.add_output(second);
    Arc::new(b.build().unwrap())
}

/// The keys of the wires, for adjusted keys of the AND gates.
fn wire_keys(circ: &Circuit, inputs: &[Key], gates: &[Key], delta: &Delta) -> Vec<Key> {
    let mut keys = vec![Key(Block::zero()); circ.feed_count()];
    keys[..inputs.len()].copy_from_slice(inputs);
    let mut next = gates.iter();
    for gate in circ.gates() {
        match *gate {
            Gate::Xor { x, y, z } => keys[z.id] = keys[x.id] + keys[y.id],
            Gate::And { z, .. } => keys[z.id] = *next.next().unwrap(),
            Gate::Inv { x, z } => {
                // The negated bit has the key with delta added, but for the
                // pointer bit, which stays zero.
                keys[z.id] = Key(keys[x.id].0 ^ *delta.as_block() ^ Block::one());
            }
            Gate::Id { x, z } => keys[z.id] = keys[x.id],
        }
    }
    keys
}

/// The outputs of an execution are authenticated, under keys that the adjustment
/// bits determine.
#[test]
fn execution_authenticates_the_outputs() {
    let circ = circuit();
    let mut rng = StdRng::seed_from_u64(0);
    let delta = Delta::new(Block(rng.random::<u128>() | 1));
    for bits in 0..8u8 {
        let input: Vec<bool> = (0..3).map(|i| bits >> i & 1 == 1).collect();
        let keys: Vec<Key> = (0..3).map(|_| Key(Block(rng.random::<u128>() & !1))).collect();
        let macs: Vec<Mac> = keys.iter().zip(&input).map(|(k, b)| k.auth(*b, &delta)).collect();
        let masks: Vec<bool> = (0..2).map(|_| rng.random()).collect();
        let gate_keys: Vec<Key> = (0..2).map(|_| Key(Block(rng.random::<u128>() & !1))).collect();
        let gate_macs: Vec<Mac> =
            gate_keys.iter().zip(&masks).map(|(k, b)| k.auth(*b, &delta)).collect();

        let mut prover = Prover::new();
        let execute = prover.execute(circ.clone(), &macs, &masks, &gate_macs).unwrap();
        assert_eq!(execute.and_count(), 2);
        let mut iter = execute.iter();
        let mut adjust = Vec::new();
        while let Some(bit) = iter.next() {
            adjust.push(bit);
        }
        assert_eq!(adjust.len(), 2);
        let mut transcript = Transcript::new();
        transcript.update(&[7]);
        let choices = [true; 128];
        let ev = [Block(3); 128];
        assert!(matches!(
            prover.check(&mut transcript, &choices, &ev, &|s: Statement| (
                Err("run".to_string()),
                s.transcript
            )),
            Err(ProverError::Inprogress)
        ));
        let outputs = iter.into_execute().finish(&mut prover).unwrap();

        let mut adjusted = gate_keys.clone();
        for (key, bit) in adjusted.iter_mut().zip(&adjust) {
            key.adjust(*bit, &delta);
            key.0.set_lsb(false);
        }
        let wires = wire_keys(&circ, &keys, &adjusted, &delta);
        let expected = circ.evaluate(&input);
        let base = circ.feed_count() - circ.output_count();
        for j in 0..2 {
            assert_eq!(outputs[j].pointer(), expected[j]);
            assert_eq!(outputs[j].0 .0 >> 1, wires[base + j].auth(expected[j], &delta).0 .0 >> 1);
        }

        assert!(prover.wants_check());
        assert_eq!(prover.pending(), 2);
        let uv = prover
            .check(&mut transcript, &choices, &ev, &|mut s: Statement| {
                assert_eq!(s.triples.len(), 2);
                assert_eq!(s.adjust, adjust);
                assert_eq!(s.svole_choices, choices);
                assert_eq!(s.svole_ev, ev);
                assert_eq!(s.transcript.bytes, vec![7]);
                let mut sum = Block(0);
                for t in &s.triples {
                    assert_eq!(t.z.lsb(), t.x.lsb() && t.y.lsb());
                    sum ^= t.z;
                }
                s.transcript.update(&[8]);
                (Ok(UV { u: sum, v: Block(1) }), s.transcript)
            })
            .unwrap();
        assert_eq!(uv.v, Block(1));
        assert_eq!(transcript.bytes, vec![7, 8]);
        assert!(!prover.wants_check());
        assert!(matches!(
            prover.check(&mut transcript, &choices, &ev, &|s: Statement| (
                Err("none".to_string()),
                s.transcript
            )),
            Err(ProverError::Check(e)) if e == "none"
        ));
    }
}

#[test]
fn execution_errors() {
    let circ = circuit();
    let mut prover = Prover::new();
    let m = Mac(Block(2));
    assert!(matches!(
        prover.execute(circ.clone(), &[m], &[true; 2], &[m; 2]),
        Err(ProverError::InputMacCount { expected: 3, actual: 1 })
    ));
    assert!(matches!(
        prover.execute(circ.clone(), &[m; 3], &[true], &[m; 2]),
        Err(ProverError::GateMaskCount { expected: 2, actual: 1 })
    ));
    assert!(matches!(
        prover.execute(circ.clone(), &[m; 3], &[true; 2], &[m]),
        Err(ProverError::GateMacCount { expected: 2, actual: 1 })
    ));
    let execute = prover.execute(circ, &[m; 3], &[true; 2], &[m; 2]).unwrap();
    let mut iter = execute.iter();
    iter.next();
    assert!(matches!(
        iter.into_execute().finish(&mut prover),
        Err(ProverError::Incomplete)
    ));
}

/// What is committed goes out masked, and what is decoded comes back.
#[test]
fn store_flush() {
    let mut store = ProverStore::new();
    let slice = store.alloc_raw(4).unwrap();
    store.mark_private_raw(slice).unwrap();
    store.assign_raw(slice, vec![true, false, true, true]).unwrap();
    store.commit_raw(slice).unwrap();
    assert!(store.wants_macs());
    assert_eq!(store.mac_count(), 4);
    let masks = [true, true, false, false];
    let macs: Vec<Mac> = masks.iter().map(|m| Mac(Block(8 | *m as u128))).collect();
    assert!(matches!(
        store.set_macs(&masks[..3], &macs[..3]),
        Err(ProverStoreError::WrongMacCount { expected: 4, actual: 3 })
    ));
    store.set_macs(&masks, &macs).unwrap();
    assert!(store.is_set_macs(slice));
    assert!(store.wants_flush());
    assert!(matches!(store.decode_raw(slice).unwrap(), Decode::Ready(v) if v == vec![true, false, true, true]));

    let mut transcript = Transcript::new();
    let flush = store.send_flush(&mut transcript).unwrap();
    assert_eq!(flush.adjust, vec![false, true, true, true]);
    assert!(flush.mac_proof.is_none());
    assert!(matches!(
        store.send_flush(&mut transcript),
        Err(ProverStoreError::UnexpectedFlush)
    ));
    store.complete_flush().unwrap();
    assert!(matches!(store.complete_flush(), Err(ProverStoreError::UnexpectedFlush)));

    // What was committed is proven with the next flush.
    assert!(store.wants_flush());
    let flush = store.send_flush(&mut transcript).unwrap();
    assert!(flush.adjust.is_empty());
    let (bits, _) = flush.mac_proof.unwrap();
    assert_eq!(bits, vec![true, false, true, true]);
    store.complete_flush().unwrap();
    assert!(!store.wants_flush());
    assert_eq!(store.get_raw(slice).unwrap(), Some(vec![true, false, true, true]));
    for (mac, bit) in store.try_get_macs(slice).unwrap().iter().zip([true, false, true, true]) {
        assert_eq!(mac.pointer(), bit);
    }
}

/// One check is paid for with each batch that is begun.
#[test]
fn transfers_per_call() {
    assert_eq!(ot_count(0, 0, 10), 0);
    assert_eq!(ot_count(0, 1, 10), 1 + 128);
    assert_eq!(ot_count(0, 10, 10), 10 + 128);
    assert_eq!(ot_count(0, 11, 10), 11 + 256);
    assert_eq!(ot_count(5, 5, 10), 5);
    assert_eq!(ot_count(5, 6, 10), 6 + 128);
    assert_eq!(ot_count(10, 1, 10), 1 + 128);
}

#[test]
fn calls_are_collected_when_ready() {
    let mut prover = Protocol::new(100);
    let slice = prover.alloc_raw(3).unwrap();
    let call = Call { circ: circuit(), inputs: vec![slice] };
    let (output, ots) = prover.call_raw(call);
    assert_eq!(output.size, 2);
    assert_eq!(ots, 2 + 128);
    assert_eq!(prover.next_step(0, Progress::Started), Step::Collect);
    assert!(prover.collect(0).is_empty());
    assert_eq!(prover.next_step(0, Progress::Collected(0)), Step::Reserve(128));

    prover.mark_public_raw(slice).unwrap();
    prover.assign_raw(slice, vec![true, false, true]).unwrap();
    prover.commit_raw(slice).unwrap();
    assert!(prover.wants_execute());
    let ready = prover.collect(0);
    assert_eq!(ready.len(), 1);
    assert_eq!(ready[0].output, output);
    assert_eq!(ready[0].input_macs.len(), 3);
    assert_eq!(prover.next_step(0, Progress::Collected(1)), Step::Run);
    assert_eq!(prover.next_step(100, Progress::Ran), Step::Check(128));
    assert_eq!(prover.next_step(2, Progress::Ran), Step::LastCheck(128));
    assert_eq!(prover.next_step(0, Progress::LastChecked), Step::Done);
}

/// The transfers of several calls are as many as for one with all their gates.
#[test]
fn transfers_of_several_calls() {
    let mut prover = Protocol::new(3);
    let mut sum = 0;
    for calls in 0..7 {
        assert_eq!(prover.and_count(), Some(2 * calls));
        let slice = prover.alloc_raw(3).unwrap();
        let expected = prover.transfers(2).unwrap();
        let (_, ots) = prover.call_raw(Call { circ: circuit(), inputs: vec![slice] });
        assert_eq!(ots, expected);
        sum += ots;
    }
    assert_eq!(sum, ot_count(0, 14, 3));
    assert_eq!(sum, 14 + 128 * 5);
}

#[test]
fn uncountable_transfers() {
    assert_eq!(Protocol::new(0).transfers(0), Some(0));
    assert_eq!(Protocol::new(0).transfers(1), None);
    assert_eq!(Protocol::new(10).transfers(1), Some(129));
    assert_eq!(Protocol::new(10).transfers(usize::MAX), None);
    assert_eq!(Protocol::new(1).transfers(usize::MAX - 1), None);
}

#[test]
fn empty_by_default() {
    let prover = Prover::default();
    assert!(!prover.wants_check());
    assert_eq!(prover.pending(), 0);
    assert!(!ProverStore::default().wants_flush());
}

/// A call takes effect once it is added.
#[test]
fn call_in_two_steps() {
    let mut prover = Protocol::new(3);
    let slice = prover.alloc_raw(3).unwrap();
    let (output, ots) = prover.begin_call(2, 2);
    assert_eq!((output.ptr.0, output.size, ots), (3, 2, 130));
    assert_eq!(prover.and_count(), Some(0));
    prover.push_call(Call { circ: circuit(), inputs: vec![slice] }, output);
    assert_eq!(prover.and_count(), Some(2));
    assert!(prover.store().is_alloc_raw(output));
}
