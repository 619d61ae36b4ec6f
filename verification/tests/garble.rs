use aes::cipher::{BlockCipherEncrypt, KeyInit};
use aes::Aes128;
use mpz::block::Block;
use mpz::circuits::builder::CircuitBuilder;
use mpz::circuits::circuit::{Circuit, Gate};
use mpz::garble::evaluator::{evaluate_garbled_circuits, Evaluator, EvaluatorError};
use mpz::garble::{EncryptedGate, EncryptedGateBatch, GarbledCircuit};
use mpz::memory::correlated::macs::Mac;
use rand::rngs::StdRng;
use rand::{RngExt, SeedableRng};

fn cipher(input: (Block, Block)) -> Block {
    let aes = Aes128::new(&[9; 16].into());
    let mut block = (Block::sigma(input.1) ^ input.0).to_bytes().into();
    aes.encrypt_block(&mut block);
    Block::new(block.into()) ^ input.1
}

fn tweak(gid: usize) -> Block {
    Block::new((gid as u128).to_be_bytes())
}

/// Garbles a circuit: the zero labels of all wires, and the encrypted gates.
fn garble(circ: &Circuit, delta: Block) -> (Vec<Block>, Vec<EncryptedGate>) {
    let mut rng = StdRng::seed_from_u64(5);
    let mut zero = vec![Block::zero(); circ.feed_count()];
    for label in zero.iter_mut().take(circ.input_count()) {
        *label = Block(rng.random());
    }
    let mut gates = Vec::new();
    let mut gid = 1;
    let mask = |bit: bool, b: Block| if bit { b } else { Block::zero() };
    for gate in circ.gates() {
        match *gate {
            Gate::Xor { x, y, z } => zero[z.id] = zero[x.id] ^ zero[y.id],
            Gate::Inv { x, z } => zero[z.id] = zero[x.id] ^ delta,
            Gate::Id { x, z } => zero[z.id] = zero[x.id],
            Gate::And { x, y, z } => {
                let (x, y) = (zero[x.id], zero[y.id]);
                let (j, k) = (tweak(gid), tweak(gid + 1));
                let (hx0, hx1) = (cipher((j, x)), cipher((j, x ^ delta)));
                let (hy0, hy1) = (cipher((k, y)), cipher((k, y ^ delta)));
                let g = hx0 ^ hx1 ^ mask(y.lsb(), delta);
                let e = hy0 ^ hy1 ^ x;
                zero[z.id] = hx0 ^ mask(x.lsb(), g) ^ hy0 ^ mask(y.lsb(), e ^ x);
                gates.push(EncryptedGate([g, e]));
                gid += 2;
            }
        }
    }
    (zero, gates)
}

fn label(zero: Block, bit: bool, delta: Block) -> Block {
    if bit {
        zero ^ delta
    } else {
        zero
    }
}

/// (a & b) ^ !c, and a & (b & c).
fn circuit() -> Circuit {
    let mut b = CircuitBuilder::new();
    let (x, y, z) = (b.add_input(), b.add_input(), b.add_input());
    let t = b.add_and_gate(x, y);
    let u = b.add_inv_gate(z);
    let first = b.add_xor_gate(t, u);
    let t = b.add_and_gate(y, z);
    let second = b.add_and_gate(x, t);
    b.add_output(first);
    b.add_output(second);
    b.build().unwrap()
}

#[test]
fn evaluation_gives_the_labels_of_the_outputs() {
    let circ = circuit();
    let delta = Block(StdRng::seed_from_u64(6).random::<u128>() | 1);
    let (zero, gates) = garble(&circ, delta);
    for bits in 0..8u8 {
        let input: Vec<bool> = (0..3).map(|i| bits >> i & 1 == 1).collect();
        let macs: Vec<Mac> = (0..3).map(|i| Mac(label(zero[i], input[i], delta))).collect();
        let output = circ.evaluate(&input);
        let base = circ.feed_count() - circ.output_count();
        let expected: Vec<Block> =
            (0..2).map(|j| label(zero[base + j], output[j], delta)).collect();

        let mut ev = Evaluator::with_capacity(16);
        let mut consumer = ev.evaluate(&cipher, &circ, &macs).unwrap();
        for gate in &gates {
            assert!(consumer.wants_gates());
            consumer.next(*gate);
        }
        assert!(!consumer.wants_gates());
        let out = consumer.finish().unwrap();
        assert_eq!(out.outputs.iter().map(|m| m.0).collect::<Vec<_>>(), expected);

        // In batches, of which the last one is filled up.
        let mut consumer = ev.evaluate_batched(&cipher, &circ, &macs).unwrap();
        consumer.next(EncryptedGateBatch([gates[0], gates[1]]));
        consumer.next(EncryptedGateBatch([gates[2], EncryptedGate([Block::zero(); 2])]));
        assert!(!consumer.wants_gates());
        let out = consumer.finish().unwrap();
        assert_eq!(out.outputs.iter().map(|m| m.0).collect::<Vec<_>>(), expected);

        let outs = evaluate_garbled_circuits(
            &cipher,
            &[
                (circuit(), macs.clone(), GarbledCircuit { gates: gates.clone() }),
                (circuit(), macs.clone(), GarbledCircuit { gates: gates.clone() }),
            ],
        )
        .unwrap();
        assert_eq!(outs.len(), 2);
        for out in outs {
            assert_eq!(out.outputs.iter().map(|m| m.0).collect::<Vec<_>>(), expected);
        }
    }
}

#[test]
fn evaluation_errors() {
    let circ = circuit();
    let mut ev = Evaluator::default();
    let short = [Mac(Block(1)), Mac(Block(2))];
    assert_eq!(
        ev.evaluate(&cipher, &circ, &short).err(),
        Some(EvaluatorError::InputLength { expected: 3, actual: 2 })
    );
    let macs = [Mac(Block(1)), Mac(Block(2)), Mac(Block(3))];
    let consumer = ev.evaluate(&cipher, &circ, &macs).unwrap();
    assert_eq!(consumer.finish().err(), Some(EvaluatorError::NotFinished));
}
