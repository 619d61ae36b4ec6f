use mpz::circuits::blake3::{compress, mix, round};
use mpz::circuits::builder::CircuitBuilder;
use mpz::circuits::circuit::Circuit;
use std::array::from_fn;

fn evaluate(circ: &Circuit, words: &[u32]) -> Vec<u32> {
    let inputs: Vec<bool> = words
        .iter()
        .flat_map(|w| (0..32).map(|i| w >> i & 1 == 1).collect::<Vec<_>>())
        .collect();
    let outputs = circ.evaluate(&inputs);
    outputs
        .chunks(32)
        .map(|c| c.iter().enumerate().map(|(i, b)| (*b as u32) << i).sum())
        .collect()
}

const MSG_PERMUTATION: [usize; 16] = [2, 6, 3, 10, 7, 0, 4, 13, 1, 11, 12, 5, 9, 14, 15, 8];

fn reference_mix(
    state: &mut [u32; 16],
    a: usize,
    b: usize,
    c: usize,
    d: usize,
    mx: u32,
    my: u32,
) {
    state[a] = state[a].wrapping_add(state[b]).wrapping_add(mx);
    state[d] = (state[d] ^ state[a]).rotate_right(16);
    state[c] = state[c].wrapping_add(state[d]);
    state[b] = (state[b] ^ state[c]).rotate_right(12);
    state[a] = state[a].wrapping_add(state[b]).wrapping_add(my);
    state[d] = (state[d] ^ state[a]).rotate_right(8);
    state[c] = state[c].wrapping_add(state[d]);
    state[b] = (state[b] ^ state[c]).rotate_right(7);
}

fn reference_round(state: &mut [u32; 16], m: &[u32; 16]) {
    // Mix the columns.
    reference_mix(state, 0, 4, 8, 12, m[0], m[1]);
    reference_mix(state, 1, 5, 9, 13, m[2], m[3]);
    reference_mix(state, 2, 6, 10, 14, m[4], m[5]);
    reference_mix(state, 3, 7, 11, 15, m[6], m[7]);
    // Mix the diagonals.
    reference_mix(state, 0, 5, 10, 15, m[8], m[9]);
    reference_mix(state, 1, 6, 11, 12, m[10], m[11]);
    reference_mix(state, 2, 7, 8, 13, m[12], m[13]);
    reference_mix(state, 3, 4, 9, 14, m[14], m[15]);
}

fn reference_permute(m: &mut [u32; 16]) {
    let mut permuted = [0; 16];
    for i in 0..16 {
        permuted[i] = m[MSG_PERMUTATION[i]];
    }
    *m = permuted;
}

fn reference_compress(block: &mut [u32; 16], state: &mut [u32; 16]) {
    let initial_state = *state;

    reference_round(state, block); // round 1
    reference_permute(block);
    reference_round(state, block); // round 2
    reference_permute(block);
    reference_round(state, block); // round 3
    reference_permute(block);
    reference_round(state, block); // round 4
    reference_permute(block);
    reference_round(state, block); // round 5
    reference_permute(block);
    reference_round(state, block); // round 6
    reference_permute(block);
    reference_round(state, block); // round 7

    for i in 0..8 {
        state[i] ^= state[i + 8];
        state[i + 8] ^= initial_state[i];
    }
}

#[test]
fn test_blake3_mix() {
    let mut builder = CircuitBuilder::new();

    // Create inputs for the 16 state values and 16 message values
    let mut state: [[_; 32]; 16] = from_fn(|_| from_fn(|_| builder.add_input()));
    let msg: [[_; 32]; 16] = from_fn(|_| from_fn(|_| builder.add_input()));

    // Apply mix_alt to positions 0, 1, 2, 3 with message indices 0, 1
    mix(&mut builder, &mut state, &msg, (0, 1, 2, 3), (0, 1));

    // Add outputs (1st 4 state values)
    for (i, state_word) in state.into_iter().enumerate() {
        if i < 4 {
            for node in state_word {
                builder.add_output(node);
            }
        }
    }

    let circ = builder.build().unwrap();

    // Test case 1: All ones
    {
        let mut state = [1u32; 16];
        reference_mix(&mut state, 0, 1, 2, 3, 1u32, 1u32);

        let mut input_values = Vec::new();
        // Add state values
        for _ in 0..16 {
            input_values.push(1u32);
        }
        // Add message values
        for _ in 0..16 {
            input_values.push(1u32);
        }

        let output: Vec<u32> = evaluate(&circ, &input_values);

        for i in 0..4 {
            assert_eq!(output[i], state[i], "Test 1: State[{i}] mismatch");
        }
    }

    // Test case 2: All zeros (edge case)
    {
        let mut state = [0u32; 16];
        reference_mix(&mut state, 0, 1, 2, 3, 0u32, 0u32);

        let mut input_values = Vec::new();
        // Add state values
        for _ in 0..16 {
            input_values.push(0u32);
        }
        // Add message values
        for _ in 0..16 {
            input_values.push(0u32);
        }

        let output: Vec<u32> = evaluate(&circ, &input_values);

        for i in 0..4 {
            assert_eq!(output[i], state[i], "Test 2: State[{i}] mismatch");
        }
    }

    // Test case 3: Max values (overflow testing)
    {
        let mut state = [u32::MAX; 16];
        reference_mix(&mut state, 0, 1, 2, 3, u32::MAX, u32::MAX);

        let mut input_values = Vec::new();
        // Add state values
        for _ in 0..16 {
            input_values.push(u32::MAX);
        }
        // Add message values
        for _ in 0..16 {
            input_values.push(u32::MAX);
        }

        let output: Vec<u32> = evaluate(&circ, &input_values);

        for i in 0..4 {
            assert_eq!(output[i], state[i], "Test 3: State[{i}] mismatch");
        }
    }

    // Test case 4: Sequential values
    {
        let mut state = [0u32; 16];
        for i in 0..16 {
            state[i] = i as u32;
        }
        reference_mix(&mut state, 0, 1, 2, 3, 16u32, 17u32);

        let mut input_values = Vec::new();
        // Add state values (0..16)
        for i in 0..16 {
            input_values.push(i as u32);
        }
        // Add message values (16..32)
        for i in 16..32 {
            input_values.push(i as u32);
        }

        let output: Vec<u32> = evaluate(&circ, &input_values);

        for i in 0..4 {
            assert_eq!(output[i], state[i], "Test 4: State[{i}] mismatch");
        }
    }

    // Test case 5: Powers of two
    {
        let mut state = [0u32; 16];
        for i in 0..16 {
            state[i] = 1u32 << (i % 16);
        }
        let msg_vals = [1u32 << 16, 1u32 << 17];
        reference_mix(&mut state, 0, 1, 2, 3, msg_vals[0], msg_vals[1]);

        let mut input_values = Vec::new();
        // Add state values
        for i in 0..16 {
            input_values.push(1u32 << (i % 16));
        }
        // Add message values
        input_values.push(1u32 << 16); // msg[0]
        input_values.push(1u32 << 17); // msg[1]
        for _ in 2..16 {
            input_values.push(0u32);
        }

        let output: Vec<u32> = evaluate(&circ, &input_values);

        for i in 0..4 {
            assert_eq!(output[i], state[i], "Test 5: State[{i}] mismatch");
        }
    }

    // Test case 6: Mix of zero and non-zero values
    {
        let mut state = [0u32; 16];
        state[0] = 0u32;
        state[1] = u32::MAX;
        state[2] = 0u32;
        state[3] = u32::MAX;
        reference_mix(&mut state, 0, 1, 2, 3, 0x12345678u32, 0x9abcdef0u32);

        let mut input_values = Vec::new();
        // Add state values
        input_values.push(0u32);
        input_values.push(u32::MAX);
        input_values.push(0u32);
        input_values.push(u32::MAX);
        for _ in 4..16 {
            input_values.push(0u32);
        }
        // Add message values
        input_values.push(0x12345678u32); // msg[0]
        input_values.push(0x9abcdef0u32); // msg[1]
        for _ in 2..16 {
            input_values.push(0u32);
        }

        let output: Vec<u32> = evaluate(&circ, &input_values);

        for i in 0..4 {
            assert_eq!(output[i], state[i], "Test 6: State[{i}] mismatch");
        }
    }

    // Test case 7: Large random-like values
    {
        let mut state = [0u32; 16];
        state[0] = 0xdeadbeefu32;
        state[1] = 0xcafebabeu32;
        state[2] = 0xfeedfaceu32;
        state[3] = 0xbadc0dedu32;
        reference_mix(&mut state, 0, 1, 2, 3, 0x11111111u32, 0x22222222u32);

        let mut input_values = Vec::new();
        // Add state values
        input_values.push(0xdeadbeefu32);
        input_values.push(0xcafebabeu32);
        input_values.push(0xfeedfaceu32);
        input_values.push(0xbadc0dedu32);
        for _ in 4..16 {
            input_values.push(0u32);
        }
        // Add message values
        input_values.push(0x11111111u32); // msg[0]
        input_values.push(0x22222222u32); // msg[1]
        for _ in 2..16 {
            input_values.push(0u32);
        }

        let output: Vec<u32> = evaluate(&circ, &input_values);

        for i in 0..4 {
            assert_eq!(output[i], state[i], "Test 7: State[{i}] mismatch");
        }
    }

    // Test case 8: Values with alternating bit patterns
    {
        let mut state = [0u32; 16];
        state[0] = 0xAAAAAAAAu32;
        state[1] = 0x55555555u32;
        state[2] = 0xFFFF0000u32;
        state[3] = 0x0000FFFFu32;
        reference_mix(&mut state, 0, 1, 2, 3, 0xF0F0F0F0u32, 0x0F0F0F0Fu32);

        let mut input_values = Vec::new();
        // Add state values
        input_values.push(0xAAAAAAAAu32);
        input_values.push(0x55555555u32);
        input_values.push(0xFFFF0000u32);
        input_values.push(0x0000FFFFu32);
        for _ in 4..16 {
            input_values.push(0u32);
        }
        // Add message values
        input_values.push(0xF0F0F0F0u32); // msg[0]
        input_values.push(0x0F0F0F0Fu32); // msg[1]
        for _ in 2..16 {
            input_values.push(0u32);
        }

        let output: Vec<u32> = evaluate(&circ, &input_values);

        for i in 0..4 {
            assert_eq!(output[i], state[i], "Test 8: State[{i}] mismatch");
        }
    }

    // Test case 9: Single bit set values
    {
        let mut state = [0u32; 16];
        state[0] = 1u32 << 31;
        state[1] = 1u32 << 15;
        state[2] = 1u32 << 7;
        state[3] = 1u32 << 0;
        reference_mix(&mut state, 0, 1, 2, 3, 1u32 << 16, 1u32 << 8);

        let mut input_values = Vec::new();
        // Add state values
        input_values.push(1u32 << 31);
        input_values.push(1u32 << 15);
        input_values.push(1u32 << 7);
        input_values.push(1u32 << 0);
        for _ in 4..16 {
            input_values.push(0u32);
        }
        // Add message values
        input_values.push(1u32 << 16); // msg[0]
        input_values.push(1u32 << 8); // msg[1]
        for _ in 2..16 {
            input_values.push(0u32);
        }

        let output: Vec<u32> = evaluate(&circ, &input_values);

        for i in 0..4 {
            assert_eq!(output[i], state[i], "Test 9: State[{i}] mismatch");
        }
    }
}

#[test]
fn test_blake3_round() {

    let mut builder = CircuitBuilder::new();

    // Create inputs for the 16 state values and 16 message values
    let mut state: [[_; 32]; 16] = from_fn(|_| from_fn(|_| builder.add_input()));
    let msg: [[_; 32]; 16] = from_fn(|_| from_fn(|_| builder.add_input()));

    round(&mut builder, &mut state, &msg);

    // Add outputs
    for state_word in state {
        for node in state_word {
            builder.add_output(node);
        }
    }

    let circ = builder.build().unwrap();

    // Test with sequential values
    let mut expected_state = [0u32; 16];
    for i in 0..16 {
        expected_state[i] = i as u32;
    }

    let test_m = [0u32; 16];
    reference_round(&mut expected_state, &test_m);

    // Prepare input values
    let mut input_values = Vec::new();
    // Add state values (0..16)
    for i in 0..16 {
        input_values.push(i as u32);
    }
    // Add message values (all zeros)
    for _ in 0..16 {
        input_values.push(0u32);
    }

    // Evaluate circuit
    let output: Vec<u32> = evaluate(&circ, &input_values);

    // Check results
    for i in 0..16 {
        assert_eq!(output[i], expected_state[i], "State[{i}] mismatch");
    }
}

#[test]
fn test_blake3_compress() {
    let circ = compress();

    // Test case 1: All zeros
    {
        let mut test_state = [0u32; 16];
        let mut test_msg = [0u32; 16];
        reference_compress(&mut test_msg, &mut test_state);

        let mut input_values = Vec::new();
        // Add message values (all zeros)
        for _ in 0..16 {
            input_values.push(0u32);
        }
        // Add state values (all zeros)
        for _ in 0..16 {
            input_values.push(0u32);
        }

        let output: Vec<u32> = evaluate(&circ, &input_values);

        for i in 0..16 {
            assert_eq!(output[i], test_state[i], "Test 1: State[{i}] mismatch");
        }
    }

    // Test case 2: Sequential values for state, zeros for message
    {
        let mut test_state = [0u32; 16];
        for i in 0..16 {
            test_state[i] = i as u32;
        }
        let mut test_msg = [0u32; 16];
        reference_compress(&mut test_msg, &mut test_state);

        let mut input_values = Vec::new();
        // Add message values (all zeros)
        for _ in 0..16 {
            input_values.push(0u32);
        }
        // Add state values (0..16)
        for i in 0..16 {
            input_values.push(i as u32);
        }

        let output: Vec<u32> = evaluate(&circ, &input_values);

        for i in 0..16 {
            assert_eq!(output[i], test_state[i], "Test 2: State[{i}] mismatch");
        }
    }

    // Test case 3: All ones
    {
        let mut test_state = [1u32; 16];
        let mut test_msg = [1u32; 16];
        reference_compress(&mut test_msg, &mut test_state);

        let mut input_values = Vec::new();
        // Add message values (all ones)
        for _ in 0..16 {
            input_values.push(1u32);
        }
        // Add state values (all ones)
        for _ in 0..16 {
            input_values.push(1u32);
        }

        let output: Vec<u32> = evaluate(&circ, &input_values);

        for i in 0..16 {
            assert_eq!(output[i], test_state[i], "Test 3: State[{i}] mismatch");
        }
    }

    // Test case 4: Powers of two pattern
    {
        let mut test_state = [0u32; 16];
        let mut test_msg = [0u32; 16];
        for i in 0..16 {
            test_state[i] = 1u32 << (i % 32);
            test_msg[i] = 1u32 << ((i + 16) % 32);
        }
        reference_compress(&mut test_msg, &mut test_state);

        let mut input_values = Vec::new();
        // Add message values
        for i in 0..16 {
            input_values.push(1u32 << ((i + 16) % 32));
        }
        // Add state values
        for i in 0..16 {
            input_values.push(1u32 << (i % 32));
        }

        let output: Vec<u32> = evaluate(&circ, &input_values);

        for i in 0..16 {
            assert_eq!(output[i], test_state[i], "Test 4: State[{i}] mismatch");
        }
    }

    // Test case 5: Alternating pattern
    {
        let mut test_state = [0u32; 16];
        let mut test_msg = [0u32; 16];
        for i in 0..16 {
            test_state[i] = if i % 2 == 0 { 0xAAAAAAAA } else { 0x55555555 };
            test_msg[i] = if i % 2 == 0 { 0x0F0F0F0F } else { 0xF0F0F0F0 };
        }
        reference_compress(&mut test_msg, &mut test_state);

        let mut input_values = Vec::new();
        // Add message values
        for i in 0..16 {
            input_values.push(if i % 2 == 0 {
                0x0F0F0F0Fu32
            } else {
                0xF0F0F0F0u32
            });
        }
        // Add state values
        for i in 0..16 {
            input_values.push(if i % 2 == 0 {
                0xAAAAAAAAu32
            } else {
                0x55555555u32
            });
        }

        let output: Vec<u32> = evaluate(&circ, &input_values);

        for i in 0..16 {
            assert_eq!(output[i], test_state[i], "Test 5: State[{i}] mismatch");
        }
    }

    // Test case 6: Max values (overflow testing)
    {
        let mut test_state = [u32::MAX; 16];
        let mut test_msg = [u32::MAX; 16];
        reference_compress(&mut test_msg, &mut test_state);

        let mut input_values = Vec::new();
        // Add message values (all MAX)
        for _ in 0..16 {
            input_values.push(u32::MAX);
        }
        // Add state values (all MAX)
        for _ in 0..16 {
            input_values.push(u32::MAX);
        }

        let output: Vec<u32> = evaluate(&circ, &input_values);

        for i in 0..16 {
            assert_eq!(output[i], test_state[i], "Test 6: State[{i}] mismatch");
        }
    }
}

#[test]
fn constants_are_folded() {
    let mut builder = CircuitBuilder::new();
    let a = builder.add_input();
    let b = builder.add_input();
    let zero = builder.get_const_zero();
    let one = builder.get_const_one();

    assert_eq!(builder.add_xor_gate(a, zero), a);
    assert_eq!(builder.add_and_gate(a, one), a);
    assert_eq!(builder.add_and_gate(a, zero), zero);
    assert_eq!(builder.add_inv_gate(zero), one);
    assert_eq!(builder.add_id_gate(one), one);

    let x = builder.add_xor_gate(a, b);
    let y = builder.add_and_gate(a, b);
    let z = builder.add_inv_gate(y);
    let w = builder.add_id_gate(x);
    builder.add_output(z);
    builder.add_output(w);
    let circ = builder.build().unwrap();

    assert_eq!(circ.input_count(), 2);
    assert_eq!(circ.output_count(), 2);
    assert_eq!(circ.and_count(), 1);
    assert_eq!(circ.gates().len(), 4);
    assert_eq!(circ.feed_count(), 6);
    for a in [false, true] {
        for b in [false, true] {
            assert_eq!(circ.evaluate(&[a, b]), vec![!(a && b), a != b]);
        }
    }
}

/// The other words of the state keep their wires.
#[test]
fn mix_keeps_other_words() {
    let mut builder = CircuitBuilder::new();
    let mut state: [[_; 32]; 16] = from_fn(|_| from_fn(|_| builder.add_input()));
    let msg: [[_; 32]; 16] = from_fn(|_| from_fn(|_| builder.add_input()));
    let before = state;
    mix(&mut builder, &mut state, &msg, (1, 6, 11, 12), (2, 3));
    for i in 0..16 {
        assert_eq!(state[i] == before[i], ![1, 6, 11, 12].contains(&i));
    }
}

#[test]
fn gates_that_cancel() {
    let mut builder = CircuitBuilder::new();
    let a = builder.add_input();
    let b = builder.add_input();
    let not = builder.add_inv_gate(a);
    let same = builder.add_inv_gate(not);
    let sum = builder.add_xor_gate(a, b);
    let back = builder.add_xor_gate(sum, b);
    builder.add_output(same);
    builder.add_output(back);
    let circ = builder.build().unwrap();
    for a in [false, true] {
        for b in [false, true] {
            assert_eq!(circ.evaluate(&[a, b]), vec![a, a]);
        }
    }
}

#[test]
fn circuit_validity() {
    let mut builder = CircuitBuilder::new();
    let a = builder.add_input();
    let b = builder.add_input();
    let c = builder.add_and_gate(a, b);
    builder.add_output(c);
    let circ = builder.build().unwrap();
    assert!(circ.is_valid());
    assert!(!Circuit { and_count: 2, ..circ.clone() }.is_valid());
    assert!(!Circuit { feed_count: 2, ..circ.clone() }.is_valid());
    assert!(!Circuit { input_count: 9, ..circ.clone() }.is_valid());
    assert!(!Circuit { output_count: 9, ..circ }.is_valid());
}

/// Inputs come first and outputs last, and gates read what is known.
#[test]
fn built_circuits_are_in_order() {
    let mut builder = CircuitBuilder::new();
    let a = builder.add_input();
    let t = builder.add_inv_gate(a);
    let b = builder.add_input();
    let u = builder.add_and_gate(t, b);
    let v = builder.add_xor_gate(u, t);
    builder.add_output(v);
    builder.add_output(u);
    let circ = builder.build().unwrap();
    let mut known = vec![0, 1];
    for gate in circ.gates() {
        assert!(known.contains(&gate.x().id) && known.contains(&gate.y().id));
        assert!(!known.contains(&gate.z().id));
        known.push(gate.z().id);
    }
    assert_eq!(known, vec![0, 1, 2, 4, 3]);
}
