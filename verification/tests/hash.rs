use blake3::hazmat::HasherExt;
use mpz::circuits::builder::CircuitBuilder;
use mpz::circuits::circuit::{Circuit, Node};
use mpz::circuits::ops::{rotate_right, wrapping_add, xor, Word};
use mpz::hash::blake3::chunk::{Blake3Error, ChainingValue, Chunk};
use mpz::hash::blake3::digest::iv;
use mpz::hash::blake3::hasher::Blake3;
use mpz::hash::serialize::{serialize_output, serialize_state};
use mpz::hash::sha256::Sha256;
use mpz::hash::standard::ROUND_CONSTANTS;
use mpz::memory::{Ptr, Slice};
use mpz::vm::{Visibility, Vm, VmError};
use rand::rngs::StdRng;
use rand::{RngExt, SeedableRng};
use sha2::Digest;
use std::sync::Arc;

const IV: [u32; 8] = [
    0x6A09E667, 0xBB67AE85, 0x3C6EF372, 0xA54FF53A, 0x510E527F, 0x9B05688C, 0x1F83D9AB, 0x5BE0CD19,
];

fn byte_bits(bytes: &[u8]) -> Vec<bool> {
    bytes
        .iter()
        .flat_map(|b| (0..8).map(|i| b >> i & 1 == 1).collect::<Vec<_>>())
        .collect()
}

fn to_bytes(bits: &[bool]) -> Vec<u8> {
    bits.chunks(8)
        .map(|c| c.iter().enumerate().map(|(i, b)| (*b as u8) << i).sum())
        .collect()
}

fn word_bits(words: &[u32]) -> Vec<bool> {
    byte_bits(&words.iter().flat_map(|w| w.to_le_bytes()).collect::<Vec<_>>())
}

fn input(vm: &mut Vm, data: &[u8]) -> Slice {
    let slice = vm.alloc_raw(8 * data.len()).unwrap();
    vm.mark_public_raw(slice).unwrap();
    vm.assign_raw(slice, &byte_bits(data)).unwrap();
    vm.commit_raw(slice).unwrap();
    slice
}

fn decode(vm: &Vm, slice: Slice) -> Vec<u8> {
    let memory = vm.execute();
    to_bytes(&memory[slice.ptr.0..slice.ptr.0 + slice.size])
}

#[test]
fn test_serialize_output() {
    let output = to_bytes(&serialize_output().evaluate(&word_bits(&IV)));
    let expected: Vec<_> = IV.iter().flat_map(|word| word.to_le_bytes()).collect();
    assert_eq!(&output, expected.as_slice());
}

#[test]
fn test_sha256_serialize_state() {
    let output = to_bytes(&serialize_state().evaluate(&word_bits(&IV)));
    let expected: Vec<_> = IV.iter().flat_map(|word| word.to_be_bytes()).collect();
    assert_eq!(&output, expected.as_slice());
}

fn chunk_compress(len: usize) {
    let mut rng = StdRng::seed_from_u64(0);
    let data = (0..len).map(|_| rng.random::<u8>()).collect::<Vec<_>>();

    let mut vm = Vm::new();
    let circ = Arc::new(mpz::circuits::blake3::compress());
    let chunk_counter = 0;
    let flags = 0u32;
    let cv = ChainingValue::new(&mut vm, Visibility::Public, iv()).unwrap();
    let mut chunk_state = Chunk::new(&mut vm, cv, flags, chunk_counter).unwrap();

    let data_ref = input(&mut vm, &data);
    chunk_state.update(data_ref);

    let output = chunk_state.compress(&mut vm, &circ, false).unwrap();
    let bytes = decode(&vm, output.0);

    let expected = blake3::Hasher::new().update(&data).finalize_non_root();

    assert_eq!(bytes, expected);
}

#[test]
fn test_chunk_compress() {
    for len in [1, 10, 64, 128, 191, 1024] {
        chunk_compress(len);
    }
}

fn hash(data: &[Vec<u8>]) -> Vec<u8> {
    let mut vm = Vm::new();
    let mut hasher = Blake3::new(&mut vm).unwrap();

    for data in data {
        let data_ref = input(&mut vm, data);
        hasher.update(&mut vm, data_ref).unwrap();
    }

    let out = hasher.finalize(&mut vm).unwrap();
    assert_eq!(out.size, 256);
    decode(&vm, out)
}

#[test]
fn test_blocks_and_chunks() {
    let cases: Vec<Vec<usize>> = vec![
        vec![],
        vec![1],
        vec![1, 3, 9, 10],
        vec![64],
        vec![64, 64],
        vec![64, 64, 63],
        vec![1024],
        vec![1024, 1024],
        vec![1024, 1024, 45, 899],
    ];
    for lens in cases {
        let mut rng = StdRng::seed_from_u64(0);
        let data: Vec<_> = lens
            .into_iter()
            .map(|len| (0..len).map(|_| rng.random::<u8>()).collect::<Vec<_>>())
            .collect();

        let out = hash(&data);

        let mut hasher = blake3::Hasher::new();
        for data in &data {
            hasher.update(data);
        }
        let expected: [u8; 32] = hasher.finalize().into();

        assert_eq!(out, expected);
    }
}

fn official_vector(len: usize) {
    let mut test_data = vec![0; len];
    for (i, b) in test_data.iter_mut().enumerate() {
        *b = (i % 251) as u8;
    }

    let test_input = if test_data.is_empty() {
        Vec::new()
    } else {
        vec![test_data.clone()]
    };

    let out = hash(&test_input);

    let expected: [u8; 32] = blake3::Hasher::new().update(&test_data).finalize().into();

    assert_eq!(out, expected);
}

#[test]
fn test_official_vectors() {
    const BLOCK_LEN: usize = blake3::BLOCK_LEN;
    const CHUNK_LEN: usize = blake3::CHUNK_LEN;
    let lens = [
        0,
        1,
        2,
        3,
        4,
        5,
        6,
        7,
        8,
        BLOCK_LEN - 1,
        BLOCK_LEN,
        BLOCK_LEN + 1,
        2 * BLOCK_LEN - 1,
        2 * BLOCK_LEN,
        2 * BLOCK_LEN + 1,
        CHUNK_LEN - 1,
        CHUNK_LEN,
        CHUNK_LEN + 1,
        2 * CHUNK_LEN,
        2 * CHUNK_LEN + 1,
        3 * CHUNK_LEN,
        3 * CHUNK_LEN + 1,
        4 * CHUNK_LEN,
        4 * CHUNK_LEN + 1,
        5 * CHUNK_LEN,
        5 * CHUNK_LEN + 1,
        6 * CHUNK_LEN,
        6 * CHUNK_LEN + 1,
        7 * CHUNK_LEN,
        7 * CHUNK_LEN + 1,
        8 * CHUNK_LEN,
        8 * CHUNK_LEN + 1,
        16 * CHUNK_LEN,  // AVX512's bandwidth
        31 * CHUNK_LEN,  // 16 + 8 + 4 + 2 + 1
        100 * CHUNK_LEN, // subtrees larger than MAX_SIMD_DEGREE chunks
    ];
    for len in lens {
        official_vector(len);
    }
}

fn constant(b: &CircuitBuilder, w: u32) -> Word {
    std::array::from_fn(|i| {
        if w >> i & 1 == 1 {
            b.get_const_one()
        } else {
            b.get_const_zero()
        }
    })
}

fn shift_right(b: &CircuitBuilder, w: Word, n: usize) -> Word {
    std::array::from_fn(|i| if i + n < 32 { w[i + n] } else { b.get_const_zero() })
}

fn and(b: &mut CircuitBuilder, x: Word, y: Word) -> Word {
    std::array::from_fn(|i| b.add_and_gate(x[i], y[i]))
}

fn xor3(b: &mut CircuitBuilder, x: Word, y: Word, z: Word) -> Word {
    let t = xor(b, x, y);
    xor(b, t, z)
}

fn sum(b: &mut CircuitBuilder, words: &[Word]) -> Word {
    let mut s = words[0];
    for w in &words[1..] {
        s = wrapping_add(b, &s, w);
    }
    s
}

/// The compression function of SHA-256, on a block of bytes and a state.
fn sha256_compress() -> Arc<Circuit> {
    let mut b = CircuitBuilder::new();
    let bits: Vec<Node> = (0..512).map(|_| b.add_input()).collect();
    let state: [Word; 8] = std::array::from_fn(|_| std::array::from_fn(|_| b.add_input()));

    let mut w: Vec<Word> = (0..16)
        .map(|i| std::array::from_fn(|k| bits[32 * i + 8 * (3 - k / 8) + k % 8]))
        .collect();
    for i in 16..64 {
        let x = w[i - 15];
        let s0 = {
            let z = shift_right(&b, x, 3);
            xor3(&mut b, rotate_right(x, 7), rotate_right(x, 18), z)
        };
        let x = w[i - 2];
        let s1 = {
            let z = shift_right(&b, x, 10);
            xor3(&mut b, rotate_right(x, 17), rotate_right(x, 19), z)
        };
        let next = sum(&mut b, &[w[i - 16], s0, w[i - 7], s1]);
        w.push(next);
    }
    let mut v = state;
    for i in 0..64 {
        let e = v[4];
        let s1 = xor3(&mut b, rotate_right(e, 6), rotate_right(e, 11), rotate_right(e, 25));
        // ch = g ^ (e & (f ^ g))
        let fg = xor(&mut b, v[5], v[6]);
        let t = and(&mut b, e, fg);
        let ch = xor(&mut b, v[6], t);
        let k = constant(&b, ROUND_CONSTANTS[i]);
        let t1 = sum(&mut b, &[v[7], s1, ch, k, w[i]]);
        let a = v[0];
        let s0 = xor3(&mut b, rotate_right(a, 2), rotate_right(a, 13), rotate_right(a, 22));
        // maj = b ^ ((a ^ b) & (b ^ c))
        let ab = xor(&mut b, v[0], v[1]);
        let bc = xor(&mut b, v[1], v[2]);
        let t = and(&mut b, ab, bc);
        let maj = xor(&mut b, v[1], t);
        let t2 = wrapping_add(&mut b, &s0, &maj);
        let e = wrapping_add(&mut b, &v[3], &t1);
        let a = wrapping_add(&mut b, &t1, &t2);
        v = [a, v[0], v[1], v[2], e, v[4], v[5], v[6]];
    }
    for i in 0..8 {
        let out = wrapping_add(&mut b, &state[i], &v[i]);
        for node in out {
            let node = b.add_id_gate(node);
            b.add_output(node);
        }
    }
    Arc::new(b.build().unwrap())
}

#[test]
fn test_sha256() {
    let circ = sha256_compress();
    let cases: Vec<Vec<usize>> = vec![
        vec![],
        vec![1],
        vec![1, 3, 9, 10],
        vec![64],
        vec![64, 64],
        vec![64, 64, 63],
    ];
    for lens in cases {
        let mut rng = StdRng::seed_from_u64(0);
        let data: Vec<_> = lens
            .into_iter()
            .map(|len| (0..len).map(|_| rng.random::<u8>()).collect::<Vec<_>>())
            .collect();

        let mut hasher = Sha256::new();
        let mut vm = Vm::new();

        for data in &data {
            let data_ref = input(&mut vm, data);
            hasher.update(data_ref);
        }

        let out = hasher.finalize(&mut vm, &circ).unwrap();
        let a = decode(&vm, out);

        let mut hasher = sha2::Sha256::default();
        for data in &data {
            hasher.update(data);
        }
        let expected: [u8; 32] = hasher.finalize().into();

        assert_eq!(a, expected);
    }
}

/// Compressing what is buffered before more data is added does not change the
/// hash.
#[test]
fn sha256_compress_first() {
    let circ = sha256_compress();
    let data: Vec<u8> = (0..150).map(|i| i as u8).collect();

    let mut vm = Vm::new();
    let mut hasher = Sha256::new();
    assert!(hasher.is_empty());
    assert!(hasher.state().is_none());
    let slice = input(&mut vm, &data[..100]);
    hasher.update(slice);
    assert!(!hasher.is_empty());
    assert_eq!(hasher.buffered(), 800);
    hasher.compress(&mut vm, &circ).unwrap();
    assert_eq!(hasher.buffered(), 800 - 512);
    let (state, processed) = hasher.state().unwrap();
    assert_eq!(processed, 1);

    // A hasher can go on from the state.
    let mut other = Sha256::new_from_state(state, processed);
    let slice = input(&mut vm, &data[64..]);
    other.update(slice);

    let slice = input(&mut vm, &data[100..]);
    hasher.update(slice);

    let expected = sha2::Sha256::digest(&data).to_vec();
    let out = hasher.finalize(&mut vm, &circ).unwrap();
    assert_eq!(decode(&vm, out), expected);
    let out = other.finalize(&mut vm, &circ).unwrap();
    assert_eq!(decode(&vm, out), expected);
}

#[test]
fn sha256_with_init() {
    let mut vm = Vm::new();
    let hasher = Sha256::new_with_init(&mut vm).unwrap();
    let (state, processed) = hasher.state().unwrap();
    assert_eq!(processed, 0);
    let expected: Vec<_> = IV.iter().flat_map(|word| word.to_le_bytes()).collect();
    assert_eq!(decode(&vm, state), expected);
}

/// The initial state is allocated behind what there is, as public constants.
#[test]
fn sha256_state_is_constant() {
    let mut vm = Vm::new();
    let before = input(&mut vm, &[1, 2, 3]);
    let hasher = Sha256::new_with_init(&mut vm).unwrap();
    let (state, _) = hasher.state().unwrap();
    assert_eq!(state, Slice { ptr: Ptr(before.size), size: 256 });
    assert_eq!(vm.len(), before.size + 256);
    for (i, bit) in word_bits(&IV).into_iter().enumerate() {
        let cell = vm.cell(before.size + i);
        assert_eq!(cell.vis, Some(Visibility::Public));
        assert_eq!(cell.value, Some(bit));
        assert!(cell.committed && !cell.output);
    }
    assert!(Sha256::default().state().is_none());
}

/// Splitting the data in other ways does not change the hash.
#[test]
fn blake3_any_split() {
    let data: Vec<u8> = (0..3000).map(|i| (i % 251) as u8).collect();
    let expected = hash(&[data.clone()]);
    for at in [1, 64, 1000, 1024, 1025, 2048, 2999] {
        let (a, b) = data.split_at(at);
        assert_eq!(hash(&[a.to_vec(), b.to_vec()]), expected);
    }
    assert_eq!(expected, blake3::hash(&data).as_bytes());
}

#[test]
fn vm_errors() {
    let mut vm = Vm::new();
    let a = vm.alloc_raw(2).unwrap();
    assert_eq!(a, Slice { ptr: Ptr(0), size: 2 });
    assert_eq!(vm.len(), 2);
    let beyond = Slice { ptr: Ptr(1), size: 2 };
    assert_eq!(vm.mark_public_raw(beyond), Err(VmError::OutOfBounds));
    assert_eq!(vm.mark_private_raw(beyond), Err(VmError::OutOfBounds));
    assert_eq!(vm.commit_raw(beyond), Err(VmError::OutOfBounds));
    assert_eq!(vm.assign_raw(beyond, &[true, true]), Err(VmError::OutOfBounds));
    assert_eq!(vm.assign_raw(a, &[true]), Err(VmError::Length));
    vm.mark_private_raw(a).unwrap();
    vm.assign_raw(a, &[true, false]).unwrap();
    assert_eq!(vm.assign_raw(a, &[true, false]), Err(VmError::Assigned));
    vm.commit_raw(a).unwrap();
    assert_eq!(vm.cell(0).vis, Some(Visibility::Private));
    assert_eq!(vm.cell(0).value, Some(true));
    assert!(vm.cell(1).committed && !vm.cell(1).output);
    assert_eq!(vm.alloc_raw(usize::MAX), Err(VmError::Memory));

    let mut b = CircuitBuilder::new();
    let x = b.add_input();
    let y = b.add_input();
    let z = b.add_xor_gate(x, y);
    b.add_output(z);
    let circ = Arc::new(b.build().unwrap());
    assert_eq!(vm.call(&circ, vec![beyond]), Err(VmError::OutOfBounds));
    assert_eq!(vm.call(&circ, vec![a, a]), Err(VmError::Length));
    let out = vm.call(&circ, vec![a]).unwrap();
    assert_eq!(out, Slice { ptr: Ptr(2), size: 1 });
    assert!(vm.cell(2).output);
    assert_eq!(vm.assign_raw(out, &[true]), Err(VmError::Assigned));
    assert_eq!(vm.execute(), vec![true, false, true]);
    assert_ne!(Blake3Error::Tree, Blake3Error::Vm(VmError::Memory));
}

/// The machine hands out the calls that were made, in order.
#[test]
fn recorded_calls() {
    let mut vm = Vm::new();
    let circ = sha256_compress();
    let data = input(&mut vm, &[7; 64]);
    let mut hasher = Sha256::new();
    hasher.update(data);
    assert!(vm.calls().is_empty());
    let out = hasher.finalize(&mut vm, &circ).unwrap();
    let calls = vm.calls();
    // Two blocks, and the layout of the digest.
    assert_eq!(calls.len(), 3);
    assert_eq!(calls[0].inputs[0], data);
    assert_eq!(calls[2].output, out);
    assert!(calls.windows(2).all(|w| w[0].output.ptr.0 < w[1].output.ptr.0));
}
