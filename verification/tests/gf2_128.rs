use mpz::block::Block;
use mpz::fields::gf2_128::Gf2_128;
use rand::rngs::StdRng;
use rand::{RngExt, SeedableRng};

fn random(rng: &mut StdRng) -> Gf2_128 {
    Gf2_128::new(rng.random())
}

#[test]
fn test_gf2_128_basic() {
    let mut rng = StdRng::seed_from_u64(0);
    let a = random(&mut rng);
    assert_eq!(a + Gf2_128::zero(), a);
    assert_eq!(a * Gf2_128::zero(), Gf2_128::zero());
    assert_eq!(a * Gf2_128::one(), a);
    assert_eq!(a * a.inverse().unwrap(), Gf2_128::one());
    assert_eq!(Gf2_128::one().inverse().unwrap(), Gf2_128::one());
    assert_eq!(a + (-a), Gf2_128::zero());
    assert_eq!(Gf2_128::new(0), Gf2_128::zero());
    assert_eq!(Gf2_128::new(1), Gf2_128::one());
    assert_eq!(Gf2_128::new(5).to_inner(), 5);
}

#[test]
fn test_gf2_128_compute_product_repeated() {
    let mut rng = StdRng::seed_from_u64(0);
    let a = random(&mut rng);
    let factor = a * a;
    let mut powers = vec![a];
    for _ in 0..2 {
        let last = powers[powers.len() - 1];
        powers.push(factor * last);
    }
    assert_eq!(powers[0], a);
    assert_eq!(powers[1], powers[0] * factor);
    assert_eq!(powers[2], powers[1] * factor);
}

#[test]
fn test_gf2_128_inner_product() {
    let mut rng = StdRng::seed_from_u64(0);
    for len in [0usize, 1, 2, 7, 8, 64] {
        let a: Vec<Gf2_128> = (0..len).map(|_| random(&mut rng)).collect();
        let b: Vec<Gf2_128> = (0..len).map(|_| random(&mut rng)).collect();
        let mut expected = Gf2_128::zero();
        for i in 0..len {
            expected = expected + a[i] * b[i];
        }
        assert_eq!(Gf2_128::inner_product_chunk(&a, &b), expected);
    }
}

#[test]
fn test_gf2_128_axioms_random() {
    let mut rng = StdRng::seed_from_u64(1);
    for _ in 0..32 {
        let (a, b, c) = (random(&mut rng), random(&mut rng), random(&mut rng));
        assert_eq!(a + b, b + a);
        assert_eq!((a + b) + c, a + (b + c));
        assert_eq!(a * b, b * a);
        assert_eq!((a * b) * c, a * (b * c));
        assert_eq!(a * (b + c), a * b + a * c);
        assert_eq!(a - b, a + (-b));
        assert_eq!(a * a.inverse().unwrap(), Gf2_128::one());
    }
}

#[test]
fn test_gf2_128_square() {
    let mut rng = StdRng::seed_from_u64(2);
    for _ in 0..32 {
        let a = random(&mut rng);
        assert_eq!(a.square(), a * a);
    }
    assert_eq!(Gf2_128::zero().square(), Gf2_128::zero());
    assert_eq!(Gf2_128::one().square(), Gf2_128::one());
}

#[test]
fn test_gf2_128_bit_ops() {
    let mut rng = StdRng::seed_from_u64(3);
    let a = random(&mut rng);
    let lsb0: Vec<bool> = (0..128).map(|i| a.get_bit_lsb0(i)).collect();
    let msb0: Vec<bool> = (0..128).map(|i| a.get_bit_msb0(i)).collect();
    assert_eq!(Gf2_128::from_lsb0(&lsb0), a);
    assert_eq!(Gf2_128::from_msb0(&msb0), a);
    for i in 0..128 {
        assert_eq!(lsb0[i], msb0[127 - i]);
        assert_eq!(Gf2_128::two_pow(i as u32), Gf2_128::new(1 << i));
        assert!(Gf2_128::two_pow(i as u32).get_bit_lsb0(i));
    }
    let short = Gf2_128::from_lsb0(&[true, false, true]);
    assert_eq!(short, Gf2_128::new(5));
    assert_eq!(Gf2_128::from_msb0(&[true]), Gf2_128::new(1 << 127));
}

#[test]
fn test_gf2_128_reduction_constant() {
    // p(x) = x^128 + x^7 + x^2 + x + 1, so x^128 = R = x^7+x^2+x+1 = 0x87.
    assert_eq!(Gf2_128::new(1 << 127) * Gf2_128::new(2), Gf2_128::new(0x87));
    // x^129 = x * R = x^8 + x^3 + x^2 + x = 0x10e.
    assert_eq!(
        Gf2_128::new(1 << 127) * Gf2_128::new(4),
        Gf2_128::new(0x10e)
    );
}

#[test]
fn test_gf2_128_inv_round_trip() {
    for raw in [
        1u128,
        2,
        3,
        0x87, // reduction constant R
        0xDEADBEEFCAFEBABE0123456789ABCDEF,
        1u128 << 127,                       // top bit
        0xFFFFFFFFFFFFFFFFFFFFFFFFFFFFFFFF, // all ones
        0xAAAAAAAAAAAAAAAAAAAAAAAAAAAAAAAA, // alternating
        0x7b5b54657374566563746f725d53475d, // Intel test vector operand
    ] {
        let x = Gf2_128::new(raw);
        let xi = x.inverse().unwrap();
        assert_eq!(x * xi, Gf2_128::one(), "x={raw:#034x}");
    }
    assert_eq!(Gf2_128::zero().inverse(), None);
}

#[test]
fn test_gf2_128_mul() {
    for &(a, b, expected) in REFERENCE_PRODUCTS {
        let ours = (Gf2_128::new(a) * Gf2_128::new(b)).to_inner();
        assert_eq!(
            ours, expected,
            "mismatch: a={a:#034x} b={b:#034x} ours={ours:#034x} expected={expected:#034x}"
        );
        // Commutativity spot-check on every vector.
        assert_eq!(
            Gf2_128::new(a) * Gf2_128::new(b),
            Gf2_128::new(b) * Gf2_128::new(a)
        );
    }
}

/// Reference products `(a, b, a * b)` in GF(2^128) under
/// p(x) = x^128 + x^7 + x^2 + x + 1.
const REFERENCE_PRODUCTS: &[(u128, u128, u128)] = &[
    // identity / zero
    (0, 0, 0),
    (0, 0xDEADBEEFCAFEBABE0123456789ABCDEF, 0),
    (
        1,
        0xDEADBEEFCAFEBABE0123456789ABCDEF,
        0xDEADBEEFCAFEBABE0123456789ABCDEF,
    ),
    (
        0xDEADBEEFCAFEBABE0123456789ABCDEF,
        1,
        0xDEADBEEFCAFEBABE0123456789ABCDEF,
    ),
    // no-reduction cases
    (2, 2, 4),
    (3, 5, 15),
    (3, 7, 9),
    // reduction-triggering cases
    (1 << 127, 2, 0x87),
    (1 << 127, 4, 0x10e),
    (0x87, 0x87, 0x4015),
    (1 << 127, 1 << 127, 0xC0000000000000000000000000001067),
    // Carry-Less Multiplication Instruction white paper
    (
        0x7b5b54657374566563746f725d53475d,
        0x48692853686179295b477565726f6e5d,
        0x40229a09a5ed12e7e4e10da323506d2,
    ),
];

#[test]
fn element_bytes() {
    let x = Gf2_128::new(0x0102030405060708090a0b0c0d0e0f10);
    let be: Vec<u8> = (1..=16).collect();
    assert_eq!(x.to_be_bytes(), be);
    let le: Vec<u8> = (1..=16).rev().collect();
    assert_eq!(x.to_le_bytes(), le);
    let block: Block = x.into();
    assert_eq!(block.to_bytes().to_vec(), be);
    assert_eq!(Gf2_128::from(block), x);
}

#[test]
fn bytes_in_order() {
    let x = Gf2_128::new(0x0102_0304_0506_0708_090a_0b0c_0d0e_0f10);
    let bytes: [u8; 16] = x.to_be_bytes().try_into().unwrap();
    assert_eq!(bytes, std::array::from_fn(|i| i as u8 + 1));
    assert_eq!(Gf2_128::from_be_bytes(bytes), x);
}
