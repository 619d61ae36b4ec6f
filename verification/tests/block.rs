use mpz::block::Block;
use rand::{RngExt, SeedableRng};
use rand_chacha::ChaCha12Rng;

fn lsb0(b: Block) -> Vec<bool> {
    (0..128).map(|i| b.get_bit_lsb0(i)).collect()
}

#[test]
fn test_set_lsb() {
    let mut b = Block::zero();
    b.set_lsb(true);
    assert!(b.lsb());

    b.set_lsb(false);
    assert!(!b.lsb());
}

#[test]
fn test_lsb() {
    let a = Block::new([0; 16]);
    assert!(!a.lsb());

    let mut one = [0; 16];
    one[0] = 1;

    let a = Block::new(one);
    assert!(a.lsb());

    let mut two = [0; 16];
    two[0] = 2;

    let a = Block::new(two);
    assert!(!a.lsb());

    let mut three = [0; 16];
    three[0] = 3;

    let a = Block::new(three);
    assert!(a.lsb());
}

#[test]
fn test_reverse_bits() {
    let a = Block::new([42; 16]);

    let mut expected_bits = lsb0(a);
    expected_bits.reverse();

    assert_eq!(lsb0(a.reverse_bits()), expected_bits);
}

#[test]
fn inn_prdt_test() {
    let mut rng = ChaCha12Rng::from_seed([0; 32]);

    const SIZE: usize = 1000;
    let mut a = Vec::new();
    let mut b = Vec::new();
    let mut c = (Block::zero(), Block::zero());
    let mut d = Block::zero();
    for i in 0..SIZE {
        let r: [u8; 16] = rng.random();
        a.push(Block::new(r));
        let r: [u8; 16] = rng.random();
        b.push(Block::new(r));

        let z = a[i].clmul(b[i]);
        c.0 ^= z.0;
        c.1 ^= z.1;

        let x = a[i].gfmul(b[i]);
        d ^= x;
    }

    assert_eq!(c, Block::inn_prdt_no_red(&a, &b));
    assert_eq!(d, Block::inn_prdt_red(&a, &b));
}

#[test]
fn sigma_test() {
    let mut rng = ChaCha12Rng::from_seed([0; 32]);
    let mut x: [u8; 16] = rng.random();
    let bx = Block::sigma(Block::new(x));
    let (xl, xr) = x.split_at_mut(8);

    for (x, y) in xl.iter_mut().zip(xr.iter_mut()) {
        *x ^= *y;
        std::mem::swap(x, y);
    }
    let expected_sigma = Block::new(x);
    assert_eq!(bx, expected_sigma);
}

#[test]
fn test_monomial_vector() {
    for i in 0..128 {
        assert_eq!(u128::from_le_bytes(Block::monomial(i).to_bytes()), 1 << i);
    }
}

#[test]
fn bytes_round_trip() {
    let bytes: [u8; 16] = std::array::from_fn(|i| (i * 17) as u8);
    let block = Block::new(bytes);
    assert_eq!(block.0, u128::from_le_bytes(bytes));
    assert_eq!(block.to_bytes(), bytes);
    assert_eq!(block.as_bytes(), bytes);
    assert_eq!(Block::from_slice(&bytes), Some(block));
    assert_eq!(Block::from_slice(&bytes[..15]), None);
    assert_eq!(Block::LEN, 16);
}

#[test]
fn bits_by_place() {
    let block = Block(1 << 5 | 1 << 127);
    assert!(block.get_bit_lsb0(5) && block.get_bit_lsb0(127) && !block.get_bit_lsb0(6));
    assert!(block.get_bit_msb0(122) && block.get_bit_msb0(0) && !block.get_bit_msb0(1));

    assert_eq!(Block::from_lsb0(&lsb0(block)), block);
    assert_eq!(Block::from_lsb0(&[true, false, true]), Block(5));
    // The most significant bit of each byte comes first.
    assert_eq!(Block::from_msb0(&[true, false, true]), Block(0xa0));
    assert_eq!(Block::from_msb0(&[false, false, false, false, false, false, false, false, true]), Block(0x8000));
}

#[test]
fn flattened_bytes() {
    let blocks = [Block(1), Block(2), Block(3), Block(4)];
    let mut expected = Vec::new();
    for b in blocks {
        expected.extend_from_slice(&b.to_bytes());
    }
    assert_eq!(Block::as_flattened_bytes(&blocks), expected);
    assert_eq!(
        Block::array_as_flattened_bytes(&[[Block(1), Block(2)], [Block(3), Block(4)]]),
        expected
    );
    assert_eq!(Block::as_flattened_bytes(&[]), Vec::<u8>::new());
}

#[test]
fn masks_and_xor() {
    assert_eq!(Block::select_mask(true), Block::ones());
    assert_eq!(Block::select_mask(false), Block::zero());
    assert_eq!(Block(6) ^ Block(3), Block(5));
    assert_eq!(Block(6) & Block(3), Block(2));
    let mut b = Block::one();
    b.xor_lsb(true);
    assert_eq!(b, Block::zero());
    b.xor_lsb(false);
    assert_eq!(b, Block::zero());
}

#[test]
fn assignments_and_conversion() {
    let bytes: [u8; 16] = std::array::from_fn(|i| i as u8);
    let x = Block::from(bytes);
    assert_eq!(x.to_bytes(), bytes);
    let mut y = x;
    y ^= &Block::ones();
    assert_eq!(y.to_bytes(), bytes.map(|b| !b));
    y &= &x;
    assert_eq!(y, Block::zero());
}

#[test]
fn operators_on_references() {
    let (a, b) = (Block(6), Block(3));
    assert_eq!(a ^ &b, Block(5));
    assert_eq!(&a ^ b, Block(5));
    assert_eq!(&a ^ &b, Block(5));
    assert_eq!(a & &b, Block(2));
    assert_eq!(&a & b, Block(2));
    assert_eq!(&a & &b, Block(2));
    assert_eq!(Block::default(), Block::zero());
}
