use aes::cipher::{BlockCipherEncrypt, KeyInit};
use aes::Aes128;
use mpz::block::Block;
use mpz::ggm::{layer, width, GgmTree};

/// A length-doubling function from a cipher with two keys.
fn expand((first, second, x): (Block, Block, Block)) -> [Block; 2] {
    [first, second].map(|key| {
        let cipher = Aes128::new(&key.to_bytes().into());
        let mut block = x.to_bytes().into();
        cipher.encrypt_block(&mut block);
        Block::new(block.into()) ^ x
    })
}

#[test]
fn test_ggm() {
    let seed = Block::ones();
    let depth = 4;

    let mut leaves = vec![Block::zero(); 1 << depth];

    GgmTree::new_from_seed(&expand, depth, seed, &mut leaves);

    assert!(leaves.iter().all(|leaf| *leaf != Block::zero()));
}

#[test]
fn test_ggm_get_layer() {
    let seed = Block::ones();
    let depth = 4;

    let mut leaves = vec![Block::zero(); 1 << depth];

    let ggm = GgmTree::new_from_seed(&expand, depth, seed, &mut leaves);

    for i in 0..depth {
        let layer = ggm.layer(i).unwrap();

        assert_eq!(layer.len(), 1 << i);
    }
}

#[test]
fn test_ggm_partial() {
    let seed = Block::ones();
    let depth = 4;

    let mut full_leaves = vec![Block::zero(); 1 << depth];
    let ggm = GgmTree::new_from_seed(&expand, depth, seed, &mut full_leaves);

    for i in 0..1 << depth {
        let path = i as u32;
        let sums = ggm
            .layer_sums()
            .iter()
            .zip((0..depth).map(|j| path >> (depth - 1 - j) & 1 == 1))
            .map(|(sum, select)| sum[!select as usize])
            .collect::<Vec<_>>();

        let mut leaves = vec![Block::zero(); 1 << depth];
        let ggm_partial = GgmTree::new_partial(&expand, depth, &sums, i, &mut leaves);
        let mut full_leaves = ggm.leaves().to_vec();

        full_leaves[i] = Block::zero();

        assert_eq!(ggm_partial.leaves(), full_leaves.as_slice());
    }
}

#[test]
fn ggm_layers() {
    let mut leaves = vec![Block::zero(); 4];
    let ggm = GgmTree::new_from_seed(&expand, 2, Block(7), &mut leaves);
    let double = |x| expand((Block::zero(), Block::one(), x));
    let [a, b] = double(Block(7));
    let ([c, d], [e, f]) = (double(a), double(b));
    assert_eq!(*ggm.root(), Block(7));
    assert_eq!(ggm.depth(), 2);
    assert_eq!(ggm.layer(1).unwrap(), &[a, b]);
    assert_eq!(ggm.leaves(), &[c, d, e, f]);
    assert!(ggm.layer(3).is_none());
    assert_eq!(ggm.iter_layers().len(), 3);
    assert_eq!(ggm.layer_sums(), vec![[a, b], [c ^ e, d ^ f]]);
}

/// Each layer starts where the one before it ends.
#[test]
fn layers_tile_the_tree() {
    let mut end = 0;
    for n in 0..20 {
        assert_eq!(layer(n), (end, end + width(n)));
        assert_eq!(width(n), 1 << n);
        end = layer(n).1;
    }
}
