use mpz::block::Block;
use mpz::memory::correlated::keys::{Key, KeyStore, KeyStoreError};
use mpz::memory::correlated::macs::{Mac, MacStore};
use mpz::memory::correlated::Delta;
use mpz::memory::ranges::len;
use mpz::memory::store::{Store, StoreError};
use mpz::memory::{Ptr, Slice};
use rand::rngs::StdRng;
use rand::{RngExt, SeedableRng};
use rangeset::set::RangeSet;

fn delta() -> Delta {
    Delta::new(Block(StdRng::seed_from_u64(1).random::<u128>() | 1))
}

fn keys(n: usize) -> Vec<Key> {
    let mut rng = StdRng::seed_from_u64(2);
    (0..n).map(|_| Key(Block(rng.random::<u128>() & !1))).collect()
}

#[test]
fn store_reads_what_was_written() {
    let mut store: Store<u8> = Store::new(0);
    let a = store.allocate(4);
    assert_eq!(a, Slice { ptr: Ptr(0), size: 4 });
    assert_eq!(store.try_get(a), Err(StoreError::Uninit(a)));
    store.try_set(a, &[1, 2, 3, 4]).unwrap();
    assert!(store.is_set(a));
    assert_eq!(store.try_get(a), Ok([1u8, 2, 3, 4].as_slice()));
    assert_eq!(store.try_set(a, &[5, 6, 7, 8]), Err(StoreError::AlreadySet(a)));
    store.try_replace(a, &[5, 6, 7, 8]).unwrap();
    assert_eq!(store.get(a), Some(vec![5, 6, 7, 8]));
    let beyond = Slice { ptr: Ptr(3), size: 2 };
    assert_eq!(store.try_get(beyond), Err(StoreError::InvalidSlice(beyond)));
    let b = store.alloc_with(&[9, 10]);
    assert_eq!(store.get(b), Some(vec![9, 10]));
    let mut ranges = RangeSet::from(1..3);
    ranges = RangeSet::from_iter(ranges.iter().chain(std::iter::once(4..6)));
    assert_eq!(store.gather(&ranges), Ok(vec![6, 7, 9, 10]));
    assert_eq!(store.set_ranges(), &RangeSet::from(0..6));
}

/// The pointer bit of a MAC is the bit that it authenticates, masked by the
/// pointer bit of the key.
#[test]
fn mac_pointer() {
    let delta = delta();
    for key in keys(4) {
        for bit in [false, true] {
            let mac = key.auth(bit, &delta);
            assert_eq!(mac.pointer(), key.pointer() != bit);
            assert_eq!(mac.0, if bit { key.0 ^ *delta.as_block() } else { key.0 });
        }
        // The sum of MACs is the MAC of the sum.
        let sum = key + Key(Block(4));
        assert_eq!(
            sum.auth(true, &delta).0,
            key.auth(true, &delta).0 ^ Key(Block(4)).auth(false, &delta).0
        );
        // The pointer bit of an adjusted key is zero.
        let mut adjusted = key;
        adjusted.adjust(true, &delta);
        assert_eq!(adjusted.0, key.0 ^ *delta.as_block() ^ Block(1));
        adjusted.adjust(false, &delta);
        assert_eq!(adjusted.0, key.0 ^ *delta.as_block() ^ Block(1));
    }
}

/// A commitment holds half of a digest for each bit, of the index and the MAC.
#[test]
fn mac_commitment() {
    let delta = delta();
    let key = keys(1)[0];
    let commitment = key.commit(7, &delta);
    for (i, bit) in [false, true].into_iter().enumerate() {
        let mac = key.auth(bit, &delta);
        let mut bytes = 7u64.to_be_bytes().to_vec();
        bytes.extend_from_slice(&mac.0.to_bytes());
        let digest = blake3::hash(&bytes);
        assert_eq!(commitment.0[i].to_bytes(), digest.as_bytes()[..16]);
    }
}

/// A verifier accepts the proof of the MACs it handed out, and learns the bits.
#[test]
fn prove_then_verify() {
    let mut store = KeyStore::new(delta());
    let mut macs = MacStore::new();
    let bits = vec![true, false, false, true, true, false];
    let slice = store.allocate(6);
    store.try_set(slice, &keys(6)).unwrap();
    let authed = store.authenticate(slice, &bits).unwrap();
    assert!(store.is_used(slice));
    macs.allocate(6);
    macs.try_set(slice, &authed).unwrap();

    let ranges = RangeSet::from(0..6);
    let (mut pointers, proof) = macs.prove(&ranges).unwrap();
    store.verify(&ranges, &mut pointers, &proof).unwrap();
    assert_eq!(pointers, bits);

    // A flipped bit, or another hash, is refused.
    let (mut pointers, proof) = macs.prove(&ranges).unwrap();
    pointers[2] = !pointers[2];
    assert_eq!(
        store.verify(&ranges, &mut pointers, &proof),
        Err(KeyStoreError::Verify)
    );
    let (mut pointers, mut proof) = macs.prove(&ranges).unwrap();
    proof[0] ^= 1;
    assert_eq!(
        store.verify(&ranges, &mut pointers, &proof),
        Err(KeyStoreError::Verify)
    );
}

/// Keys are handed out once.
#[test]
fn keys_are_used_once() {
    let mut store = KeyStore::new(delta());
    let slice = store.alloc_with(&keys(3));
    assert!(!store.is_used(slice));
    assert_eq!(store.oblivious_transfer(slice), Ok(keys(3)));
    assert_eq!(
        store.oblivious_transfer(slice),
        Err(KeyStoreError::AlreadyAssigned(slice))
    );
    assert_eq!(
        store.authenticate(slice, &[true, true, true]),
        Err(KeyStoreError::AlreadyAssigned(slice))
    );
    let missing = Slice { ptr: Ptr(2), size: 5 };
    assert_eq!(store.try_get(missing), Err(KeyStoreError::InvalidSlice(missing)));
    let unset = store.allocate(1);
    assert_eq!(store.try_get(unset), Err(KeyStoreError::Uninit(unset)));
    assert_eq!(
        store.try_set(slice, &keys(3)),
        Err(KeyStoreError::AlreadySet(slice))
    );
}

/// Both parties know the MACs of public bits.
#[test]
fn public_bits() {
    let mut store = KeyStore::new(delta());
    let mut macs = MacStore::new();
    let bits = [true, false];
    let slice = store.allocate(2);
    macs.allocate(2);
    store.try_set_public(slice, &bits).unwrap();
    macs.try_set_public(slice, &bits).unwrap();
    let keys = store.try_get(slice).unwrap();
    let held: Vec<Mac> = macs.try_get(slice).unwrap().to_vec();
    for i in 0..2 {
        assert_eq!(held[i].0, keys[i].auth(bits[i], store.delta()).0);
        assert_eq!(held[i].pointer(), bits[i]);
    }
}

#[test]
fn keys_add_up() {
    let (a, b) = (Key(Block(6)), Key(Block(3)));
    let sum = Key(Block(5));
    assert_eq!(a + b, sum);
    assert_eq!(a + &b, sum);
    assert_eq!(&a + b, sum);
    assert_eq!(&a + &b, sum);
    assert_eq!(a + Key::default(), a);
}

#[test]
fn addresses_of_a_set() {
    let mut ranges = RangeSet::from(3..7);
    assert_eq!(len(&ranges), 4);
    ranges = RangeSet::from(vec![3..7, 10..11]);
    assert_eq!(len(&ranges), 5);
    assert_eq!(len(&RangeSet::default()), 0);
}
