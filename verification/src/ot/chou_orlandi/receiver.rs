//! The receiver.
use crate::block::{lemma_xor, Block};
use crate::func::{apply, call, is_function};
use crate::ot::chou_orlandi::curve::{
    add_points, base_mul, chacha20_scalars, decodes, draw_scalars, is_point, mul_base, mul_point,
    point_mul, point_sum, rows,
};
use crate::ot::ferret::mpcot::start_of;
use crate::ot::TransferId;
use std::collections::VecDeque;
use vstd::prelude::*;

verus! {

/// Receiver error.
#[derive(Clone, Copy, Debug, PartialEq, Eq, Structural)]
pub enum ReceiverError {
    /// The number of ciphertexts is not the number of keys: the number of
    /// transfers that are awaited and the number of ciphertexts.
    CountMismatch(usize, usize),
    /// The sender's public key encodes no point.
    InvalidPoint,
}

/// The sender's setup message.
#[derive(Clone, Copy, Debug)]
pub struct SenderSetup {
    /// The sender's public key, encoded.
    pub public_key: [u8; 32],
}

/// The sender's payload.
#[derive(Clone, Debug)]
pub struct SenderPayload {
    /// The ciphertexts of each transfer.
    pub payload: Vec<[Block; 2]>,
}

/// The receiver's payload.
#[derive(Clone, Debug)]
pub struct ReceiverPayload {
    /// The blinded choices, encoded points.
    pub blinded_choices: Vec<[u8; 32]>,
}

/// Output of the receiver.
#[derive(Clone, Debug)]
pub struct OTReceiverOutput {
    /// The number of the transfer.
    pub id: TransferId,
    /// The chosen messages.
    pub msgs: Vec<Block>,
}

/// Seals the receiver's states.
pub trait Sealed {

}

/// The receiver's state.
pub trait State: Sealed {

}

/// The receiver's initial state.
#[derive(Debug)]
pub struct Initialized {
    /// Seed of the RNG used to generate the receiver's keys
    seed: [u8; 32],
}

/// The receiver's state after setup.
#[derive(Debug)]
pub struct Setup {
    /// Seed of the RNG used to generate the receiver's keys
    seed: [u8; 32],
    /// Sender's public key
    public_key: [u8; 32],
    /// Current transfer id.
    transfer_id: TransferId,
    /// Counts how many decryption keys we've computed so far
    counter: usize,
    /// The decryption key for each OT, with the corresponding choice bit
    decryption_keys: Vec<(bool, Block)>,
}

impl Sealed for Initialized {

}

impl State for Initialized {

}

impl Sealed for Setup {

}

impl State for Setup {

}

/// A receiver.
#[derive(Debug)]
pub struct Receiver<T> {
    /// The number of choices of each queued transfer.
    queue: VecDeque<usize>,
    choices: Vec<bool>,
    /// The current state of the protocol
    state: T,
}

/// The scalar zero.
pub open spec fn zero_scalar() -> Seq<u8> {
    Seq::new(32, |i: int| 0u8)
}

/// The scalar one.
pub open spec fn one_scalar() -> Seq<u8> {
    Seq::new(
        32,
        |i: int|
            if i == 0 {
                1u8
            } else {
                0u8
            },
    )
}

/// The blinded choice: the base point times the private key, to which the
/// sender's public key is added where the choice is set, and zero where not.
pub open spec fn blinded(public_key: Seq<u8>, private_key: Seq<u8>, choice: bool) -> Seq<u8> {
    point_sum(
        point_mul(
            public_key,
            if choice {
                one_scalar()
            } else {
                zero_scalar()
            },
        ),
        base_mul(private_key),
    )
}

/// The decryption key of transfer number `i`.
pub open spec fn decryption_key<H: Fn(([u8; 32], u128)) -> Block>(
    hash: H,
    public_key: Seq<u8>,
    private_key: Seq<u8>,
    i: nat,
    key: Block,
) -> bool {
    exists|point: [u8; 32]|
        point@ == point_mul(public_key, private_key) && key == #[trigger] apply::<
            ([u8; 32], u128),
            Block,
            H,
        >(hash, (point, i as u128))
}

/// Decrypts the ciphertext that a choice selects.
pub open spec fn opened(key: (bool, Block), pair: [Block; 2]) -> Block {
    Block(key.1.0 ^ if key.0 {
        pair@[1].0
    } else {
        pair@[0].0
    })
}

/// The shares of queued transfers, which take from the front of the messages as
/// many as there are, up to their count.
pub open spec fn shares(msgs: Seq<Block>, queue: Seq<usize>) -> Seq<Seq<Block>>
    decreases queue.len(),
{
    if queue.len() == 0 {
        Seq::empty()
    } else {
        let n = if queue[0] <= msgs.len() {
            queue[0] as int
        } else {
            msgs.len() as int
        };
        seq![msgs.take(n)] + shares(msgs.skip(n), queue.skip(1))
    }
}

impl<T> Receiver<T> {
    /// The numbers of choices of the queued transfers.
    pub closed spec fn queued(self) -> Seq<usize> {
        self.queue@
    }

    /// The choices that were not sent.
    pub closed spec fn pending(self) -> Seq<bool> {
        self.choices@
    }

    /// The state of the protocol.
    pub closed spec fn phase(self) -> T {
        self.state
    }

}

impl<T: State> Receiver<T> {
    /// Allocates transfers, for which there is nothing to do.
    pub fn allocate(&mut self, _count: usize)
        ensures
            *final(self) == *old(self),
    {
    }

    /// Queues a transfer.
    pub fn queue_recv_ot(&mut self, choices: &[bool])
        ensures
            final(self).queued() == old(self).queued().push(choices@.len() as usize),
            final(self).pending() == old(self).pending() + choices@,
            final(self).phase() == old(self).phase(),
    {
        let mut copy: Vec<bool> = crate::slices::copied(choices);
        self.choices.append(&mut copy);
        self.queue.push_back(choices.len());
    }
}

impl Initialized {
    /// The seed.
    pub closed spec fn origin(self) -> Seq<u8> {
        self.seed@
    }
}

impl Setup {
    /// The seed.
    pub closed spec fn origin(self) -> Seq<u8> {
        self.seed@
    }

    /// The sender's public key.
    pub closed spec fn sender_key(self) -> Seq<u8> {
        self.public_key@
    }

    /// The number of the next transfer.
    pub closed spec fn next_id(self) -> TransferId {
        self.transfer_id
    }

    /// The number of keys computed.
    pub closed spec fn computed(self) -> nat {
        self.counter as nat
    }

    /// The keys of transfers for which no ciphertexts were received.
    pub closed spec fn keys(self) -> Seq<(bool, Block)> {
        self.decryption_keys@
    }

    /// The sender's public key encodes a point.
    #[verifier::type_invariant]
    spec fn wf(self) -> bool {
        is_point(self.public_key@)
    }
}

impl Receiver<Initialized> {
    /// Creates a new receiver with the provided RNG seed.
    ///
    /// # Arguments
    ///
    /// * `seed` - The RNG seed used to generate the receiver's keys
    pub fn new_with_seed(seed: [u8; 32]) -> (r: Self)
        ensures
            r.queued() == Seq::<usize>::empty(),
            r.pending() == Seq::<bool>::empty(),
            r.phase().origin() == seed@,
    {
        Receiver { queue: VecDeque::new(), choices: Vec::new(), state: Initialized { seed } }
    }

    /// Sets up the receiver.
    ///
    /// # Arguments
    ///
    /// * `sender_setup` - The sender's setup message
    pub fn setup(self, sender_setup: SenderSetup) -> (r: Result<Receiver<Setup>, ReceiverError>)
        ensures
            r is Ok <==> is_point(sender_setup.public_key@),
            r is Err ==> r->Err_0 == ReceiverError::InvalidPoint,
            r is Ok ==> {
                &&& r->Ok_0.queued() == self.queued()
                &&& r->Ok_0.pending() == self.pending()
                &&& r->Ok_0.phase().origin() == self.phase().origin()
                &&& r->Ok_0.phase().sender_key() == sender_setup.public_key@
                &&& r->Ok_0.phase().next_id() == TransferId(0)
                &&& r->Ok_0.phase().computed() == 0
                &&& r->Ok_0.phase().keys() == Seq::<(bool, Block)>::empty()
            },
    {
        if !decodes(&sender_setup.public_key) {
            return Err(ReceiverError::InvalidPoint);
        }
        Ok(
            Receiver {
                queue: self.queue,
                choices: self.choices,
                state: Setup {
                    seed: self.state.seed,
                    public_key: sender_setup.public_key,
                    transfer_id: TransferId(0),
                    counter: 0,
                    decryption_keys: Vec::new(),
                },
            },
        )
    }
}

/// The blinded choices and the keys are those of some private keys and choices,
/// numbered from `offset` on.
pub open spec fn computes<H: Fn(([u8; 32], u128)) -> Block>(
    hash: H,
    public_key: Seq<u8>,
    private_keys: Seq<Seq<u8>>,
    choices: Seq<bool>,
    offset: nat,
    points: Seq<[u8; 32]>,
    keys: Seq<(bool, Block)>,
) -> bool {
    &&& points.len() == choices.len()
    &&& keys.len() == choices.len()
    &&& forall|i: int|
        #![trigger points[i]]
        0 <= i < choices.len() ==> points[i]@ == blinded(public_key, private_keys[i], choices[i])
    &&& forall|i: int|
        #![trigger keys[i]]
        0 <= i < choices.len() ==> {
            &&& keys[i].0 == choices[i]
            &&& decryption_key(hash, public_key, private_keys[i], (offset + i) as nat, keys[i].1)
        }
}

/// Computes the blinded choices `B` and the decryption keys for the OT
/// receiver.
///
/// # Arguments
///
/// * `hash` - The hash function from a point and a tweak to a key
/// * `public_key` - The sender's public key
/// * `private_keys` - The private keys of the OT receiver
/// * `choices` - The choices of the OT receiver
/// * `offset` - The number of decryption keys that have already been computed
///   (used for the key derivation tweak)
fn compute_decryption_keys<H: Fn(([u8; 32], u128)) -> Block>(
    hash: &H,
    public_key: &[u8; 32],
    private_keys: &[[u8; 32]],
    choices: &[bool],
    offset: usize,
) -> (r: (Vec<[u8; 32]>, Vec<(bool, Block)>))
    requires
        is_function::<([u8; 32], u128), Block, H>(*hash),
        is_point(public_key@),
        private_keys@.len() == choices@.len(),
        offset + choices@.len() <= usize::MAX,
    ensures
        computes(
            *hash,
            public_key@,
            rows(private_keys@),
            choices@,
            offset as nat,
            r.0@,
            r.1@,
        ),
{
    let zero_bytes: [u8; 32] = [0;32];
    let mut one_bytes: [u8; 32] = [0;32];
    one_bytes[0] = 1;
    assert(zero_bytes@ =~= zero_scalar());
    assert(one_bytes@ =~= one_scalar());
    let zero: [u8; 32] = mul_point(public_key, &zero_bytes);
    // The sender's public key.
    let a: [u8; 32] = mul_point(public_key, &one_bytes);
    let mut points: Vec<[u8; 32]> = Vec::with_capacity(choices.len());
    let mut keys: Vec<(bool, Block)> = Vec::with_capacity(choices.len());
    let mut i: usize = 0;
    while i < choices.len()
        invariant
            is_function::<([u8; 32], u128), Block, H>(*hash),
            is_point(public_key@),
            is_point(zero@),
            is_point(a@),
            zero@ == point_mul(public_key@, zero_scalar()),
            a@ == point_mul(public_key@, one_scalar()),
            private_keys@.len() == choices@.len(),
            offset + choices@.len() <= usize::MAX,
            i <= choices@.len(),
            computes(
                *hash,
                public_key@,
                rows(private_keys@),
                choices@.take(i as int),
                offset as nat,
                points@,
                keys@,
            ),
        decreases choices@.len() - i,
    {
        let b: &[u8; 32] = &private_keys[i];
        let c: bool = choices[i];
        assert(rows(private_keys@)[i as int] == b@);
        // With the generator g and the public key A, the blinded choice is
        //
        // if c = 0: B = g ^ b
        // if c = 1: B = A * g ^ b
        //
        // when choice is 0, we add the zero element to keep constant time.
        let shared: [u8; 32] = mul_base(b);
        let blinded_choice: [u8; 32] = if c {
            add_points(&a, &shared)
        } else {
            add_points(&zero, &shared)
        };
        let product: [u8; 32] = mul_point(public_key, b);
        let key: Block = call(hash, (product, (offset + i) as u128));
        let ghost points_before = points@;
        let ghost keys_before = keys@;
        points.push(blinded_choice);
        keys.push((c, key));
        i = i + 1;
        proof {
            let so_far = choices@.take(i as int);
            let j = i - 1;
            assert(decryption_key(
                *hash,
                public_key@,
                rows(private_keys@)[j],
                (offset + j) as nat,
                key,
            ));
            assert forall|k: int|
                #![trigger points@[k]]
                0 <= k < so_far.len() implies points@[k]@ == blinded(
                public_key@,
                rows(private_keys@)[k],
                so_far[k],
            ) by {
                if k < j {
                    assert(points_before[k] == points@[k]);
                    assert(choices@.take(j)[k] == so_far[k]);
                }
            }
            assert forall|k: int|
                #![trigger keys@[k]]
                0 <= k < so_far.len() implies {
                &&& keys@[k].0 == so_far[k]
                &&& decryption_key(
                    *hash,
                    public_key@,
                    rows(private_keys@)[k],
                    (offset + k) as nat,
                    keys@[k].1,
                )
            } by {
                if k < j {
                    assert(keys_before[k] == keys@[k]);
                    assert(choices@.take(j)[k] == so_far[k]);
                }
            }
        }
    }
    assert(choices@.take(i as int) =~= choices@);
    (points, keys)
}

/// The number of ciphertexts that is expected where another number came: that of
/// the keys; or, while there are none, that of the choices, unless as many came.
pub open spec fn awaited(keys: nat, choices: nat, pairs: nat) -> nat {
    if keys == 0 && pairs != choices {
        choices
    } else {
        keys
    }
}

impl Receiver<Setup> {
    /// Returns whether the receiver wants to flush.
    pub fn wants_flush(&self) -> (r: bool)
        ensures
            r == (self.pending().len() > 0),
    {
        self.choices.len() > 0
    }

    /// How the blinded choices are sent: each choice that was pending has a key
    /// now, behind those that were there.
    pub open spec fn chose<H: Fn(([u8; 32], u128)) -> Block>(
        old: Self,
        new: Self,
        hash: H,
        points: Seq<[u8; 32]>,
    ) -> bool {
        let n = old.phase().computed();
        let m = n + old.pending().len();
        let before = old.phase().keys();
        let after = new.phase().keys();
        &&& new.queued() == old.queued()
        &&& new.pending() == Seq::<bool>::empty()
        &&& new.phase().origin() == old.phase().origin()
        &&& new.phase().sender_key() == old.phase().sender_key()
        &&& new.phase().next_id() == old.phase().next_id()
        &&& new.phase().computed() == m
        &&& after.len() == before.len() + old.pending().len()
        &&& after.take(before.len() as int) == before
        &&& computes(
            hash,
            old.phase().sender_key(),
            chacha20_scalars(old.phase().origin(), m).skip(n as int),
            old.pending(),
            n,
            points,
            after.skip(before.len() as int),
        )
    }

    /// Sends the blinded choices to the Sender.
    pub fn choose_all<H: Fn(([u8; 32], u128)) -> Block>(&mut self, hash: &H) -> (r: ReceiverPayload)
        requires
            is_function::<([u8; 32], u128), Block, H>(*hash),
            old(self).phase().computed() + old(self).pending().len() <= usize::MAX,
        ensures
            final(self).queued() == old(self).queued(),
            final(self).pending() == Seq::<bool>::empty(),
            final(self).phase().origin() == old(self).phase().origin(),
            final(self).phase().sender_key() == old(self).phase().sender_key(),
            final(self).phase().next_id() == old(self).phase().next_id(),
            ({
                let n = old(self).phase().computed();
                let m = n + old(self).pending().len();
                let before = old(self).phase().keys();
                let after = final(self).phase().keys();
                &&& final(self).phase().computed() == m
                &&& after.len() == before.len() + old(self).pending().len()
                &&& after.take(before.len() as int) == before
                &&& computes(
                    *hash,
                    old(self).phase().sender_key(),
                    chacha20_scalars(old(self).phase().origin(), m).skip(n as int),
                    old(self).pending(),
                    n,
                    r.blinded_choices@,
                    after.skip(before.len() as int),
                )
            }),
            Self::chose(*old(self), *final(self), *hash, r.blinded_choices@),
    {
        proof {
            use_type_invariant(&self.state);
        }
        let mut choices: Vec<bool> = Vec::new();
        std::mem::swap(&mut choices, &mut self.choices);
        let counter: usize = self.state.counter;
        let count: usize = choices.len();
        let mut drawn: Vec<[u8; 32]> = draw_scalars(&self.state.seed, counter + count);
        let ghost all = drawn@;
        let private_keys: Vec<[u8; 32]> = drawn.split_off(counter);
        assert(rows(private_keys@) =~= rows(all).skip(counter as int));
        let (blinded_choices, mut new_keys) = compute_decryption_keys(
            hash,
            &self.state.public_key,
            private_keys.as_slice(),
            choices.as_slice(),
            counter,
        );
        let ghost added = new_keys@;
        let mut keys: Vec<(bool, Block)> = Vec::new();
        std::mem::swap(&mut keys, &mut self.state.decryption_keys);
        keys.append(&mut new_keys);
        self.state.counter = counter + count;
        self.state.decryption_keys = keys;
        proof {
            let before = old(self).phase().keys();
            assert(self.state.decryption_keys@.take(before.len() as int) =~= before);
            assert(self.state.decryption_keys@.skip(before.len() as int) =~= added);
        }
        ReceiverPayload { blinded_choices }
    }

    /// Receives the encrypted payload from the Sender. The outputs are added to
    /// `outputs`. If there are not as many ciphertexts as keys, the error gives
    /// the number of keys; or, while there are none, the number of choices, where
    /// the ciphertexts are not as many as these either.
    ///
    /// # Arguments
    ///
    /// * `payload` - The encrypted payload from the Sender
    pub fn receive(&mut self, payload: SenderPayload, outputs: &mut Vec<OTReceiverOutput>) -> (r: Result<
        (),
        ReceiverError,
    >)
        requires
            old(self).phase().next_id().0 + old(self).queued().len() <= u64::MAX,
        ensures
            ({
                let keys = old(self).phase().keys();
                let pairs = payload.payload@;
                if pairs.len() != keys.len() {
                    &&& r == Err::<(), ReceiverError>(
                        ReceiverError::CountMismatch(
                            awaited(keys.len(), old(self).pending().len(), pairs.len()) as usize,
                            pairs.len() as usize,
                        ),
                    )
                    &&& *final(self) == *old(self)
                    &&& final(outputs)@ == old(outputs)@
                } else {
                    let msgs = Seq::new(keys.len(), |i: int| opened(keys[i], pairs[i]));
                    let parts = shares(msgs, old(self).queued());
                    &&& r is Ok
                    &&& final(self).queued() == Seq::<usize>::empty()
                    &&& final(self).pending() == old(self).pending()
                    &&& final(self).phase().origin() == old(self).phase().origin()
                    &&& final(self).phase().sender_key() == old(self).phase().sender_key()
                    &&& final(self).phase().computed() == old(self).phase().computed()
                    &&& final(self).phase().keys() == Seq::<(bool, Block)>::empty()
                    &&& final(self).phase().next_id().0 == old(self).phase().next_id().0 + old(
                        self).queued().len()
                    &&& final(outputs)@.len() == old(outputs)@.len() + parts.len()
                    &&& final(outputs)@.take(old(outputs)@.len() as int) == old(outputs)@
                    &&& forall|i: int|
                        0 <= i < parts.len() ==> {
                            let o = #[trigger] final(outputs)@[old(outputs)@.len() + i];
                            &&& o.id.0 == old(self).phase().next_id().0 + i
                            &&& o.msgs@ == parts[i]
                        }
                }
            }),
    {
        proof {
            use_type_invariant(&self.state);
        }
        let payload: Vec<[Block; 2]> = payload.payload;
        // Check that the number of ciphertexts does not exceed the number of
        // pending keys
        if payload.len() != self.state.decryption_keys.len() {
            let keys: usize = self.state.decryption_keys.len();
            let expected: usize = if keys == 0 && payload.len() != self.choices.len() {
                self.choices.len()
            } else {
                keys
            };
            return Err(ReceiverError::CountMismatch(expected, payload.len()));
        }
        let mut keys: Vec<(bool, Block)> = Vec::new();
        std::mem::swap(&mut keys, &mut self.state.decryption_keys);
        let ghost goal = Seq::new(keys@.len(), |i: int| opened(keys@[i], payload@[i]));
        let mut msgs: Vec<Block> = Vec::with_capacity(keys.len());
        let mut i: usize = 0;
        while i < keys.len()
            invariant
                keys@.len() == payload@.len(),
                i <= keys@.len(),
                goal == Seq::new(keys@.len(), |i: int| opened(keys@[i], payload@[i])),
                msgs@ == goal.take(i as int),
            decreases keys@.len() - i,
        {
            let (c, key) = keys[i];
            let msg: Block = if c {
                Block(key.0 ^ payload[i][1].0)
            } else {
                Block(key.0 ^ payload[i][0].0)
            };
            msgs.push(msg);
            i = i + 1;
            assert(msgs@ =~= goal.take(i as int));
        }
        assert(goal.take(i as int) =~= goal);
        let ghost queue = self.queue@;
        let ghost parts = shares(goal, queue);
        let ghost before = outputs@;
        let ghost mut done: nat = 0;
        let ghost start = *self;
        let mut next_id: TransferId = self.state.transfer_id;
        proof {
            assert(queue.skip(0) =~= queue);
            assert(parts.skip(0) =~= parts);
            assert(outputs@.take(before.len() as int) =~= before);
            lemma_shares_len(goal, queue);
        }
        while self.queue.len() > 0
            invariant
                done <= queue.len(),
                queue == old(self).queued(),
                self.queue@ == queue.skip(done as int),
                self.choices == start.choices,
                self.state == start.state,
                old(self).phase().next_id().0 + queue.len() <= u64::MAX,
                next_id.0 == old(self).phase().next_id().0 + done,
                parts == shares(goal, queue),
                parts.len() == queue.len(),
                parts.skip(done as int) == shares(msgs@, queue.skip(done as int)),
                before == old(outputs)@,
                outputs@.len() == before.len() + done,
                outputs@.take(before.len() as int) == before,
                forall|j: int|
                    0 <= j < done ==> {
                        let o = #[trigger] outputs@[before.len() + j];
                        &&& o.id.0 == old(self).phase().next_id().0 + j
                        &&& o.msgs@ == parts[j]
                    },
            decreases self.queue@.len(),
        {
            let ghost rest = queue.skip(done as int);
            let ghost so_far = outputs@;
            let count: usize = match self.queue.pop_front() {
                Some(count) => count,
                None => 0,
            };
            let n: usize = if count <= msgs.len() {
                count
            } else {
                msgs.len()
            };
            let ghost msgs_before = msgs@;
            let part: Vec<Block> = crate::slices::take_front(&mut msgs, n);
            let id: TransferId = next_id.next();
            outputs.push(OTReceiverOutput { id, msgs: part });
            proof {
                assert(rest[0] == count);
                assert(rest.skip(1) =~= queue.skip((done + 1) as int));
                assert(self.queue@ =~= queue.skip((done + 1) as int));
                assert(parts.skip(done as int)[0] == parts[done as int]);
                let first = seq![msgs_before.take(n as int)];
                let later = shares(msgs@, queue.skip((done + 1) as int));
                assert((first + later).skip(1) =~= later);
                assert(parts.skip(done as int).skip(1) =~= parts.skip((done + 1) as int));
                assert(outputs@.take(before.len() as int) =~= so_far.take(before.len() as int));
                assert forall|j: int| 0 <= j < done + 1 implies {
                    let o = #[trigger] outputs@[before.len() + j];
                    &&& o.id.0 == old(self).phase().next_id().0 + j
                    &&& o.msgs@ == parts[j]
                } by {
                    if j < done {
                        assert(so_far[before.len() + j] == outputs@[before.len() + j]);
                    }
                }
                done = done + 1;
            }
        }
        assert(self.queue@ =~= Seq::<usize>::empty());
        self.state.transfer_id = next_id;
        Ok(())
    }
}

proof fn lemma_shares_len(msgs: Seq<Block>, queue: Seq<usize>)
    ensures
        shares(msgs, queue).len() == queue.len(),
    decreases queue.len(),
{
    if queue.len() > 0 {
        let n = if queue[0] <= msgs.len() {
            queue[0] as int
        } else {
            msgs.len() as int
        };
        lemma_shares_len(msgs.skip(n), queue.skip(1));
    }
}

/// A message that was encrypted under the key of the choice is decrypted.
pub proof fn lemma_decrypt(key: (bool, Block), msgs: (Block, Block), pair: [Block; 2])
    requires
        key.0 ==> pair@[1].0 == key.1.0 ^ msgs.1.0,
        !key.0 ==> pair@[0].0 == key.1.0 ^ msgs.0.0,
    ensures
        opened(key, pair) == if key.0 {
            msgs.1
        } else {
            msgs.0
        },
{
    lemma_xor(key.1.0, msgs.0.0, 0);
    lemma_xor(key.1.0, msgs.1.0, 0);
}

/// One batch of choices: the receiver before and after [`Receiver::choose_all`],
/// and what it sent.
pub struct Round {
    /// Before.
    pub before: Receiver<Setup>,
    /// After.
    pub after: Receiver<Setup>,
    /// The blinded choices.
    pub points: Seq<[u8; 32]>,
}

/// How many choices were sent in the first `k` batches.
pub open spec fn sent_before(rounds: Seq<Round>, k: int) -> nat
    decreases k,
{
    if k <= 0 {
        0
    } else {
        sent_before(rounds, k - 1) + rounds[k - 1].before.pending().len()
    }
}

/// The batches are those of one receiver: between two of them its seed, the
/// sender's key and the number of keys computed stay, as [`Receiver::receive`] and
/// [`Receiver::queue_recv_ot`] leave them.
pub open spec fn one_receiver<H: Fn(([u8; 32], u128)) -> Block>(hash: H, rounds: Seq<Round>) -> bool {
    &&& rounds.len() > 0
    &&& rounds[0].before.phase().computed() == 0
    &&& forall|k: int|
        0 <= k < rounds.len() ==> Receiver::<Setup>::chose(
            (#[trigger] rounds[k]).before,
            rounds[k].after,
            hash,
            rounds[k].points,
        )
    &&& forall|k: int|
        0 < k < rounds.len() ==> {
            let earlier = rounds[k - 1].after.phase();
            let later = (#[trigger] rounds[k]).before.phase();
            &&& later.computed() == earlier.computed()
            &&& later.origin() == earlier.origin()
            &&& later.sender_key() == earlier.sender_key()
        }
}

proof fn lemma_computed<H: Fn(([u8; 32], u128)) -> Block>(hash: H, rounds: Seq<Round>, k: int)
    requires
        one_receiver(hash, rounds),
        0 <= k < rounds.len(),
    ensures
        rounds[k].before.phase().computed() == sent_before(rounds, k),
        rounds[k].before.phase().origin() == rounds[0].before.phase().origin(),
        rounds[k].before.phase().sender_key() == rounds[0].before.phase().sender_key(),
    decreases k,
{
    if k > 0 {
        lemma_computed(hash, rounds, k - 1);
        assert(Receiver::<Setup>::chose(
            rounds[k - 1].before,
            rounds[k - 1].after,
            hash,
            rounds[k - 1].points,
        ));
        assert(rounds[k].before.phase().computed() == rounds[k - 1].after.phase().computed());
    }
}

/// A sender that numbers its transfers through all batches, and encrypts a message
/// under the hash of the point that it shares with the receiver and the number of
/// the transfer, is understood in every batch: choice `i` of batch `k` opens the
/// chosen message of transfer number `i` behind all choices of the batches before.
/// The private key of each transfer is another one of those that the seed gives.
pub proof fn lemma_every_batch<H: Fn(([u8; 32], u128)) -> Block>(
    hash: H,
    rounds: Seq<Round>,
    k: int,
    i: int,
    shared: [u8; 32],
    msgs: (Block, Block),
    pair: [Block; 2],
)
    requires
        one_receiver(hash, rounds),
        0 <= k < rounds.len(),
        0 <= i < rounds[k].before.pending().len(),
        shared@ == point_mul(
            rounds[0].before.phase().sender_key(),
            chacha20_scalars(
                rounds[0].before.phase().origin(),
                sent_before(rounds, k + 1),
            )[sent_before(rounds, k) + i],
        ),
        chacha20_scalars(rounds[0].before.phase().origin(), sent_before(rounds, k + 1)).len()
            == sent_before(rounds, k + 1),
        pair@[0].0 == apply::<([u8; 32], u128), Block, H>(
            hash,
            (shared, (sent_before(rounds, k) + i) as u128),
        ).0 ^ msgs.0.0 || rounds[k].before.pending()[i],
        pair@[1].0 == apply::<([u8; 32], u128), Block, H>(
            hash,
            (shared, (sent_before(rounds, k) + i) as u128),
        ).0 ^ msgs.1.0 || !rounds[k].before.pending()[i],
    ensures
        opened(
            rounds[k].after.phase().keys()[rounds[k].before.phase().keys().len() + i],
            pair,
        ) == if rounds[k].before.pending()[i] {
            msgs.1
        } else {
            msgs.0
        },
{
    let round = rounds[k];
    let n = sent_before(rounds, k);
    lemma_computed(hash, rounds, k);
    assert(Receiver::<Setup>::chose(round.before, round.after, hash, round.points));
    let keys = round.after.phase().keys().skip(round.before.phase().keys().len() as int);
    let scalars = chacha20_scalars(round.before.phase().origin(), sent_before(rounds, k + 1));
    let key = keys[i];
    assert(key.0 == round.before.pending()[i]);
    assert(scalars.skip(n as int)[i] == scalars[n + i]);
    assert(decryption_key(
        hash,
        round.before.phase().sender_key(),
        scalars.skip(n as int)[i],
        (n + i) as nat,
        key.1,
    ));
    let point = choose|point: [u8; 32]|
        point@ == point_mul(round.before.phase().sender_key(), scalars[n + i]) && key.1
            == #[trigger] apply::<([u8; 32], u128), Block, H>(hash, (point, (n + i) as u128));
    assert(point =~= shared);
    lemma_decrypt(key, msgs, pair);
}

/// What the receiver sends for a choice is what the sender needs to share a point
/// with it. In a group, where the sender's key is the base point times `a`, there
/// is one point that gives the blinded choice when the sender's key times the
/// choice is added to it, and that point times `a` is what the receiver hashes.
pub proof fn lemma_shared_point(
    a: Seq<u8>,
    b: Seq<u8>,
    public_key: Seq<u8>,
    choice: bool,
    y: Seq<u8>,
)
    requires
        public_key == base_mul(a),
        // Multiples of the base point commute, and points can be cancelled.
        point_mul(base_mul(b), a) == point_mul(base_mul(a), b),
        forall|z: Seq<u8>|
            point_sum(z, y) == #[trigger] point_sum(z, base_mul(b)) ==> y == base_mul(b),
        point_sum(
            point_mul(
                public_key,
                Seq::new(
                    32,
                    |i: int|
                        if i == 0 && choice {
                            1u8
                        } else {
                            0u8
                        },
                ),
            ),
            y,
        ) == blinded(public_key, b, choice),
    ensures
        point_mul(y, a) == point_mul(public_key, b),
{
    let scalar = Seq::new(
        32,
        |i: int|
            if i == 0 && choice {
                1u8
            } else {
                0u8
            },
    );
    if choice {
        assert(scalar =~= one_scalar());
    } else {
        assert(scalar =~= zero_scalar());
    }
    assert(point_sum(point_mul(public_key, scalar), base_mul(b)) == blinded(public_key, b, choice));
}

/// Where there are enough messages, each queued transfer gets those behind the
/// ones of the transfers queued before it, as many as it has choices.
pub proof fn lemma_shares_in_order(msgs: Seq<Block>, queue: Seq<usize>, i: int)
    requires
        start_of(queue, queue.len()) <= msgs.len(),
        0 <= i < queue.len(),
    ensures
        shares(msgs, queue).len() == queue.len(),
        start_of(queue, i as nat) + queue[i] <= msgs.len(),
        shares(msgs, queue)[i] == msgs.subrange(
            start_of(queue, i as nat) as int,
            start_of(queue, i as nat) + queue[i],
        ),
    decreases queue.len(),
{
    let rest = queue.skip(1);
    lemma_shares_len(msgs, queue);
    lemma_start_skip(queue, (queue.len() - 1) as nat);
    assert(queue[0] <= msgs.len());
    let later = msgs.skip(queue[0] as int);
    if i > 0 {
        lemma_start_skip(queue, (i - 1) as nat);
        lemma_shares_in_order(later, rest, i - 1);
        assert(rest[i - 1] == queue[i]);
        let from = start_of(rest, (i - 1) as nat) as int;
        assert(later.subrange(from, from + queue[i]) =~= msgs.subrange(
            from + queue[0],
            from + queue[0] + queue[i],
        ));
    } else {
        assert(msgs.take(queue[0] as int) =~= msgs.subrange(0, queue[0] as int));
    }
}

proof fn lemma_start_skip(queue: Seq<usize>, j: nat)
    requires
        j < queue.len(),
    ensures
        start_of(queue, j + 1) == queue[0] + start_of(queue.skip(1), j),
    decreases j,
{
    if j > 0 {
        lemma_start_skip(queue, (j - 1) as nat);
    } else {
        assert(start_of(queue, 0) == 0);
        assert(start_of(queue, 1) == start_of(queue, 0) + queue[0]);
    }
}

} // verus!
