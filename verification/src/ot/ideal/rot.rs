//! Ideal Random Oblivious Transfer functionality.
//!
//! Two implementations are provided:
//!
//! 1. **`IdealROTSender`/`IdealROTReceiver`** (message-based): Separate sender
//!    and receiver types communicating via `FlushMsg`. Uses seed-based
//!    generation for efficiency - only seed/offset/count are sent, not actual
//!    data.
//!
//! 2. **`IdealROT`** wrapper: Holds both sender and receiver, provides unified
//!    interface for tests.
//!
//! A flush delivers the outputs of the queued requests in the order in which
//! they were queued.
use crate::block::Block;
use crate::ot::ideal::cot::views;
use crate::ot::TransferId;
use crate::slices::take_front;
use rand::{RngExt, SeedableRng};
use vstd::prelude::*;

verus! {

/// Output of the sender.
#[derive(Clone, Debug)]
pub struct ROTSenderOutput {
    /// The number of the transfer.
    pub id: TransferId,
    /// The pairs of keys.
    pub keys: Vec<[Block; 2]>,
}

/// Output of the receiver.
#[derive(Clone, Debug)]
pub struct ROTReceiverOutput {
    /// The number of the transfer.
    pub id: TransferId,
    /// The choices.
    pub choices: Vec<bool>,
    /// The chosen messages.
    pub msgs: Vec<Block>,
}

/// Message sent from sender to receiver during flush.
/// Only contains seed + offset + count, not the actual data.
#[derive(Clone, Copy, Debug, PartialEq, Eq, Structural)]
pub struct FlushMsg {
    /// Base seed for key/choice generation.
    pub seed: Block,
    /// Offset into the sequence.
    pub offset: u64,
    /// Number of ROTs to generate.
    pub count: usize,
}

/// Ideal ROT error.
#[derive(Clone, Copy, Debug, PartialEq, Eq, Structural)]
pub enum IdealROTError {
    /// The parties have allocated different numbers of transfers.
    CountMismatch {
        /// Transfers of the sender.
        sender: usize,
        /// Transfers of the receiver.
        receiver: usize,
    },
    /// There are not as many forced choices as transfers.
    ForcedChoices {
        /// The number of forced choices.
        choices: usize,
        /// The number of transfers.
        count: usize,
    },
    /// Not enough ROTs available.
    NotEnough {
        /// The number that is available.
        available: usize,
        /// The number that was asked for.
        count: usize,
    },
}

/// The first `count` booleans that a ChaCha8 generator draws from a seed.
pub uninterp spec fn chacha8_bools(seed: u64, count: nat) -> Seq<bool>;

/// Calls `ChaCha8Rng::seed_from_u64` and draws booleans with
/// `RngExt::random_iter`: there are `count` of them, and they depend on the
/// seed and the count alone.
#[verifier::external_body]
pub(crate) fn draw_bools(seed: u64, count: usize) -> (r: Vec<bool>)
    ensures
        r@ == chacha8_bools(seed, count as nat),
        r@.len() == count,
{
    rand_chacha::ChaCha8Rng::seed_from_u64(seed).random_iter().take(count).collect()
}

/// The block `n` places after `base`, in the cyclic order of all blocks.
pub open spec fn place(base: Block, n: int) -> Block {
    Block(((base.0 + n) % (u128::MAX + 1)) as u128)
}

/// The pair of keys number `i`.
pub open spec fn key_pair(seed: Block, i: int) -> [Block; 2] {
    [place(seed, 3 * i), place(seed, 3 * i + 1)]
}

/// The pairs of keys from number `offset` on.
pub open spec fn generated(seed: Block, offset: int, count: nat) -> Seq<[Block; 2]> {
    Seq::new(count, |i: int| key_pair(seed, offset + i))
}

/// The messages that the choices select.
pub open spec fn selected(keys: Seq<[Block; 2]>, choices: Seq<bool>) -> Seq<Block> {
    Seq::new(
        keys.len(),
        |i: int|
            if choices[i] {
                keys[i]@[1]
            } else {
                keys[i]@[0]
            },
    )
}

/// The sum of some counts.
pub open spec fn sum(counts: Seq<usize>) -> nat
    decreases counts.len(),
{
    if counts.len() == 0 {
        0
    } else {
        counts[0] as nat + sum(counts.skip(1))
    }
}

/// Adds two numbers in the cyclic order of all blocks.
fn wrapping(base: u128, n: u128) -> (r: u128)
    ensures
        Block(r) == place(Block(base), n as int),
{
    if n <= u128::MAX - base {
        base + n
    } else {
        n - (u128::MAX - base) - 1
    }
}

/// Generate key pairs deterministically from seed + offset via counter
/// addition.
///
/// For each index i:
/// - keys[i][0] = seed + (offset + i) * 3
/// - keys[i][1] = seed + (offset + i) * 3 + 1
pub fn generate_keys(seed: Block, offset: u64, count: usize) -> (r: Vec<[Block; 2]>)
    ensures
        r@ == generated(seed, offset as int, count as nat),
{
    let ghost want = generated(seed, offset as int, count as nat);
    let mut out: Vec<[Block; 2]> = Vec::with_capacity(count);
    let mut i: usize = 0;
    while i < count
        invariant
            i <= count,
            want == generated(seed, offset as int, count as nat),
            out@ == want.take(i as int),
        decreases count - i,
    {
        let idx: u128 = (offset as u128 + i as u128) * 3;
        let k0: u128 = wrapping(seed.0, idx);
        let k1: u128 = wrapping(seed.0, idx + 1);
        let pair: [Block; 2] = [Block(k0), Block(k1)];
        assert(pair =~= key_pair(seed, offset + i));
        out.push(pair);
        i = i + 1;
        assert(out@ =~= want.take(i as int));
    }
    assert(want.take(i as int) =~= want);
    out
}

/// The shares of queued requests, which take from the front of what is
/// available: request `i` takes `queue[i]`.
pub open spec fn served<T>(items: Seq<T>, queue: Seq<usize>) -> Seq<Seq<T>>
    decreases queue.len(),
{
    if queue.len() == 0 {
        Seq::empty()
    } else {
        seq![items.take(queue[0] as int)] + served(items.skip(queue[0] as int), queue.skip(1))
    }
}

/// Takes the shares of queued requests off the front.
fn serve<T>(items: &mut Vec<T>, queue: &Vec<usize>) -> (r: Vec<Vec<T>>)
    requires
        sum(queue@) <= old(items)@.len(),
    ensures
        views(r@) == served(old(items)@, queue@),
        r@.len() == queue@.len(),
        final(items)@ == old(items)@.skip(sum(queue@) as int),
{
    let ghost all = items@;
    let ghost goal = served(all, queue@);
    let mut out: Vec<Vec<T>> = Vec::new();
    let ghost mut used: nat = 0;
    let mut i: usize = 0;
    proof {
        assert(all.skip(0) =~= all);
        assert(queue@.skip(0) =~= queue@);
        assert(views(out@) + goal =~= goal);
    }
    while i < queue.len()
        invariant
            i <= queue@.len(),
            out@.len() == i,
            used + sum(queue@.skip(i as int)) == sum(queue@),
            sum(queue@) <= all.len(),
            items@ == all.skip(used as int),
            goal == views(out@) + served(items@, queue@.skip(i as int)),
        decreases queue@.len() - i,
    {
        let n: usize = queue[i];
        let ghost rest = queue@.skip(i as int);
        let ghost before = items@;
        let ghost so_far = out@;
        proof {
            assert(rest[0] == n);
            assert(rest.skip(1) =~= queue@.skip(i + 1));
        }
        let share: Vec<T> = take_front(items, n);
        out.push(share);
        i = i + 1;
        proof {
            assert(all.skip(used as int).skip(n as int) =~= all.skip((used + n) as int));
            assert(views(out@) =~= views(so_far).push(share@));
            assert(views(so_far) + (seq![share@] + served(items@, queue@.skip(i as int)))
                =~= views(out@) + served(items@, queue@.skip(i as int)));
            used = used + n as nat;
        }
    }
    proof {
        assert(queue@.skip(i as int) =~= Seq::<usize>::empty());
        assert(views(out@) + Seq::<Seq<T>>::empty() =~= views(out@));
    }
    out
}

/// Returns a new ideal ROT sender and receiver.
pub fn ideal_rot(seed: Block) -> (r: (IdealROTSender, IdealROTReceiver))
    ensures
        r.1.is_fresh(),
        r.0.base() == seed,
        r.0.is_fresh(),
{
    (IdealROTSender::new(seed), IdealROTReceiver::new())
}

/// Ideal ROT sender (message-based).
///
/// Sends only seed + offset + count, not the actual keys.
#[derive(Debug)]
pub struct IdealROTSender {
    /// Base seed for generation.
    seed: Block,
    /// Current offset into sequence.
    offset: u64,
    /// Pending allocation count.
    pending: usize,
    /// Generated keys (sender's ROT outputs).
    keys: Vec<[Block; 2]>,
    /// Queue of counts for deferred output.
    queue: Vec<usize>,
    /// Transfer ID counter.
    transfer_id: TransferId,
}

/// Outputs of a sender: `after` is `before` and then the shares, numbered from
/// `id` on.
pub open spec fn sends(
    before: Seq<ROTSenderOutput>,
    after: Seq<ROTSenderOutput>,
    id: TransferId,
    shares: Seq<Seq<[Block; 2]>>,
) -> bool {
    &&& after.len() == before.len() + shares.len()
    &&& after.take(before.len() as int) == before
    &&& forall|i: int|
        0 <= i < shares.len() ==> {
            let o = #[trigger] after[before.len() + i];
            &&& o.id.0 == id.0 + i
            &&& o.keys@ == shares[i]
        }
}

impl IdealROTSender {
    /// The base seed.
    pub closed spec fn base(self) -> Block {
        self.seed
    }

    /// The number of pairs generated.
    pub closed spec fn position(self) -> nat {
        self.offset as nat
    }

    /// The number of transfers allocated.
    pub closed spec fn allocated(self) -> nat {
        self.pending as nat
    }

    /// The pairs available.
    pub closed spec fn stock(self) -> Seq<[Block; 2]> {
        self.keys@
    }

    /// The requests queued.
    pub closed spec fn requests(self) -> Seq<usize> {
        self.queue@
    }

    /// The number of the next transfer.
    pub closed spec fn next_id(self) -> TransferId {
        self.transfer_id
    }

    /// Nothing was done yet.
    pub open spec fn is_fresh(self) -> bool {
        &&& self.position() == 0
        &&& self.allocated() == 0
        &&& self.stock() == Seq::<[Block; 2]>::empty()
        &&& self.requests() == Seq::<usize>::empty()
        &&& self.next_id() == TransferId(0)
    }

    /// Creates a new sender with the given seed.
    pub fn new(seed: Block) -> (r: Self)
        ensures
            r.base() == seed,
            r.is_fresh(),
    {
        IdealROTSender {
            seed,
            offset: 0,
            pending: 0,
            keys: Vec::new(),
            queue: Vec::new(),
            transfer_id: TransferId(0),
        }
    }

    /// Returns `true` if the sender wants to be flushed.
    pub fn wants_flush(&self) -> (r: bool)
        ensures
            r == (self.allocated() > 0 || self.requests().len() > 0),
    {
        self.pending > 0 || self.queue.len() > 0
    }

    /// The message of the next flush.
    pub open spec fn message(self) -> FlushMsg {
        FlushMsg {
            seed: self.base(),
            offset: self.position() as u64,
            count: self.allocated() as usize,
        }
    }

    /// The sender after `before` was flushed: keys are generated for what was
    /// allocated, and the queued requests are served.
    pub open spec fn flushed(
        self,
        before: Self,
        sent_before: Seq<ROTSenderOutput>,
        sent: Seq<ROTSenderOutput>,
    ) -> bool {
        let stock = before.stock() + generated(
            before.base(),
            before.position() as int,
            before.allocated(),
        );
        let queue = before.requests();
        &&& self.base() == before.base()
        &&& self.position() == before.position() + before.allocated()
        &&& self.allocated() == 0
        &&& self.requests() == Seq::<usize>::empty()
        &&& self.next_id().0 == before.next_id().0 + queue.len()
        &&& self.stock() == stock.skip(sum(queue) as int)
        &&& sends(sent_before, sent, before.next_id(), served(stock, queue))
    }

    /// Flushes pending operations, returning the message to send to receiver.
    /// The outputs are added to `outputs`.
    ///
    /// Returns `None` if there's nothing to flush.
    pub fn flush(&mut self, outputs: &mut Vec<ROTSenderOutput>) -> (r: Option<FlushMsg>)
        requires
            old(self).position() + old(self).allocated() <= u64::MAX,
            sum(old(self).requests()) <= old(self).stock().len() + old(self).allocated(),
            old(self).next_id().0 + old(self).requests().len() <= u64::MAX,
        ensures
            final(self).flushed(*old(self), old(outputs)@, final(outputs)@),
            r is None <==> old(self).allocated() == 0 && old(self).requests().len() == 0,
            r is Some ==> r->Some_0 == old(self).message(),
    {
        let ghost extra = generated(
            old(self).base(),
            old(self).position() as int,
            old(self).allocated(),
        );
        let ghost stock = old(self).stock() + extra;
        if self.pending == 0 && self.queue.len() == 0 {
            proof {
                assert(stock.skip(0) =~= self.stock());
                assert(outputs@.take(outputs@.len() as int) =~= outputs@);
                assert(self.queue@ =~= Seq::<usize>::empty());
            }
            return None;
        }
        let count: usize = self.pending;
        let current_offset: u64 = self.offset;
        if count > 0 {
            // Generate keys deterministically
            let mut keys: Vec<[Block; 2]> = generate_keys(self.seed, current_offset, count);
            self.keys.append(&mut keys);
            self.offset = self.offset + count as u64;
            self.pending = 0;
        }
        assert(self.keys@ =~= stock);
        // Fulfill queued requests
        let mut requests: Vec<usize> = Vec::new();
        std::mem::swap(&mut requests, &mut self.queue);
        let mut shares: Vec<Vec<[Block; 2]>> = serve(&mut self.keys, &requests);
        let ghost goal = views(shares@);
        let ghost before = outputs@;
        let ghost mut i: nat = 0;
        proof {
            assert(goal.skip(0) =~= goal);
            assert(outputs@.take(before.len() as int) =~= before);
        }
        while shares.len() > 0
            invariant
                views(shares@) == goal.skip(i as int),
                i <= goal.len(),
                before == old(outputs)@,
                goal.len() == old(self).queue@.len(),
                old(self).next_id().0 + goal.len() <= u64::MAX,
                self.transfer_id.0 == old(self).next_id().0 + i,
                *self == (IdealROTSender { transfer_id: self.transfer_id, ..*self }),
                self.keys@ == stock.skip(sum(old(self).queue@) as int),
                self.seed == old(self).seed,
                self.offset == old(self).offset + old(self).pending,
                self.pending == 0,
                self.queue@ == Seq::<usize>::empty(),
                sends(before, outputs@, old(self).transfer_id, goal.take(i as int)),
            decreases shares@.len(),
        {
            let ghost shares_before = shares@;
            let ghost so_far = outputs@;
            assert(views(shares@).len() == shares@.len());
            assert(goal.skip(i as int)[0] == goal[i as int]);
            let keys: Vec<[Block; 2]> = shares.remove(0);
            proof {
                lemma_views_step(shares_before, shares@, goal, i);
            }
            let id: TransferId = self.transfer_id.next();
            outputs.push(ROTSenderOutput { id, keys });
            proof {
                assert(outputs@.take(before.len() as int) =~= so_far.take(before.len() as int));
                let shown = goal.take((i + 1) as int);
                assert forall|j: int| 0 <= j < shown.len() implies {
                    let o = #[trigger] outputs@[before.len() + j];
                    &&& o.id.0 == old(self).next_id().0 + j
                    &&& o.keys@ == shown[j]
                } by {
                    if j < i {
                        assert(so_far[before.len() + j] == outputs@[before.len() + j]);
                        assert(goal.take(i as int)[j] == shown[j]);
                    }
                }
                i = i + 1;
            }
        }
        proof {
            assert(views(shares@).len() == shares@.len());
            assert(goal.take(i as int) =~= goal);
        }
        Some(FlushMsg { seed: self.seed, offset: current_offset, count })
    }

    /// Allocates transfers.
    pub fn allocate(&mut self, count: usize)
        requires
            old(self).allocated() + count <= usize::MAX,
        ensures
            final(self).allocated() == old(self).allocated() + count,
            final(self).base() == old(self).base(),
            final(self).position() == old(self).position(),
            final(self).stock() == old(self).stock(),
            final(self).requests() == old(self).requests(),
            final(self).next_id() == old(self).next_id(),
    {
        self.pending = self.pending + count;
    }

    /// Returns the number of transfers available.
    pub fn available(&self) -> (n: usize)
        ensures
            n == self.stock().len(),
    {
        self.keys.len()
    }

    /// Returns pairs of keys that are available.
    pub fn try_send_rot(&mut self, count: usize) -> (r: Result<ROTSenderOutput, IdealROTError>)
        requires
            old(self).next_id().0 < u64::MAX,
        ensures
            if count > old(self).stock().len() {
                &&& r == Err::<ROTSenderOutput, IdealROTError>(
                    IdealROTError::NotEnough {
                        available: old(self).stock().len() as usize,
                        count,
                    },
                )
                &&& *final(self) == *old(self)
            } else {
                &&& r is Ok
                &&& r->Ok_0.id == old(self).next_id()
                &&& r->Ok_0.keys@ == old(self).stock().take(count as int)
                &&& final(self).took(*old(self), count)
            },
    {
        if count > self.keys.len() {
            return Err(IdealROTError::NotEnough { available: self.keys.len(), count });
        }
        let keys: Vec<[Block; 2]> = take_front(&mut self.keys, count);
        let id: TransferId = self.transfer_id.next();
        Ok(ROTSenderOutput { id, keys })
    }

    /// The sender after `count` pairs were taken from `before`.
    pub open spec fn took(self, before: Self, count: usize) -> bool {
        &&& self.stock() == before.stock().skip(count as int)
        &&& self.next_id().0 == before.next_id().0 + 1
        &&& self.allocated() == before.allocated()
        &&& self.base() == before.base()
        &&& self.position() == before.position()
        &&& self.requests() == before.requests()
    }

    /// Returns pairs of keys if they are available, and queues the request if
    /// they are not.
    pub fn queue_send_rot(&mut self, count: usize) -> (r: Option<ROTSenderOutput>)
        requires
            old(self).next_id().0 < u64::MAX,
        ensures
            if count > old(self).stock().len() {
                &&& r is None
                &&& final(self).requests() == old(self).requests().push(count)
                &&& final(self).stock() == old(self).stock()
                &&& final(self).next_id() == old(self).next_id()
                &&& final(self).allocated() == old(self).allocated()
                &&& final(self).base() == old(self).base()
                &&& final(self).position() == old(self).position()
            } else {
                &&& r is Some
                &&& r->Some_0.id == old(self).next_id()
                &&& r->Some_0.keys@ == old(self).stock().take(count as int)
                &&& final(self).took(*old(self), count)
            },
    {
        if self.keys.len() >= count {
            let keys: Vec<[Block; 2]> = take_front(&mut self.keys, count);
            let id: TransferId = self.transfer_id.next();
            Some(ROTSenderOutput { id, keys })
        } else {
            self.queue.push(count);
            None
        }
    }
}

proof fn lemma_views_step<T>(before: Seq<Vec<T>>, after: Seq<Vec<T>>, goal: Seq<Seq<T>>, i: nat)
    requires
        i < goal.len(),
        views(before) == goal.skip(i as int),
        before.len() > 0,
        after == before.remove(0),
    ensures
        views(after) == goal.skip((i + 1) as int),
        before[0]@ == goal[i as int],
{
    let rest = goal.skip((i + 1) as int);
    assert(views(before)[0] == goal.skip(i as int)[0]);
    assert(views(before).len() == before.len());
    assert forall|k: int| 0 <= k < rest.len() implies views(after)[k] == rest[k] by {
        assert(after[k] == before[k + 1]);
        assert(views(before)[k + 1] == goal.skip(i as int)[k + 1]);
    }
    assert(views(after) =~= rest);
}

/// Ideal ROT receiver (message-based).
///
/// Regenerates keys from the received seed, generates choices from own PRG.
#[derive(Debug)]
pub struct IdealROTReceiver {
    /// Number of choices generated so far, from a constant seed.
    drawn: usize,
    /// Pending allocation count.
    pending: usize,
    /// Generated choices.
    choices: Vec<bool>,
    /// Generated messages.
    msgs: Vec<Block>,
    /// Explicit choices to use on the next flush instead of generating them.
    forced_choices: Vec<bool>,
    /// Queue of counts for deferred output.
    queue: Vec<usize>,
    /// Transfer ID counter.
    transfer_id: TransferId,
}

/// Outputs of a receiver: `after` is `before` and then the shares, numbered
/// from `id` on.
pub open spec fn receives(
    before: Seq<ROTReceiverOutput>,
    after: Seq<ROTReceiverOutput>,
    id: TransferId,
    choices: Seq<Seq<bool>>,
    msgs: Seq<Seq<Block>>,
) -> bool {
    &&& after.len() == before.len() + choices.len()
    &&& after.take(before.len() as int) == before
    &&& forall|i: int|
        0 <= i < choices.len() ==> {
            let o = #[trigger] after[before.len() + i];
            &&& o.id.0 == id.0 + i
            &&& o.choices@ == choices[i]
            &&& o.msgs@ == msgs[i]
        }
}

impl Default for IdealROTReceiver {
    fn default() -> (r: Self)
        ensures
            r.is_fresh(),
    {
        IdealROTReceiver::new()
    }
}

impl IdealROTReceiver {
    /// The number of choices generated.
    pub closed spec fn position(self) -> nat {
        self.drawn as nat
    }

    /// The number of transfers allocated.
    pub closed spec fn allocated(self) -> nat {
        self.pending as nat
    }

    /// The choices available.
    pub closed spec fn choice_stock(self) -> Seq<bool> {
        self.choices@
    }

    /// The messages available.
    pub closed spec fn stock(self) -> Seq<Block> {
        self.msgs@
    }

    /// The choices to use on the next flush.
    pub closed spec fn forced(self) -> Seq<bool> {
        self.forced_choices@
    }

    /// The requests queued.
    pub closed spec fn requests(self) -> Seq<usize> {
        self.queue@
    }

    /// The number of the next transfer.
    pub closed spec fn next_id(self) -> TransferId {
        self.transfer_id
    }

    /// There is a message for each choice.
    pub open spec fn wf(self) -> bool {
        self.choice_stock().len() == self.stock().len()
    }

    /// Nothing was done yet.
    pub open spec fn is_fresh(self) -> bool {
        &&& self.position() == 0
        &&& self.allocated() == 0
        &&& self.choice_stock() == Seq::<bool>::empty()
        &&& self.stock() == Seq::<Block>::empty()
        &&& self.forced() == Seq::<bool>::empty()
        &&& self.requests() == Seq::<usize>::empty()
        &&& self.next_id() == TransferId(0)
    }

    /// Creates a new receiver with constant-seeded RNG for choices.
    pub fn new() -> (r: Self)
        ensures
            r.is_fresh(),
    {
        IdealROTReceiver {
            drawn: 0,
            pending: 0,
            choices: Vec::new(),
            msgs: Vec::new(),
            forced_choices: Vec::new(),
            queue: Vec::new(),
            transfer_id: TransferId(0),
        }
    }

    /// Sets the choices to use on the next flush instead of generating them.
    ///
    /// The length must match the number of ROTs flushed.
    pub fn set_choices(&mut self, choices: Vec<bool>)
        ensures
            final(self).forced() == choices@,
            final(self).position() == old(self).position(),
            final(self).allocated() == old(self).allocated(),
            final(self).choice_stock() == old(self).choice_stock(),
            final(self).stock() == old(self).stock(),
            final(self).requests() == old(self).requests(),
            final(self).next_id() == old(self).next_id(),
    {
        self.forced_choices = choices;
    }

    /// Returns `true` if the receiver wants to be flushed.
    pub fn wants_flush(&self) -> (r: bool)
        ensures
            r == (self.allocated() > 0 || self.requests().len() > 0),
    {
        self.pending > 0 || self.queue.len() > 0
    }

    /// Why a flush fails.
    pub open spec fn flush_error(self, count: usize) -> Option<IdealROTError> {
        if count != self.allocated() {
            Some(
                IdealROTError::CountMismatch {
                    sender: count,
                    receiver: self.allocated() as usize,
                },
            )
        } else if count > 0 && self.forced().len() != 0 && self.forced().len() != count {
            Some(IdealROTError::ForcedChoices { choices: self.forced().len() as usize, count })
        } else {
            None
        }
    }

    /// The choices of a flush: the forced ones, or else the next ones drawn.
    pub open spec fn flush_choices(self) -> Seq<bool> {
        if self.allocated() == 0 {
            Seq::empty()
        } else if self.forced().len() == 0 {
            chacha8_bools(0, self.position() + self.allocated()).skip(self.position() as int)
        } else {
            self.forced()
        }
    }

    /// What a flush of this receiver does: it fails and changes nothing, or
    /// adds transfers for what was allocated and serves the queued requests.
    pub open spec fn flush_result(
        self,
        after: Self,
        msg: FlushMsg,
        received_before: Seq<ROTReceiverOutput>,
        received: Seq<ROTReceiverOutput>,
        r: Result<(), IdealROTError>,
    ) -> bool {
        match self.flush_error(msg.count) {
            Some(e) => {
                &&& r == Err::<(), IdealROTError>(e)
                &&& after == self
                &&& received == received_before
            },
            None => {
                let keys = generated(msg.seed, msg.offset as int, msg.count as nat);
                let new = self.flush_choices();
                let choices = self.choice_stock() + new;
                let msgs = self.stock() + selected(keys, new);
                let queue = self.requests();
                &&& r is Ok
                &&& new.len() == self.allocated()
                &&& after.allocated() == 0
                &&& after.requests() == Seq::<usize>::empty()
                &&& after.choice_stock() == choices.skip(sum(queue) as int)
                &&& after.stock() == msgs.skip(sum(queue) as int)
                &&& after.next_id().0 == self.next_id().0 + queue.len()
                &&& receives(
                    received_before,
                    received,
                    self.next_id(),
                    served(choices, queue),
                    served(msgs, queue),
                )
                &&& after.position() == self.position() + if self.forced().len() == 0 {
                    self.allocated()
                } else {
                    0
                }
                &&& after.forced() == if self.allocated() > 0 {
                    Seq::<bool>::empty()
                } else {
                    self.forced()
                }
            },
        }
    }

    /// Flushes pending operations using the message from the sender. The
    /// outputs are added to `outputs`.
    pub fn flush(&mut self, flush_msg: FlushMsg, outputs: &mut Vec<ROTReceiverOutput>) -> (r: Result<
        (),
        IdealROTError,
    >)
        requires
            old(self).wf(),
            old(self).position() + old(self).allocated() <= usize::MAX,
            sum(old(self).requests()) <= old(self).stock().len() + old(self).allocated(),
            old(self).next_id().0 + old(self).requests().len() <= u64::MAX,
        ensures
            final(self).wf(),
            old(self).flush_result(*final(self), flush_msg, old(outputs)@, final(outputs)@, r),
    {
        let count: usize = flush_msg.count;
        if count != self.pending {
            return Err(IdealROTError::CountMismatch { sender: count, receiver: self.pending });
        }
        let ghost new = old(self).flush_choices();
        let ghost keys_spec = generated(
            flush_msg.seed,
            flush_msg.offset as int,
            flush_msg.count as nat,
        );
        let ghost all_choices = old(self).choice_stock() + new;
        let ghost all_msgs = old(self).stock() + selected(keys_spec, new);
        if count > 0 {
            // Regenerate keys from sender's seed (same as sender)
            let keys: Vec<[Block; 2]> = generate_keys(flush_msg.seed, flush_msg.offset, count);

            // Use explicit choices if provided, otherwise generate them.
            let mut choices: Vec<bool> = Vec::new();
            if self.forced_choices.len() == 0 {
                let mut drawn: Vec<bool> = draw_bools(0, self.drawn + count);
                let skip: usize = self.drawn;
                choices = drawn.split_off(skip);
                self.drawn = self.drawn + count;
                assert(choices@ =~= new);
                assert(self.forced_choices@ =~= Seq::<bool>::empty());
            } else if self.forced_choices.len() == count {
                std::mem::swap(&mut choices, &mut self.forced_choices);
            } else {
                return Err(
                    IdealROTError::ForcedChoices { choices: self.forced_choices.len(), count },
                );
            }

            // Compute receiver's messages: msg_i = keys_i[choice_i]
            let mut msgs: Vec<Block> = Vec::with_capacity(count);
            let mut i: usize = 0;
            while i < count
                invariant
                    i <= count,
                    keys@ == keys_spec,
                    keys_spec.len() == count,
                    choices@ == new,
                    new.len() == count,
                    msgs@ == selected(keys_spec, new).take(i as int),
                decreases count - i,
            {
                let msg: Block = if choices[i] {
                    keys[i][1]
                } else {
                    keys[i][0]
                };
                msgs.push(msg);
                i = i + 1;
                assert(msgs@ =~= selected(keys_spec, new).take(i as int));
            }
            assert(selected(keys_spec, new).take(i as int) =~= selected(keys_spec, new));
            self.choices.append(&mut choices);
            self.msgs.append(&mut msgs);
            self.pending = 0;
        }
        assert(self.choices@ =~= all_choices);
        assert(self.msgs@ =~= all_msgs);
        // Fulfill queued requests
        let mut requests: Vec<usize> = Vec::new();
        std::mem::swap(&mut requests, &mut self.queue);
        let mut choice_shares: Vec<Vec<bool>> = serve(&mut self.choices, &requests);
        let mut msg_shares: Vec<Vec<Block>> = serve(&mut self.msgs, &requests);
        let ghost choice_goal = views(choice_shares@);
        let ghost msg_goal = views(msg_shares@);
        let ghost before = outputs@;
        let ghost mut i: nat = 0;
        let ghost start = *self;
        proof {
            assert(choice_goal.skip(0) =~= choice_goal);
            assert(msg_goal.skip(0) =~= msg_goal);
            assert(outputs@.take(before.len() as int) =~= before);
        }
        while choice_shares.len() > 0
            invariant
                views(choice_shares@) == choice_goal.skip(i as int),
                views(msg_shares@) == msg_goal.skip(i as int),
                choice_goal.len() == msg_goal.len(),
                i <= choice_goal.len(),
                before == old(outputs)@,
                choice_goal.len() == old(self).queue@.len(),
                old(self).next_id().0 + choice_goal.len() <= u64::MAX,
                self.transfer_id.0 == old(self).next_id().0 + i,
                *self == (IdealROTReceiver { transfer_id: self.transfer_id, ..start }),
                receives(
                    before,
                    outputs@,
                    old(self).transfer_id,
                    choice_goal.take(i as int),
                    msg_goal.take(i as int),
                ),
            decreases choice_shares@.len(),
        {
            let ghost choices_before = choice_shares@;
            let ghost msgs_before = msg_shares@;
            let ghost so_far = outputs@;
            assert(views(choice_shares@).len() == choice_shares@.len());
            assert(views(msg_shares@).len() == msg_shares@.len());
            let choices: Vec<bool> = choice_shares.remove(0);
            let msgs: Vec<Block> = msg_shares.remove(0);
            proof {
                lemma_views_step(choices_before, choice_shares@, choice_goal, i);
                lemma_views_step(msgs_before, msg_shares@, msg_goal, i);
            }
            let id: TransferId = self.transfer_id.next();
            outputs.push(ROTReceiverOutput { id, choices, msgs });
            proof {
                assert(outputs@.take(before.len() as int) =~= so_far.take(before.len() as int));
                let shown = choice_goal.take((i + 1) as int);
                let told = msg_goal.take((i + 1) as int);
                assert forall|j: int| 0 <= j < shown.len() implies {
                    let o = #[trigger] outputs@[before.len() + j];
                    &&& o.id.0 == old(self).next_id().0 + j
                    &&& o.choices@ == shown[j]
                    &&& o.msgs@ == told[j]
                } by {
                    if j < i {
                        assert(so_far[before.len() + j] == outputs@[before.len() + j]);
                        assert(choice_goal.take(i as int)[j] == shown[j]);
                        assert(msg_goal.take(i as int)[j] == told[j]);
                    }
                }
                i = i + 1;
            }
        }
        proof {
            assert(views(choice_shares@).len() == choice_shares@.len());
            assert(choice_goal.take(i as int) =~= choice_goal);
            assert(msg_goal.take(i as int) =~= msg_goal);
        }
        Ok(())
    }

    /// Allocates transfers.
    pub fn allocate(&mut self, count: usize)
        requires
            old(self).allocated() + count <= usize::MAX,
        ensures
            final(self).allocated() == old(self).allocated() + count,
            final(self).position() == old(self).position(),
            final(self).choice_stock() == old(self).choice_stock(),
            final(self).stock() == old(self).stock(),
            final(self).forced() == old(self).forced(),
            final(self).requests() == old(self).requests(),
            final(self).next_id() == old(self).next_id(),
    {
        self.pending = self.pending + count;
    }

    /// Returns the number of transfers available.
    pub fn available(&self) -> (n: usize)
        ensures
            n == self.choice_stock().len(),
    {
        self.choices.len()
    }

    /// The receiver after `count` transfers were taken from `before`.
    pub open spec fn took(self, before: Self, count: usize) -> bool {
        &&& self.choice_stock() == before.choice_stock().skip(count as int)
        &&& self.stock() == before.stock().skip(count as int)
        &&& self.next_id().0 == before.next_id().0 + 1
        &&& self.position() == before.position()
        &&& self.allocated() == before.allocated()
        &&& self.forced() == before.forced()
        &&& self.requests() == before.requests()
    }

    /// Returns transfers that are available.
    pub fn try_recv_rot(&mut self, count: usize) -> (r: Result<ROTReceiverOutput, IdealROTError>)
        requires
            old(self).wf(),
            old(self).next_id().0 < u64::MAX,
        ensures
            final(self).wf(),
            if count > old(self).choice_stock().len() {
                &&& r == Err::<ROTReceiverOutput, IdealROTError>(
                    IdealROTError::NotEnough {
                        available: old(self).choice_stock().len() as usize,
                        count,
                    },
                )
                &&& *final(self) == *old(self)
            } else {
                &&& r is Ok
                &&& r->Ok_0.id == old(self).next_id()
                &&& r->Ok_0.choices@ == old(self).choice_stock().take(count as int)
                &&& r->Ok_0.msgs@ == old(self).stock().take(count as int)
                &&& final(self).took(*old(self), count)
            },
    {
        if count > self.choices.len() {
            return Err(IdealROTError::NotEnough { available: self.choices.len(), count });
        }
        let choices: Vec<bool> = take_front(&mut self.choices, count);
        let msgs: Vec<Block> = take_front(&mut self.msgs, count);
        let id: TransferId = self.transfer_id.next();
        Ok(ROTReceiverOutput { id, choices, msgs })
    }

    /// Returns transfers if they are available, and queues the request if they
    /// are not.
    pub fn queue_recv_rot(&mut self, count: usize) -> (r: Option<ROTReceiverOutput>)
        requires
            old(self).wf(),
            old(self).next_id().0 < u64::MAX,
        ensures
            final(self).wf(),
            if count > old(self).choice_stock().len() {
                &&& r is None
                &&& final(self).requests() == old(self).requests().push(count)
                &&& final(self).choice_stock() == old(self).choice_stock()
                &&& final(self).stock() == old(self).stock()
                &&& final(self).next_id() == old(self).next_id()
                &&& final(self).allocated() == old(self).allocated()
                &&& final(self).position() == old(self).position()
                &&& final(self).forced() == old(self).forced()
            } else {
                &&& r is Some
                &&& r->Some_0.id == old(self).next_id()
                &&& r->Some_0.choices@ == old(self).choice_stock().take(count as int)
                &&& r->Some_0.msgs@ == old(self).stock().take(count as int)
                &&& final(self).took(*old(self), count)
            },
    {
        if self.choices.len() >= count {
            let choices: Vec<bool> = take_front(&mut self.choices, count);
            let msgs: Vec<Block> = take_front(&mut self.msgs, count);
            let id: TransferId = self.transfer_id.next();
            Some(ROTReceiverOutput { id, choices, msgs })
        } else {
            self.queue.push(count);
            None
        }
    }
}

/// Ideal ROT wrapper that holds both sender and receiver.
///
/// This provides a unified interface for tests where both sender and receiver
/// share state. Internally uses the message-based `IdealROTSender` and
/// `IdealROTReceiver`.
#[derive(Debug)]
pub struct IdealROT {
    /// The sender.
    pub sender: IdealROTSender,
    /// The receiver.
    pub receiver: IdealROTReceiver,
    /// What was delivered to the sender.
    pub sent: Vec<ROTSenderOutput>,
    /// What was delivered to the receiver.
    pub received: Vec<ROTReceiverOutput>,
}

impl IdealROT {
    /// The numbers that the parties count in do not overflow.
    pub open spec fn fits(self, count: nat) -> bool {
        &&& self.receiver.wf()
        &&& self.sender.allocated() + count <= usize::MAX
        &&& self.receiver.allocated() + count <= usize::MAX
        &&& self.sender.position() + self.sender.allocated() + count <= u64::MAX
        &&& self.receiver.position() + self.receiver.allocated() + count <= usize::MAX
        &&& sum(self.sender.requests()) <= self.sender.stock().len() + self.sender.allocated()
        &&& sum(self.receiver.requests()) <= self.receiver.stock().len()
            + self.receiver.allocated()
        &&& self.sender.next_id().0 + self.sender.requests().len() < u64::MAX
        &&& self.receiver.next_id().0 + self.receiver.requests().len() < u64::MAX
    }

    /// The parties agree: what the receiver has is what its choices select from
    /// what the sender has.
    pub open spec fn agrees(self) -> bool {
        agree(self.sender, self.receiver)
    }

    /// Creates a new ideal ROT functionality.
    ///
    /// # Arguments
    ///
    /// * `seed` - The seed for the PRG.
    pub fn new(seed: Block) -> (r: Self)
        ensures
            r.sender.base() == seed,
            r.sender.is_fresh(),
            r.receiver.is_fresh(),
            r.sent@ == Seq::<ROTSenderOutput>::empty(),
            r.received@ == Seq::<ROTReceiverOutput>::empty(),
            r.agrees(),
    {
        let r: IdealROT = IdealROT {
            sender: IdealROTSender::new(seed),
            receiver: IdealROTReceiver::new(),
            sent: Vec::new(),
            received: Vec::new(),
        };
        assert(r.receiver.stock() =~= selected(r.sender.stock(), r.receiver.choice_stock()));
        r
    }

    /// Sets the choices the receiver uses on the next flush instead of
    /// generating them.
    ///
    /// The length must match the number of ROTs flushed.
    pub fn set_receiver_choices(&mut self, choices: Vec<bool>)
        ensures
            final(self).sender == old(self).sender,
            final(self).sent == old(self).sent,
            final(self).received == old(self).received,
            final(self).receiver.forced() == choices@,
            final(self).receiver.position() == old(self).receiver.position(),
            final(self).receiver.allocated() == old(self).receiver.allocated(),
            final(self).receiver.choice_stock() == old(self).receiver.choice_stock(),
            final(self).receiver.stock() == old(self).receiver.stock(),
            final(self).receiver.requests() == old(self).receiver.requests(),
            final(self).receiver.next_id() == old(self).receiver.next_id(),
            old(self).agrees() ==> final(self).agrees(),
    {
        self.receiver.set_choices(choices);
    }

    /// Returns `true` if the functionality wants to be flushed.
    pub fn wants_flush(&self) -> (r: bool)
        ensures
            r == (self.sender.allocated() > 0 || self.sender.requests().len() > 0
                || self.receiver.allocated() > 0 || self.receiver.requests().len() > 0),
    {
        self.sender.wants_flush() || self.receiver.wants_flush()
    }

    /// What a flush does: the sender is flushed, and the receiver with its
    /// message, if there is one.
    pub open spec fn flushes(self, after: Self, r: Result<(), IdealROTError>) -> bool {
        &&& after.sender.flushed(self.sender, self.sent@, after.sent@)
        &&& if self.sender.allocated() == 0 && self.sender.requests().len() == 0 {
            &&& r is Ok
            &&& after.receiver == self.receiver
            &&& after.received@ == self.received@
        } else {
            self.receiver.flush_result(
                after.receiver,
                self.sender.message(),
                self.received@,
                after.received@,
                r,
            )
        }
    }

    /// The functionality after both parties have allocated transfers.
    pub open spec fn readied(self, before: Self, count: usize) -> bool {
        &&& self.sender.allocated() == before.sender.allocated() + count
        &&& self.sender.base() == before.sender.base()
        &&& self.sender.position() == before.sender.position()
        &&& self.sender.stock() == before.sender.stock()
        &&& self.sender.requests() == before.sender.requests()
        &&& self.sender.next_id() == before.sender.next_id()
        &&& self.receiver.allocated() == before.receiver.allocated() + count
        &&& self.receiver.position() == before.receiver.position()
        &&& self.receiver.choice_stock() == before.receiver.choice_stock()
        &&& self.receiver.stock() == before.receiver.stock()
        &&& self.receiver.forced() == before.receiver.forced()
        &&& self.receiver.requests() == before.receiver.requests()
        &&& self.receiver.next_id() == before.receiver.next_id()
        &&& self.sent@ == before.sent@
        &&& self.received@ == before.received@
    }

    /// What [`IdealROT::transfer`] does: both parties allocate transfers, they
    /// are flushed, and each of them takes as many.
    pub open spec fn transfers(
        self,
        ready: Self,
        flushed: Self,
        after: Self,
        count: usize,
        r: Result<(ROTSenderOutput, ROTReceiverOutput), IdealROTError>,
    ) -> bool {
        let sent = flushed.sender.stock();
        let choices = flushed.receiver.choice_stock();
        &&& ready.readied(self, count)
        &&& after.sent@ == flushed.sent@
        &&& after.received@ == flushed.received@
        &&& exists|flush: Result<(), IdealROTError>|
            {
                &&& #[trigger] ready.flushes(flushed, flush)
                &&& match flush {
                    Err(e) => {
                        &&& r == Err::<(ROTSenderOutput, ROTReceiverOutput), IdealROTError>(e)
                        &&& after == flushed
                    },
                    Ok(_) => if count > sent.len() {
                        &&& r == Err::<(ROTSenderOutput, ROTReceiverOutput), IdealROTError>(
                            IdealROTError::NotEnough { available: sent.len() as usize, count },
                        )
                        &&& after == flushed
                    } else {
                        &&& after.sender.took(flushed.sender, count)
                        &&& if count > choices.len() {
                            &&& r == Err::<(ROTSenderOutput, ROTReceiverOutput), IdealROTError>(
                                IdealROTError::NotEnough {
                                    available: choices.len() as usize,
                                    count,
                                },
                            )
                            &&& after.receiver == flushed.receiver
                        } else {
                            &&& r is Ok
                            &&& r->Ok_0.0.id == flushed.sender.next_id()
                            &&& r->Ok_0.0.keys@ == sent.take(count as int)
                            &&& r->Ok_0.1.id == flushed.receiver.next_id()
                            &&& r->Ok_0.1.choices@ == choices.take(count as int)
                            &&& r->Ok_0.1.msgs@ == flushed.receiver.stock().take(count as int)
                            &&& after.receiver.took(flushed.receiver, count)
                        }
                    },
                }
            }
    }

    /// Flushes the functionality.
    ///
    /// Internally passes the flush message from sender to receiver.
    pub fn flush(&mut self) -> (r: Result<(), IdealROTError>)
        requires
            old(self).fits(0),
        ensures
            final(self).receiver.wf(),
            old(self).flushes(*final(self), r),
            old(self).agrees() && r is Ok ==> final(self).agrees(),
    {
        if let Some(msg) = self.sender.flush(&mut self.sent) {
            let ghost sender = *self;
            let r: Result<(), IdealROTError> = self.receiver.flush(msg, &mut self.received);
            proof {
                if old(self).agrees() && r is Ok {
                    let keys = generated(
                        old(self).sender.base(),
                        old(self).sender.position() as int,
                        old(self).sender.allocated(),
                    );
                    let new = old(self).receiver.flush_choices();
                    let n = sum(old(self).sender.requests()) as int;
                    let all_keys = old(self).sender.stock() + keys;
                    let all_choices = old(self).receiver.choice_stock() + new;
                    assert(old(self).receiver.stock() + selected(keys, new) =~= selected(
                        all_keys,
                        all_choices,
                    ));
                    assert(selected(all_keys, all_choices).skip(n) =~= selected(
                        all_keys.skip(n),
                        all_choices.skip(n),
                    ));
                }
            }
            return r;
        }
        proof {
            assert(old(self).sender.requests() =~= Seq::<usize>::empty());
            assert((old(self).sender.stock() + generated(
                old(self).sender.base(),
                old(self).sender.position() as int,
                0,
            )).skip(0) =~= old(self).sender.stock());
        }
        Ok(())
    }

    /// Returns `count` random ROTs.
    pub fn transfer(&mut self, count: usize) -> (r: Result<
        (ROTSenderOutput, ROTReceiverOutput),
        IdealROTError,
    >)
        requires
            old(self).fits(count as nat),
        ensures
            final(self).receiver.wf(),
            exists|ready: IdealROT, flushed: IdealROT| #[trigger]
                old(self).transfers(ready, flushed, *final(self), count, r),
            old(self).agrees() && r is Ok ==> {
                &&& final(self).agrees()
                &&& r->Ok_0.0.id == r->Ok_0.1.id
                &&& r->Ok_0.0.keys@.len() == count
                &&& r->Ok_0.1.choices@.len() == count
                &&& r->Ok_0.1.msgs@ == selected(r->Ok_0.0.keys@, r->Ok_0.1.choices@)
            },
            old(self).agrees() && (old(self).receiver.forced().len() == 0 || old(
                self).receiver.forced().len() == old(self).receiver.allocated() + count) && sum(
                old(self).sender.requests(),
            ) <= old(self).sender.stock().len() + old(self).sender.allocated() ==> r is Ok,
    {
        self.sender.allocate(count);
        self.receiver.allocate(count);
        let ghost ready = *self;
        proof {
            assert(old(self).agrees() ==> self.agrees());
        }
        let flush: Result<(), IdealROTError> = self.flush();
        let ghost flushed = *self;
        assert(ready.flushes(flushed, flush));
        assert(ready.readied(*old(self), count));
        match flush {
            Ok(()) => {},
            Err(e) => {
                assert(old(self).transfers(ready, flushed, *self, count, Err(e)));
                return Err(e);
            },
        }
        let sent: ROTSenderOutput = match self.sender.try_send_rot(count) {
            Ok(sent) => sent,
            Err(e) => {
                assert(old(self).transfers(ready, flushed, *self, count, Err(e)));
                return Err(e);
            },
        };
        let received: ROTReceiverOutput = match self.receiver.try_recv_rot(count) {
            Ok(received) => received,
            Err(e) => {
                assert(old(self).transfers(ready, flushed, *self, count, Err(e)));
                return Err(e);
            },
        };
        assert(old(self).transfers(ready, flushed, *self, count, Ok((sent, received))));
        proof {
            if flushed.agrees() {
                let keys = flushed.sender.stock();
                let choices = flushed.receiver.choice_stock();
                let n = count as int;
                assert(selected(keys, choices).take(n) =~= selected(keys.take(n), choices.take(n)));
                assert(selected(keys, choices).skip(n) =~= selected(keys.skip(n), choices.skip(n)));
            }
        }
        Ok((sent, received))
    }
}

/// The parties agree: what the receiver has is what its choices select from
/// what the sender has.
pub open spec fn agree(s: IdealROTSender, r: IdealROTReceiver) -> bool {
    &&& s.allocated() == r.allocated()
    &&& s.requests() == r.requests()
    &&& s.next_id() == r.next_id()
    &&& r.choice_stock().len() == s.stock().len()
    &&& r.stock() == selected(s.stock(), r.choice_stock())
}

/// Parties that agree still do after the sender is flushed and the receiver
/// with its message, and each request that is served then is a transfer: both
/// parties number it alike, and the receiver gets what its choices select from
/// what the sender gets.
pub proof fn lemma_flush(
    s: (IdealROTSender, IdealROTSender),
    sent: (Seq<ROTSenderOutput>, Seq<ROTSenderOutput>),
    r: (IdealROTReceiver, IdealROTReceiver),
    received: (Seq<ROTReceiverOutput>, Seq<ROTReceiverOutput>),
)
    requires
        agree(s.0, r.0),
        sum(s.0.requests()) <= s.0.stock().len() + s.0.allocated(),
        s.1.flushed(s.0, sent.0, sent.1),
        r.0.flush_result(r.1, s.0.message(), received.0, received.1, Ok(())),
    ensures
        agree(s.1, r.1),
        sent.1.len() == sent.0.len() + s.0.requests().len(),
        received.1.len() == received.0.len() + s.0.requests().len(),
        forall|i: int|
            0 <= i < s.0.requests().len() ==> {
                let a = #[trigger] sent.1[sent.0.len() + i];
                let b = received.1[received.0.len() + i];
                &&& a.id == b.id
                &&& a.keys@.len() == s.0.requests()[i]
                &&& b.choices@.len() == s.0.requests()[i]
                &&& b.msgs@ == selected(a.keys@, b.choices@)
            },
{
    let queue = s.0.requests();
    let n = sum(queue) as int;
    let new = r.0.flush_choices();
    let extra = generated(s.0.base(), s.0.position() as int, s.0.allocated());
    let keys = s.0.stock() + extra;
    let choices = r.0.choice_stock() + new;
    assert(r.0.flush_error(s.0.message().count) is None);
    assert(r.0.stock() + selected(extra, new) =~= selected(keys, choices));
    assert(selected(keys, choices).skip(n) =~= selected(keys.skip(n), choices.skip(n)));
    lemma_served_selected(keys, choices, queue);
    assert forall|i: int| 0 <= i < queue.len() implies {
        let a = #[trigger] sent.1[sent.0.len() + i];
        let b = received.1[received.0.len() + i];
        &&& a.id == b.id
        &&& a.keys@.len() == queue[i]
        &&& b.choices@.len() == queue[i]
        &&& b.msgs@ == selected(a.keys@, b.choices@)
    } by {
        let a = sent.1[sent.0.len() + i];
        let b = received.1[received.0.len() + i];
        assert(served_alike(keys, choices, queue, i));
        assert(a.keys@ == served(keys, queue)[i]);
        assert(b.choices@ == served(choices, queue)[i]);
    }
}

/// Request number `i` gets as many keys as choices, and what the choices
/// select from the keys.
spec fn served_alike(
    keys: Seq<[Block; 2]>,
    choices: Seq<bool>,
    queue: Seq<usize>,
    i: int,
) -> bool {
    let k = served(keys, queue)[i];
    let c = served(choices, queue)[i];
    &&& k.len() == queue[i]
    &&& c.len() == queue[i]
    &&& served(selected(keys, choices), queue)[i] == selected(k, c)
}

proof fn lemma_served_selected(keys: Seq<[Block; 2]>, choices: Seq<bool>, queue: Seq<usize>)
    requires
        keys.len() == choices.len(),
        sum(queue) <= keys.len(),
    ensures
        served(keys, queue).len() == queue.len(),
        served(choices, queue).len() == queue.len(),
        served(selected(keys, choices), queue).len() == queue.len(),
        forall|i: int|
            0 <= i < queue.len() ==> #[trigger] served_alike(keys, choices, queue, i),
    decreases queue.len(),
{
    if queue.len() > 0 {
        let n = queue[0] as int;
        let rest = queue.skip(1);
        let msgs = selected(keys, choices);
        lemma_served_selected(keys.skip(n), choices.skip(n), rest);
        assert(msgs.skip(n) =~= selected(keys.skip(n), choices.skip(n)));
        assert(msgs.take(n) =~= selected(keys.take(n), choices.take(n)));
        assert forall|i: int| 0 <= i < queue.len() implies #[trigger] served_alike(
            keys,
            choices,
            queue,
            i,
        ) by {
            if i > 0 {
                assert(served_alike(keys.skip(n), choices.skip(n), rest, i - 1));
                assert(served(keys, queue)[i] == served(keys.skip(n), rest)[i - 1]);
                assert(served(choices, queue)[i] == served(choices.skip(n), rest)[i - 1]);
                assert(served(msgs, queue)[i] == served(msgs.skip(n), rest)[i - 1]);
                assert(rest[i - 1] == queue[i]);
            }
        }
    }
}

/// Some sequences, one after another.
pub open spec fn in_a_row<T>(parts: Seq<Seq<T>>) -> Seq<T>
    decreases parts.len(),
{
    if parts.len() == 0 {
        Seq::empty()
    } else {
        in_a_row(parts.drop_last()) + parts.last()
    }
}

/// The keys of pair `i` of what is generated from an offset on: its number in the
/// whole sequence, times three, and one more for the second key, added to the
/// seed.
pub proof fn lemma_generated(seed: Block, offset: u64, count: nat, i: int)
    requires
        0 <= i < count,
        offset + count <= u64::MAX,
    ensures
        generated(seed, offset as int, count).len() == count,
        (generated(seed, offset as int, count)[i]@[0].0 - seed.0 - 3 * (offset + i)) % (u128::MAX
            + 1) == 0,
        (generated(seed, offset as int, count)[i]@[1].0 - seed.0 - 3 * (offset + i) - 1) % (
        u128::MAX + 1) == 0,
{
    lemma_place(seed, 3 * (offset + i));
    lemma_place(seed, 3 * (offset + i) + 1);
}

proof fn lemma_place(base: Block, n: int)
    requires
        0 <= n < u128::MAX,
    ensures
        (place(base, n).0 - base.0 - n) % (u128::MAX + 1) == 0,
{
    let m: int = u128::MAX + 1;
    if base.0 + n < m {
        assert((base.0 + n) % m == base.0 + n);
    } else {
        assert((base.0 + n) % m == base.0 + n - m) by (nonlinear_arith)
            requires
                m <= base.0 + n < 2 * m,
        ;
        assert((-m) % m == 0) by (nonlinear_arith)
            requires
                m > 0,
        ;
    }
}

/// No key of a sender is generated twice, whatever the offsets: two keys at
/// different numbers in the sequence, or the two at the same number, differ.
pub proof fn lemma_distinct(seed: Block, i: u64, a: int, j: u64, b: int)
    requires
        0 <= a < 2,
        0 <= b < 2,
        i != j || a != b,
    ensures
        generated(seed, i as int, 1)[0]@[a] != generated(seed, j as int, 1)[0]@[b],
{
    let x = 3 * i + a;
    let y = 3 * j + b;
    let m: int = u128::MAX + 1;
    assert(x != y);
    assert(generated(seed, i as int, 1)[0] == key_pair(seed, i as int));
    assert(generated(seed, j as int, 1)[0] == key_pair(seed, j as int));
    if place(seed, x) == place(seed, y) {
        assert((seed.0 + x) % m == (seed.0 + y) % m);
        assert(false) by (nonlinear_arith)
            requires
                (seed.0 + x) % m == (seed.0 + y) % m,
                0 <= x < m,
                0 <= y < m,
                x != y,
                m > 0,
        ;
    }
}

proof fn lemma_sum_take(queue: Seq<usize>, i: int)
    requires
        0 <= i < queue.len(),
    ensures
        sum(queue.take(i + 1)) == sum(queue.take(i)) + queue[i],
        sum(queue.take(0)) == 0,
        sum(queue.take(i + 1)) <= sum(queue),
    decreases queue.len(),
{
    assert(queue.take(i + 1).skip(1) =~= queue.skip(1).take(i));
    if i > 0 {
        assert(queue.take(i).skip(1) =~= queue.skip(1).take(i - 1));
        lemma_sum_take(queue.skip(1), i - 1);
    } else {
        assert(queue.skip(1).take(0) =~= Seq::<usize>::empty());
        assert(queue.take(0) =~= Seq::<usize>::empty());
    }
}

/// Requests are served in order, from the front: what request `i` gets starts
/// where all requests before it together end.
pub proof fn lemma_served_at<T>(items: Seq<T>, queue: Seq<usize>, i: int)
    requires
        0 <= i < queue.len(),
        sum(queue) <= items.len(),
    ensures
        served(items, queue).len() == queue.len(),
        served(items, queue)[i].len() == queue[i],
        served(items, queue)[i] == items.subrange(
            sum(queue.take(i)) as int,
            sum(queue.take(i)) + queue[i],
        ),
        0 <= sum(queue.take(i)) + queue[i] <= items.len(),
    decreases queue.len(),
{
    lemma_sum_take(queue, i);
    let n = queue[0] as int;
    let rest = queue.skip(1);
    if i == 0 {
        assert(items.subrange(0, n) =~= items.take(n));
        if rest.len() > 0 {
            lemma_served_at(items.skip(n), rest, 0);
        }
    } else {
        lemma_served_at(items.skip(n), rest, i - 1);
        assert(queue.take(i).skip(1) =~= rest.take(i - 1));
        let start = sum(rest.take(i - 1)) as int;
        assert(items.skip(n).subrange(start, start + queue[i]) =~= items.subrange(
            n + start,
            n + start + queue[i],
        ));
    }
}

proof fn lemma_served_row<T>(items: Seq<T>, queue: Seq<usize>, i: int)
    requires
        0 <= i <= queue.len(),
        sum(queue) <= items.len(),
    ensures
        served(items, queue).len() == queue.len(),
        sum(queue.take(i)) <= items.len(),
        in_a_row(served(items, queue).take(i)) == items.take(sum(queue.take(i)) as int),
    decreases i,
{
    let parts = served(items, queue);
    if i == 0 {
        assert(queue.take(0) =~= Seq::<usize>::empty());
        assert(parts.take(0) =~= Seq::<Seq<T>>::empty());
        if queue.len() > 0 {
            lemma_served_at(items, queue, 0);
        }
        assert(items.take(0) =~= Seq::<T>::empty());
    } else {
        lemma_served_row(items, queue, i - 1);
        lemma_served_at(items, queue, i - 1);
        lemma_sum_take(queue, i - 1);
        assert(parts.take(i).drop_last() =~= parts.take(i - 1));
        let start = sum(queue.take(i - 1)) as int;
        assert(items.take(start) + items.subrange(start, start + queue[i - 1]) =~= items.take(
            start + queue[i - 1],
        ));
    }
}

proof fn lemma_row_grows<T>(before: Seq<Seq<T>>, after: Seq<Seq<T>>, parts: Seq<Seq<T>>, i: int)
    requires
        after.len() == before.len() + parts.len(),
        after.take(before.len() as int) == before,
        forall|k: int| 0 <= k < parts.len() ==> #[trigger] after[before.len() + k] == parts[k],
        0 <= i <= parts.len(),
    ensures
        in_a_row(after.take(before.len() + i)) == in_a_row(before) + in_a_row(parts.take(i)),
    decreases i,
{
    if i == 0 {
        assert(parts.take(0) =~= Seq::<Seq<T>>::empty());
        assert(in_a_row(before) + Seq::<T>::empty() =~= in_a_row(before));
    } else {
        lemma_row_grows(before, after, parts, i - 1);
        assert(after.take(before.len() + i).drop_last() =~= after.take(before.len() + i - 1));
        assert(after[before.len() + (i - 1)] == parts[i - 1]);
        assert(parts.take(i).drop_last() =~= parts.take(i - 1));
        assert(in_a_row(before) + (in_a_row(parts.take(i - 1)) + parts[i - 1]) =~= (in_a_row(before)
            + in_a_row(parts.take(i - 1))) + parts[i - 1]);
    }
}

/// What was handed out by a flush and what is then in stock, in a row, is what
/// was there before and what was added.
proof fn lemma_flush_row<T>(
    before: Seq<Seq<T>>,
    after: Seq<Seq<T>>,
    items: Seq<T>,
    queue: Seq<usize>,
)
    requires
        sum(queue) <= items.len(),
        after.len() == before.len() + queue.len(),
        after.take(before.len() as int) == before,
        forall|k: int|
            0 <= k < queue.len() ==> #[trigger] after[before.len() + k] == served(items, queue)[k],
    ensures
        in_a_row(after) + items.skip(sum(queue) as int) == in_a_row(before) + items,
{
    let parts = served(items, queue);
    let n = queue.len() as int;
    lemma_served_row(items, queue, n);
    lemma_row_grows(before, after, parts, n);
    assert(queue.take(n) =~= queue);
    assert(parts.take(n) =~= parts);
    assert(after.take(before.len() + n) =~= after);
    let s = sum(queue) as int;
    assert((in_a_row(before) + items.take(s)) + items.skip(s) =~= in_a_row(before) + items);
}

/// The keys of some outputs.
pub open spec fn keys_of(outputs: Seq<ROTSenderOutput>) -> Seq<Seq<[Block; 2]>> {
    outputs.map_values(|o: ROTSenderOutput| o.keys@)
}

/// The choices of some outputs.
pub open spec fn choices_of(outputs: Seq<ROTReceiverOutput>) -> Seq<Seq<bool>> {
    outputs.map_values(|o: ROTReceiverOutput| o.choices@)
}

/// What a sender has handed out and what it has in stock are, in this order, the
/// pairs of its seed from the first one on, as many as were flushed.
pub open spec fn in_sequence(s: IdealROTSender, outputs: Seq<ROTSenderOutput>) -> bool {
    in_a_row(keys_of(outputs)) + s.stock() == generated(s.base(), 0, s.position())
}

/// A sender that hands out its sequence still does after a flush: the pairs that
/// are added go on where the last ones ended, so that none comes twice and none
/// is left out.
pub proof fn lemma_sequence_flush(
    s: (IdealROTSender, IdealROTSender),
    sent: (Seq<ROTSenderOutput>, Seq<ROTSenderOutput>),
)
    requires
        in_sequence(s.0, sent.0),
        sum(s.0.requests()) <= s.0.stock().len() + s.0.allocated(),
        s.1.flushed(s.0, sent.0, sent.1),
    ensures
        in_sequence(s.1, sent.1),
        s.1.base() == s.0.base(),
        s.1.position() == s.0.position() + s.0.allocated(),
{
    let p = s.0.position();
    let n = s.0.allocated();
    let items = s.0.stock() + generated(s.0.base(), p as int, n);
    let before = keys_of(sent.0);
    let after = keys_of(sent.1);
    lemma_served_row(items, s.0.requests(), 0);
    assert(after.take(before.len() as int) =~= before) by {
        assert(sent.1.take(sent.0.len() as int) == sent.0);
        assert forall|k: int| 0 <= k < before.len() implies after[k] == before[k] by {
            assert(sent.1.take(sent.0.len() as int)[k] == sent.1[k]);
        }
    }
    assert forall|k: int| 0 <= k < s.0.requests().len() implies #[trigger] after[before.len() + k]
        == served(items, s.0.requests())[k] by {
        assert(after[before.len() + k] == sent.1[sent.0.len() + k].keys@);
    }
    lemma_flush_row(before, after, items, s.0.requests());
    assert(in_a_row(before) + items =~= (in_a_row(before) + s.0.stock()) + generated(
        s.0.base(),
        p as int,
        n,
    ));
    assert(generated(s.0.base(), 0, p) + generated(s.0.base(), p as int, n) =~= generated(
        s.0.base(),
        0,
        p + n,
    ));
}

/// A sender that hands out its sequence still does after it hands out pairs at
/// once.
pub proof fn lemma_sequence_took(
    s: (IdealROTSender, IdealROTSender),
    sent: Seq<ROTSenderOutput>,
    output: ROTSenderOutput,
    count: usize,
)
    requires
        in_sequence(s.0, sent),
        count <= s.0.stock().len(),
        output.keys@ == s.0.stock().take(count as int),
        s.1.took(s.0, count),
    ensures
        in_sequence(s.1, sent.push(output)),
        s.1.position() == s.0.position(),
{
    let c = count as int;
    assert(keys_of(sent.push(output)).drop_last() =~= keys_of(sent));
    assert(keys_of(sent.push(output)).last() == output.keys@);
    assert((in_a_row(keys_of(sent)) + s.0.stock().take(c)) + s.0.stock().skip(c) =~= in_a_row(
        keys_of(sent),
    ) + s.0.stock());
}

/// The choices that a receiver hands out come in order. Choices that were set are
/// those of the transfers of the next flush, and of no other; otherwise the next
/// ones of the generator are drawn.
pub proof fn lemma_choices_flush(
    r: (IdealROTReceiver, IdealROTReceiver),
    msg: FlushMsg,
    received: (Seq<ROTReceiverOutput>, Seq<ROTReceiverOutput>),
)
    requires
        r.0.wf(),
        sum(r.0.requests()) <= r.0.stock().len() + r.0.allocated(),
        r.0.allocated() > 0,
        r.0.flush_result(r.1, msg, received.0, received.1, Ok(())),
    ensures
        in_a_row(choices_of(received.1)) + r.1.choice_stock() == in_a_row(choices_of(received.0))
            + r.0.choice_stock() + if r.0.forced().len() > 0 {
            r.0.forced()
        } else {
            chacha8_bools(0, r.0.position() + r.0.allocated()).skip(r.0.position() as int)
        },
        r.1.forced().len() == 0,
        r.0.forced().len() == 0 ==> r.1.position() == r.0.position() + r.0.allocated(),
        r.0.forced().len() > 0 ==> r.1.position() == r.0.position(),
{
    let new = r.0.flush_choices();
    let items = r.0.choice_stock() + new;
    let before = choices_of(received.0);
    let after = choices_of(received.1);
    lemma_served_row(items, r.0.requests(), 0);
    assert(after.take(before.len() as int) =~= before) by {
        assert(received.1.take(received.0.len() as int) == received.0);
        assert forall|k: int| 0 <= k < before.len() implies after[k] == before[k] by {
            assert(received.1.take(received.0.len() as int)[k] == received.1[k]);
        }
    }
    assert forall|k: int| 0 <= k < r.0.requests().len() implies #[trigger] after[before.len() + k]
        == served(items, r.0.requests())[k] by {
        assert(after[before.len() + k] == received.1[received.0.len() + k].choices@);
    }
    lemma_flush_row(before, after, items, r.0.requests());
    assert(in_a_row(before) + items =~= in_a_row(before) + r.0.choice_stock() + new);
}

} // verus!
