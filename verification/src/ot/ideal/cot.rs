//! Ideal Correlated Oblivious Transfer functionality.
//!
//! Two implementations are provided:
//!
//! 1. **`IdealCOTSender`/`IdealCOTReceiver`** (message-based): Separate sender
//!    and receiver types communicating via `FlushMsg`.
//!
//! 2. **`IdealCOT`** wrapper: Holds both sender and receiver, provides unified
//!    interface for tests.
//!
//! A flush delivers the outputs of the queued transfers in the order in which
//! they were queued.
use crate::block::{lemma_xor, Block};
use crate::ot::TransferId;
use crate::slices::copied;
use vstd::prelude::*;

verus! {

/// Output of the sender.
#[derive(Clone, Copy, Debug, PartialEq, Eq, Structural)]
pub struct COTSenderOutput {
    /// The number of the transfer.
    pub id: TransferId,
}

/// Output of the receiver.
#[derive(Clone, Debug)]
pub struct COTReceiverOutput {
    /// The number of the transfer.
    pub id: TransferId,
    /// The chosen messages.
    pub msgs: Vec<Block>,
}

/// Message sent from sender to receiver during flush.
#[derive(Clone, Debug)]
pub struct FlushMsg {
    /// Global correlation key.
    pub delta: Block,
    /// Queued key batches with their counts.
    pub batches: Vec<FlushBatch>,
}

/// A batch of keys from one queue_send_cot call.
#[derive(Clone, Debug)]
pub struct FlushBatch {
    /// Number of keys in this batch.
    pub count: usize,
    /// The keys.
    pub keys: Vec<Block>,
}

/// Ideal COT error.
#[derive(Clone, Copy, Debug, PartialEq, Eq, Structural)]
pub enum IdealCOTError {
    /// The parties have queued different numbers of batches.
    BatchCountMismatch {
        /// Batches of the sender.
        sender: usize,
        /// Batches of the receiver.
        receiver: usize,
    },
    /// The parties have queued batches of different lengths.
    CountMismatch {
        /// Keys of the sender.
        sender: usize,
        /// Choices of the receiver.
        receiver: usize,
    },
}

/// The messages of a batch: the key, to which `delta` is added where the choice
/// is set.
pub open spec fn chosen(keys: Seq<Block>, choices: Seq<bool>, delta: Block) -> Seq<Block> {
    Seq::new(
        if keys.len() < choices.len() {
            keys.len()
        } else {
            choices.len()
        },
        |i: int|
            if choices[i] {
                Block(keys[i].0 ^ delta.0)
            } else {
                keys[i]
            },
    )
}

/// The number of leading batches for which the counts are equal.
pub open spec fn matching(counts: Seq<nat>, choices: Seq<Seq<bool>>) -> nat
    decreases counts.len(),
{
    if counts.len() == 0 || choices.len() == 0 || counts[0] != choices[0].len() {
        0
    } else {
        1 + matching(counts.skip(1), choices.skip(1))
    }
}

/// The counts of batches.
pub open spec fn counts_of(batches: Seq<FlushBatch>) -> Seq<nat> {
    batches.map_values(|b: FlushBatch| b.count as nat)
}

/// The lengths of batches of keys.
pub open spec fn sizes_of(keys: Seq<Seq<Block>>) -> Seq<nat> {
    keys.map_values(|k: Seq<Block>| k.len())
}

/// The sum of the lengths.
pub open spec fn lengths<T>(batches: Seq<Seq<T>>) -> nat
    decreases batches.len(),
{
    if batches.len() == 0 {
        0
    } else {
        lengths(batches.drop_last()) + batches.last().len()
    }
}

proof fn lemma_lengths_mono<T>(batches: Seq<Seq<T>>, i: int, j: int)
    requires
        0 <= i <= j <= batches.len(),
    ensures
        lengths(batches.take(i)) <= lengths(batches.take(j)),
    decreases j,
{
    if i < j {
        lemma_lengths_mono(batches, i, j - 1);
        assert(batches.take(j).drop_last() =~= batches.take(j - 1));
    }
}

/// Returns the sum of the lengths of some vectors.
fn total_length<T>(batches: &Vec<Vec<T>>) -> (n: usize)
    requires
        lengths(views(batches@)) <= usize::MAX,
    ensures
        n == lengths(views(batches@)),
{
    let ghost all = views(batches@);
    let mut n: usize = 0;
    let mut i: usize = 0;
    assert(all.take(0) =~= Seq::<Seq<T>>::empty());
    while i < batches.len()
        invariant
            all == views(batches@),
            lengths(all) <= usize::MAX,
            i <= batches@.len(),
            n == lengths(all.take(i as int)),
        decreases batches@.len() - i,
    {
        proof {
            assert(all.take(i + 1).drop_last() =~= all.take(i as int));
            lemma_lengths_mono(all, i + 1, all.len() as int);
            assert(all.take(all.len() as int) =~= all);
        }
        n = n + batches[i].len();
        i = i + 1;
    }
    assert(all.take(i as int) =~= all);
    n
}

/// What some vectors hold.
pub open spec fn views<T>(batches: Seq<Vec<T>>) -> Seq<Seq<T>> {
    batches.map_values(|v: Vec<T>| v@)
}

/// Returns a new ideal COT sender and receiver.
pub fn ideal_cot(delta: Block) -> (r: (IdealCOTSender, IdealCOTReceiver))
    ensures
        r.0.correlation() == delta,
        r.0.queued() == Seq::<Seq<Block>>::empty(),
        r.0.next_id() == TransferId(0),
        r.1.queued() == Seq::<Seq<bool>>::empty(),
        r.1.next_id() == TransferId(0),
{
    (IdealCOTSender::new(delta), IdealCOTReceiver::new())
}

/// Ideal COT sender (message-based).
#[derive(Debug)]
pub struct IdealCOTSender {
    /// Global correlation key.
    delta: Block,
    /// Transfer ID counter.
    transfer_id: TransferId,
    /// Queued key batches.
    batches: Vec<Vec<Block>>,
}

impl IdealCOTSender {
    /// The global correlation key.
    pub closed spec fn correlation(self) -> Block {
        self.delta
    }

    /// The queued batches of keys.
    pub closed spec fn queued(self) -> Seq<Seq<Block>> {
        views(self.batches@)
    }

    /// The number of the next transfer.
    pub closed spec fn next_id(self) -> TransferId {
        self.transfer_id
    }

    /// Creates a new sender with the given delta.
    pub fn new(delta: Block) -> (r: Self)
        ensures
            r.correlation() == delta,
            r.queued() == Seq::<Seq<Block>>::empty(),
            r.next_id() == TransferId(0),
    {
        let r: IdealCOTSender = IdealCOTSender {
            delta,
            transfer_id: TransferId(0),
            batches: Vec::new(),
        };
        assert(r.queued() =~= Seq::<Seq<Block>>::empty());
        r
    }

    /// Returns `true` if the sender wants to be flushed.
    pub fn wants_flush(&self) -> (r: bool)
        ensures
            r == (self.queued().len() > 0),
    {
        self.batches.len() > 0
    }

    /// Flushes pending operations, returning the message to send to receiver.
    /// The outputs are added to `outputs`.
    ///
    /// Returns `None` if there's nothing to flush.
    pub fn flush(&mut self, outputs: &mut Vec<COTSenderOutput>) -> (r: Option<FlushMsg>)
        requires
            old(self).next_id().0 + old(self).queued().len() <= u64::MAX,
        ensures
            final(self).correlation() == old(self).correlation(),
            final(self).queued() == Seq::<Seq<Block>>::empty(),
            final(self).next_id().0 == old(self).next_id().0 + old(self).queued().len(),
            final(outputs)@ == old(outputs)@ + Seq::new(
                old(self).queued().len(),
                |i: int| COTSenderOutput { id: TransferId((old(self).next_id().0 + i) as u64) },
            ),
            r is None <==> old(self).queued().len() == 0,
            r is Some ==> {
                &&& r->Some_0.delta == old(self).correlation()
                &&& r->Some_0.batches@.len() == old(self).queued().len()
                &&& forall|i: int|
                    0 <= i < old(self).queued().len() ==> {
                        &&& (#[trigger] r->Some_0.batches@[i]).keys@ == old(self).queued()[i]
                        &&& r->Some_0.batches@[i].count == old(self).queued()[i].len()
                    }
            },
    {
        let ghost all = self.queued();
        if self.batches.len() == 0 {
            assert(outputs@ =~= old(outputs)@ + Seq::new(
                all.len(),
                |i: int| COTSenderOutput { id: TransferId((old(self).next_id().0 + i) as u64) },
            ));
            assert(self.queued() =~= Seq::<Seq<Block>>::empty());
            return None;
        }
        // Take ownership of batches (no clone)
        let mut taken: Vec<Vec<Block>> = Vec::new();
        std::mem::swap(&mut taken, &mut self.batches);
        let mut flush_batches: Vec<FlushBatch> = Vec::with_capacity(taken.len());
        let ghost mut i: nat = 0;
        proof {
            assert(views(self.batches@) =~= Seq::<Seq<Block>>::empty());
            assert(all.skip(0) =~= all);
            assert(outputs@ =~= old(outputs)@ + Seq::new(
                0,
                |j: int| COTSenderOutput { id: TransferId((old(self).next_id().0 + j) as u64) },
            ));
        }
        while taken.len() > 0
            invariant
                all == old(self).queued(),
                i <= all.len(),
                views(taken@) == all.skip(i as int),
                old(self).next_id().0 + all.len() <= u64::MAX,
                self.transfer_id.0 == old(self).next_id().0 + i,
                self.delta == old(self).delta,
                self.queued() == Seq::<Seq<Block>>::empty(),
                outputs@ == old(outputs)@ + Seq::new(
                    i,
                    |j: int| COTSenderOutput { id: TransferId((old(self).next_id().0 + j) as u64) },
                ),
                flush_batches@.len() == i,
                forall|j: int|
                    0 <= j < i ==> {
                        &&& (#[trigger] flush_batches@[j]).keys@ == all[j]
                        &&& flush_batches@[j].count == all[j].len()
                    },
            decreases taken@.len(),
        {
            assert(views(taken@).len() == taken@.len());
            assert(views(taken@)[0] == taken@[0]@);
            assert(all.skip(i as int)[0] == all[i as int]);
            let ghost before = taken@;
            let keys: Vec<Block> = taken.remove(0);
            proof {
                let rest = all.skip((i + 1) as int);
                assert forall|k: int| 0 <= k < rest.len() implies views(taken@)[k] == rest[k] by {
                    assert(taken@[k] == before[k + 1]);
                    assert(views(before)[k + 1] == all.skip(i as int)[k + 1]);
                }
                assert(views(taken@) =~= rest);
            }
            flush_batches.push(FlushBatch { count: keys.len(), keys });
            let id: TransferId = self.transfer_id.next();
            outputs.push(COTSenderOutput { id });
            proof {
                i = i + 1;
                assert(outputs@ =~= old(outputs)@ + Seq::new(
                    i,
                    |j: int| COTSenderOutput { id: TransferId((old(self).next_id().0 + j) as u64) },
                ));
            }
        }
        Some(FlushMsg { delta: self.delta, batches: flush_batches })
    }

    /// Returns the number of transfers that are queued.
    pub fn available(&self) -> (n: usize)
        requires
            lengths(self.queued()) <= usize::MAX,
        ensures
            n == lengths(self.queued()),
    {
        total_length(&self.batches)
    }

    /// Returns the global correlation key.
    pub fn delta(&self) -> (r: Block)
        ensures
            r == self.correlation(),
    {
        self.delta
    }

    /// Queues a batch of keys.
    pub fn queue_send_cot(&mut self, keys: &[Block])
        ensures
            final(self).correlation() == old(self).correlation(),
            final(self).next_id() == old(self).next_id(),
            final(self).queued() == old(self).queued().push(keys@),
    {
        let batch: Vec<Block> = copied(keys);
        self.batches.push(batch);
        assert(self.queued() =~= old(self).queued().push(keys@));
    }
}

/// Ideal COT receiver (message-based).
#[derive(Debug)]
pub struct IdealCOTReceiver {
    /// Transfer ID counter.
    transfer_id: TransferId,
    /// Queued choice batches.
    batches: Vec<Vec<bool>>,
}

impl Default for IdealCOTReceiver {
    fn default() -> (r: Self)
        ensures
            r.queued() == Seq::<Seq<bool>>::empty(),
            r.next_id() == TransferId(0),
    {
        IdealCOTReceiver::new()
    }
}

impl IdealCOTReceiver {
    /// The queued batches of choices.
    pub closed spec fn queued(self) -> Seq<Seq<bool>> {
        views(self.batches@)
    }

    /// The number of the next transfer.
    pub closed spec fn next_id(self) -> TransferId {
        self.transfer_id
    }

    /// Creates a new receiver.
    pub fn new() -> (r: Self)
        ensures
            r.queued() == Seq::<Seq<bool>>::empty(),
            r.next_id() == TransferId(0),
    {
        let r: IdealCOTReceiver = IdealCOTReceiver {
            transfer_id: TransferId(0),
            batches: Vec::new(),
        };
        assert(r.queued() =~= Seq::<Seq<bool>>::empty());
        r
    }

    /// Returns `true` if the receiver wants to be flushed.
    pub fn wants_flush(&self) -> (r: bool)
        ensures
            r == (self.queued().len() > 0),
    {
        self.batches.len() > 0
    }

    /// Flushes pending operations using the message from the sender. The
    /// outputs are added to `outputs`, up to the first batch of which the count
    /// is wrong.
    pub fn flush(&mut self, flush_msg: FlushMsg, outputs: &mut Vec<COTReceiverOutput>) -> (r: Result<
        (),
        IdealCOTError,
    >)
        requires
            old(self).next_id().0 + old(self).queued().len() <= u64::MAX,
        ensures
            ({
                let batches = flush_msg.batches@;
                let choices = old(self).queued();
                let n = matching(counts_of(batches), choices);
                if batches.len() != choices.len() {
                    &&& r == Err::<(), IdealCOTError>(
                        IdealCOTError::BatchCountMismatch {
                            sender: batches.len() as usize,
                            receiver: choices.len() as usize,
                        },
                    )
                    &&& *final(self) == *old(self)
                    &&& final(outputs)@ == old(outputs)@
                } else {
                    &&& final(self).queued() == Seq::<Seq<bool>>::empty()
                    &&& final(self).next_id().0 == old(self).next_id().0 + n
                    &&& final(outputs)@.len() == old(outputs)@.len() + n
                    &&& final(outputs)@.take(old(outputs)@.len() as int) == old(outputs)@
                    &&& forall|i: int|
                        0 <= i < n ==> {
                            let o = #[trigger] final(outputs)@[old(outputs)@.len() + i];
                            &&& o.id.0 == old(self).next_id().0 + i
                            &&& o.msgs@ == chosen(batches[i].keys@, choices[i], flush_msg.delta)
                        }
                    &&& n == batches.len() ==> r is Ok
                    &&& n < batches.len() ==> r == Err::<(), IdealCOTError>(
                        IdealCOTError::CountMismatch {
                            sender: batches[n as int].count,
                            receiver: choices[n as int].len() as usize,
                        },
                    )
                }
            }),
    {
        if flush_msg.batches.len() != self.batches.len() {
            return Err(
                IdealCOTError::BatchCountMismatch {
                    sender: flush_msg.batches.len(),
                    receiver: self.batches.len(),
                },
            );
        }
        let delta: Block = flush_msg.delta;
        let batches: Vec<FlushBatch> = flush_msg.batches;
        let mut taken: Vec<Vec<bool>> = Vec::new();
        std::mem::swap(&mut taken, &mut self.batches);
        let ghost choices = views(taken@);
        let ghost counts = counts_of(batches@);
        let ghost n = matching(counts, choices);
        let ghost before = outputs@;
        let mut i: usize = 0;
        proof {
            assert(views(self.batches@) =~= Seq::<Seq<bool>>::empty());
            assert(counts.skip(0) =~= counts);
            lemma_matching_bound(counts, choices);
            assert(choices.skip(0) =~= choices);
            assert(outputs@.take(before.len() as int) =~= before);
        }
        while i < batches.len()
            invariant
                choices == views(taken@),
                choices == old(self).queued(),
                batches@ == flush_msg.batches@,
                delta == flush_msg.delta,
                batches@.len() == taken@.len(),
                i <= batches@.len(),
                counts == counts_of(batches@),
                n == matching(counts, choices),
                n == i + matching(counts.skip(i as int), choices.skip(i as int)),
                old(self).next_id().0 + choices.len() <= u64::MAX,
                self.transfer_id.0 == old(self).next_id().0 + i,
                self.queued() == Seq::<Seq<bool>>::empty(),
                before == old(outputs)@,
                outputs@.len() == before.len() + i,
                outputs@.take(before.len() as int) == before,
                forall|j: int|
                    0 <= j < i ==> {
                        let o = #[trigger] outputs@[before.len() + j];
                        &&& o.id.0 == old(self).next_id().0 + j
                        &&& o.msgs@ == chosen(batches@[j].keys@, choices[j], delta)
                    },
            decreases batches@.len() - i,
        {
            assert(choices[i as int] == taken@[i as int]@);
            assert(counts.skip(i as int).skip(1) =~= counts.skip(i + 1));
            assert(counts[i as int] == batches@[i as int].count);
            assert(choices.skip(i as int).skip(1) =~= choices.skip(i + 1));
            if batches[i].count != taken[i].len() {
                return Err(
                    IdealCOTError::CountMismatch {
                        sender: batches[i].count,
                        receiver: taken[i].len(),
                    },
                );
            }
            // Compute correlated messages: msg[i] = if choice { key ^ delta }
            // else { key }
            let msgs: Vec<Block> = choose_messages(&batches[i].keys, &taken[i], delta);
            let id: TransferId = self.transfer_id.next();
            let ghost so_far = outputs@;
            outputs.push(COTReceiverOutput { id, msgs });
            proof {
                assert(outputs@.take(before.len() as int) =~= so_far.take(before.len() as int));
                assert forall|j: int| 0 <= j < i + 1 implies {
                    let o = #[trigger] outputs@[before.len() + j];
                    &&& o.id.0 == old(self).next_id().0 + j
                    &&& o.msgs@ == chosen(batches@[j].keys@, choices[j], delta)
                } by {
                    if j < i {
                        assert(so_far[before.len() + j] == outputs@[before.len() + j]);
                    }
                }
            }
            i = i + 1;
        }
        Ok(())
    }

    /// Returns the number of transfers that are queued.
    pub fn available(&self) -> (n: usize)
        requires
            lengths(self.queued()) <= usize::MAX,
        ensures
            n == lengths(self.queued()),
    {
        total_length(&self.batches)
    }

    /// Queues a batch of choices.
    pub fn queue_recv_cot(&mut self, choices: &[bool])
        ensures
            final(self).next_id() == old(self).next_id(),
            final(self).queued() == old(self).queued().push(choices@),
    {
        let batch: Vec<bool> = copied(choices);
        self.batches.push(batch);
        assert(self.queued() =~= old(self).queued().push(choices@));
    }
}

/// Returns the messages of a batch.
fn choose_messages(keys: &Vec<Block>, choices: &Vec<bool>, delta: Block) -> (r: Vec<Block>)
    ensures
        r@ == chosen(keys@, choices@, delta),
{
    let ghost want = chosen(keys@, choices@, delta);
    let mut msgs: Vec<Block> = Vec::new();
    let mut i: usize = 0;
    while i < keys.len() && i < choices.len()
        invariant
            want == chosen(keys@, choices@, delta),
            i <= want.len(),
            msgs@ == want.take(i as int),
        decreases keys@.len() - i,
    {
        let msg: Block = if choices[i] {
            Block(keys[i].0 ^ delta.0)
        } else {
            keys[i]
        };
        msgs.push(msg);
        i = i + 1;
        assert(msgs@ =~= want.take(i as int));
    }
    assert(want.take(i as int) =~= want);
    msgs
}

/// Ideal COT wrapper that holds both sender and receiver.
///
/// This provides a unified interface for tests where both sender and receiver
/// share state. Internally uses the message-based `IdealCOTSender` and
/// `IdealCOTReceiver`.
#[derive(Debug)]
pub struct IdealCOT {
    /// The sender.
    pub sender: IdealCOTSender,
    /// The receiver.
    pub receiver: IdealCOTReceiver,
    /// What was delivered to the sender.
    pub sent: Vec<COTSenderOutput>,
    /// What was delivered to the receiver.
    pub received: Vec<COTReceiverOutput>,
}

impl IdealCOT {
    /// Creates a new ideal COT functionality.
    ///
    /// # Arguments
    ///
    /// * `delta` - Global correlation key.
    pub fn new(delta: Block) -> (r: Self)
        ensures
            r.sender.correlation() == delta,
            r.sender.queued() == Seq::<Seq<Block>>::empty(),
            r.sender.next_id() == TransferId(0),
            r.receiver.queued() == Seq::<Seq<bool>>::empty(),
            r.receiver.next_id() == TransferId(0),
            r.sent@ == Seq::<COTSenderOutput>::empty(),
            r.received@ == Seq::<COTReceiverOutput>::empty(),
    {
        IdealCOT {
            sender: IdealCOTSender::new(delta),
            receiver: IdealCOTReceiver::new(),
            sent: Vec::new(),
            received: Vec::new(),
        }
    }

    /// Returns `true` if the functionality wants to be flushed.
    pub fn wants_flush(&self) -> (r: bool)
        ensures
            r == (self.sender.queued().len() > 0 || self.receiver.queued().len() > 0),
    {
        self.sender.wants_flush() || self.receiver.wants_flush()
    }

    /// What a flush of some batches does: the sender learns that all of them
    /// were sent, and the receiver gets those before the first two that do not
    /// match.
    pub open spec fn delivers(
        self,
        keys: Seq<Seq<Block>>,
        choices: Seq<Seq<bool>>,
        after: Self,
        sent: Seq<COTSenderOutput>,
        received: Seq<COTReceiverOutput>,
        failure: Option<IdealCOTError>,
    ) -> bool {
        let n = matching(sizes_of(keys), choices);
        &&& after.sender.correlation() == self.sender.correlation()
        &&& after.sender.queued() == Seq::<Seq<Block>>::empty()
        &&& after.sender.next_id().0 == self.sender.next_id().0 + keys.len()
        &&& sent == self.sent@ + Seq::new(
            keys.len(),
            |i: int| COTSenderOutput { id: TransferId((self.sender.next_id().0 + i) as u64) },
        )
        &&& if keys.len() == 0 {
            &&& failure is None
            &&& after.receiver == self.receiver
            &&& received == self.received@
        } else if keys.len() != choices.len() {
            &&& failure == Some(
                IdealCOTError::BatchCountMismatch {
                    sender: keys.len() as usize,
                    receiver: choices.len() as usize,
                },
            )
            &&& after.receiver.queued() == choices
            &&& after.receiver.next_id() == self.receiver.next_id()
            &&& received == self.received@
        } else {
            &&& after.receiver.queued() == Seq::<Seq<bool>>::empty()
            &&& after.receiver.next_id().0 == self.receiver.next_id().0 + n
            &&& received.len() == self.received@.len() + n
            &&& received.take(self.received@.len() as int) == self.received@
            &&& forall|i: int|
                0 <= i < n ==> {
                    let o = #[trigger] received[self.received@.len() + i];
                    &&& o.id.0 == self.receiver.next_id().0 + i
                    &&& o.msgs@ == chosen(keys[i], choices[i], self.sender.correlation())
                }
            &&& failure == if n == keys.len() {
                None::<IdealCOTError>
            } else {
                Some(
                    IdealCOTError::CountMismatch {
                        sender: keys[n as int].len() as usize,
                        receiver: choices[n as int].len() as usize,
                    },
                )
            }
        }
    }

    /// Flushes the functionality.
    ///
    /// Internally passes the flush message from sender to receiver.
    pub fn flush(&mut self) -> (r: Result<(), IdealCOTError>)
        requires
            old(self).sender.next_id().0 + old(self).sender.queued().len() <= u64::MAX,
            old(self).receiver.next_id().0 + old(self).receiver.queued().len() <= u64::MAX,
        ensures
            old(self).delivers(
                old(self).sender.queued(),
                old(self).receiver.queued(),
                *final(self),
                final(self).sent@,
                final(self).received@,
                match r {
                    Ok(_) => None,
                    Err(e) => Some(e),
                },
            ),
    {
        if let Some(msg) = self.sender.flush(&mut self.sent) {
            assert(counts_of(msg.batches@) =~= sizes_of(old(self).sender.queued())) by {
                assert forall|i: int| 0 <= i < msg.batches@.len() implies counts_of(msg.batches@)[i]
                    == sizes_of(old(self).sender.queued())[i] by {
                    assert(msg.batches@[i].count == old(self).sender.queued()[i].len());
                }
            }
            proof {
                lemma_matching_bound(
                    sizes_of(old(self).sender.queued()),
                    old(self).receiver.queued(),
                );
            }
            return self.receiver.flush(msg, &mut self.received);
        }
        Ok(())
    }

    /// Transfers correlated OTs. What was queued before is transferred too.
    pub fn transfer(&mut self, choices: &[bool], keys: &[Block]) -> (r: Result<
        (COTSenderOutput, COTReceiverOutput),
        IdealCOTError,
    >)
        requires
            old(self).sender.next_id().0 + old(self).sender.queued().len() < u64::MAX,
            old(self).receiver.next_id().0 + old(self).receiver.queued().len() < u64::MAX,
        ensures
            ({
                let all_keys = old(self).sender.queued().push(keys@);
                let all_choices = old(self).receiver.queued().push(choices@);
                match r {
                    Err(e) => old(self).delivers(
                        all_keys,
                        all_choices,
                        *final(self),
                        final(self).sent@,
                        final(self).received@,
                        Some(e),
                    ),
                    Ok((sent, received)) => {
                        &&& old(self).delivers(
                            all_keys,
                            all_choices,
                            *final(self),
                            final(self).sent@.push(sent),
                            final(self).received@.push(received),
                            None,
                        )
                        &&& sent.id.0 == old(self).sender.next_id().0 + old(
                            self).sender.queued().len()
                        &&& received.id.0 == old(self).receiver.next_id().0 + old(
                            self).receiver.queued().len()
                        &&& received.msgs@ == chosen(
                            keys@,
                            choices@,
                            old(self).sender.correlation(),
                        )
                    },
                }
            }),
    {
        self.sender.queue_send_cot(keys);
        self.receiver.queue_recv_cot(choices);
        let ghost n = old(self).sender.queued().len() as int;
        let ghost sent = self.sent@.len() as int;
        let ghost received = self.received@.len() as int;
        proof {
            lemma_matching_bound(sizes_of(self.sender.queued()), self.receiver.queued());
        }
        match self.flush() {
            Ok(()) => {},
            Err(e) => {
                return Err(e);
            },
        }
        let ghost flushed = *self;
        assert(self.sent@[sent + n].id.0 == old(self).sender.next_id().0 + n);
        assert(self.received@[received + n].id.0 == old(self).receiver.next_id().0 + n);
        match (self.sent.pop(), self.received.pop()) {
            (Some(sender_output), Some(receiver_output)) => {
                assert(self.sent@.push(sender_output) =~= flushed.sent@);
                assert(self.received@.push(receiver_output) =~= flushed.received@);
                Ok((sender_output, receiver_output))
            },
            _ => {
                assert(false);
                Err(IdealCOTError::BatchCountMismatch { sender: 0, receiver: 0 })
            },
        }
    }
}

/// Where the parties have queued batches of the same lengths, all of them
/// match, so that a flush delivers all of them.
pub proof fn lemma_transfer(keys: Seq<Seq<Block>>, choices: Seq<Seq<bool>>)
    requires
        keys.len() == choices.len(),
        forall|i: int|
            #![trigger keys[i]]
            0 <= i < keys.len() ==> keys[i].len() == choices[i].len(),
    ensures
        matching(sizes_of(keys), choices) == keys.len(),
    decreases keys.len(),
{
    if keys.len() > 0 {
        let rest = keys.skip(1);
        assert forall|i: int|
            #![trigger rest[i]]
            0 <= i < rest.len() implies rest[i].len() == choices.skip(1)[i].len() by {
            assert(rest[i] == keys[i + 1]);
        }
        lemma_transfer(rest, choices.skip(1));
        assert(sizes_of(keys).skip(1) =~= sizes_of(rest));
        assert(keys[0].len() == choices[0].len());
    }
}

proof fn lemma_matching_bound(counts: Seq<nat>, choices: Seq<Seq<bool>>)
    ensures
        matching(counts, choices) <= counts.len(),
        matching(counts, choices) <= choices.len(),
    decreases counts.len(),
{
    if counts.len() > 0 && choices.len() > 0 {
        lemma_matching_bound(counts.skip(1), choices.skip(1));
    }
}

/// The message of a transfer differs from its key by the correlation where the
/// choice is set, and not at all where it is not.
pub proof fn lemma_chosen(keys: Seq<Block>, choices: Seq<bool>, delta: Block, i: int)
    requires
        keys.len() == choices.len(),
        0 <= i < keys.len(),
    ensures
        chosen(keys, choices, delta).len() == keys.len(),
        choices[i] ==> chosen(keys, choices, delta)[i].0 ^ keys[i].0 == delta.0,
        !choices[i] ==> chosen(keys, choices, delta)[i] == keys[i],
{
    lemma_xor(keys[i].0, delta.0, keys[i].0);
    lemma_xor(delta.0, keys[i].0, keys[i].0);
    lemma_xor(keys[i].0, keys[i].0, delta.0);
    lemma_xor(delta.0, 0, 0);
}

/// Batches match up to the first one whose length is not the number of its
/// choices.
pub proof fn lemma_matching(counts: Seq<nat>, choices: Seq<Seq<bool>>, i: int)
    requires
        counts.len() == choices.len(),
        0 <= i < counts.len(),
    ensures
        matching(counts, choices) <= counts.len(),
        i < matching(counts, choices) ==> counts[i] == choices[i].len(),
        i == matching(counts, choices) ==> counts[i] != choices[i].len(),
    decreases counts.len(),
{
    lemma_matching_bound(counts, choices);
    if i > 0 && counts[0] == choices[0].len() {
        lemma_matching(counts.skip(1), choices.skip(1), i - 1);
    }
}

} // verus!
