//! Ferret sender.
use crate::block::Block;
use crate::func::{call, is_function};
use crate::num::is_power;
use crate::num::log2_up;
use crate::ot::ferret::config::{FerretConfig, LpnParameters, CSP};
use crate::ot::ferret::lpn::{code_of, columns_below, encode, encoded};
use crate::ot::ferret::mpcot::sender::{MPCOTSender, MPCOTSenderError};
use crate::ot::ferret::mpcot::{
    hash_functions, joint_length, start_of, uniform_logs, Extension, LpnType, Reason,
};
use crate::ot::ferret::msgs::{
    BootstrapError, Init, PublicPrg, RCOTSenderOutput, ReceiverCheck, ReceiverExtend, SenderCheck,
    SenderExtend, Step,
};
use crate::ot::ferret::queue::{lemma_served, portion, remainder, serve, served};
use crate::ot::TransferId;
use crate::slices::{copied_range, take_back};
use std::collections::VecDeque;
use vstd::prelude::*;

verus! {

/// Ferret sender error.
#[derive(Debug)]
pub enum SenderError {
    /// The sender is not in the state for this step.
    State(Step),
    /// The bootstrap COT instance is still locked.
    MutexLocked,
    /// Bootstrap COT error.
    Bootstrap(String),
    /// SPCOT sender error.
    Spcot(String),
    /// MPCOT sender error.
    Mpcot(MPCOTSenderError),
    /// Insufficient COTs.
    InsufficientCOTs {
        /// How many were asked for.
        expected: usize,
        /// How many there are.
        actual: usize,
    },
}

/// The sender's state.
#[derive(Debug)]
pub enum SenderState {
    /// Not initialized.
    Init,
    /// Ready to extend.
    Extend {
        /// The public generator.
        public_prg: PublicPrg,
    },
    /// Waits for the receiver's extend message.
    Extending {
        /// The public generator.
        public_prg: PublicPrg,
        /// The parameters of the iteration.
        params: LpnParameters,
        /// The multi-point extension.
        mpcot: MPCOTSender<Extension>,
        /// The base two logarithms of the lengths of the single-point vectors.
        spcot_lengths: Vec<usize>,
    },
    /// Waits for the receiver's check message.
    Check {
        /// The public generator.
        public_prg: PublicPrg,
        /// The parameters of the iteration.
        params: LpnParameters,
        /// The multi-point vector.
        s: Vec<Block>,
    },
    /// Ready to finish the extension.
    Finish {
        /// The public generator.
        public_prg: PublicPrg,
        /// The parameters of the iteration.
        params: LpnParameters,
        /// The multi-point vector.
        s: Vec<Block>,
    },
    /// A step failed.
    Error,
}

/// Ferret sender.
#[derive(Debug)]
pub struct Sender<S> {
    allocated: usize,
    queue: VecDeque<usize>,
    transfer_id: TransferId,
    delta: Block,
    config: FerretConfig<S>,
    keys: Vec<Block>,
    state: SenderState,
}

/// The error for a failed bootstrap.
pub open spec fn bootstrap_failure(e: BootstrapError) -> SenderError {
    match e {
        BootstrapError::Locked => SenderError::MutexLocked,
        BootstrapError::Failed(e) => SenderError::Bootstrap(e),
    }
}

fn fail_bootstrap(e: BootstrapError) -> (r: SenderError)
    ensures
        r == bootstrap_failure(e),
{
    match e {
        BootstrapError::Locked => SenderError::MutexLocked,
        BootstrapError::Failed(e) => SenderError::Bootstrap(e),
    }
}

/// Why a multi-point extension with these parameters is refused.
pub open spec fn refusal(ty: LpnType, count: usize, len: usize) -> Option<MPCOTSenderError> {
    if count > len {
        Some(MPCOTSenderError::Params { count, len, reason: Reason::ExceedsLength })
    } else if ty == LpnType::Uniform {
        None
    } else if len % count != 0 {
        Some(MPCOTSenderError::Params { count, len, reason: Reason::NotMultiple })
    } else if !is_power((len / count) as nat) {
        Some(MPCOTSenderError::Params { count, len, reason: Reason::NotPowerOfTwo })
    } else {
        None
    }
}

/// The outputs that are delivered to the first `n` requests of a queue.
pub open spec fn delivered(
    before: Seq<RCOTSenderOutput>,
    after: Seq<RCOTSenderOutput>,
    stock: Seq<Block>,
    queue: Seq<usize>,
    n: nat,
    id: TransferId,
) -> bool {
    &&& after.len() == before.len() + n
    &&& after.take(before.len() as int) == before
    &&& forall|i: int|
        0 <= i < n ==> {
            let o = #[trigger] after[before.len() + i];
            &&& o.id.0 == id.0 + i
            &&& o.keys@ == portion(stock, queue, i as nat)
        }
}

impl<S> Sender<S> {
    /// The number of COTs that were allocated.
    pub closed spec fn wanted(self) -> nat {
        self.allocated as nat
    }

    /// The numbers of COTs that queued requests ask for.
    pub closed spec fn queued(self) -> Seq<usize> {
        self.queue@
    }

    /// The number of the next transfer.
    pub closed spec fn next_id(self) -> TransferId {
        self.transfer_id
    }

    /// The correlation.
    pub closed spec fn correlation(self) -> Block {
        self.delta
    }

    /// The configuration.
    pub closed spec fn settings(self) -> FerretConfig<S> {
        self.config
    }

    /// The keys in stock.
    pub closed spec fn stock(self) -> Seq<Block> {
        self.keys@
    }

    /// The state of the protocol.
    pub closed spec fn stage(self) -> SenderState {
        self.state
    }

    /// The configuration and the multi-point extension are valid.
    pub open spec fn wf(self) -> bool {
        &&& self.settings().wf()
        &&& self.stage() matches SenderState::Extending { mpcot, .. } ==> mpcot.state.wf()
    }

    /// The number of keys that a bootstrap has to add.
    pub open spec fn shortfall(self) -> nat {
        if self.stock().len() < self.settings().bootstrap() {
            (self.settings().bootstrap() - self.stock().len()) as nat
        } else {
            0
        }
    }

    /// Everything but the stock and the state is the same.
    pub open spec fn framed(self, other: Self) -> bool {
        &&& self.wanted() == other.wanted()
        &&& self.queued() == other.queued()
        &&& self.next_id() == other.next_id()
        &&& self.correlation() == other.correlation()
        &&& self.settings() == other.settings()
    }

    /// Creates a new sender.
    ///
    /// # Arguments
    ///
    /// * `config` - The configuration.
    /// * `delta` - The correlation of the bootstrap COT instance.
    pub fn new(config: FerretConfig<S>, delta: Block) -> (r: Self)
        ensures
            r.wanted() == 0,
            r.queued() == Seq::<usize>::empty(),
            r.next_id() == TransferId(0),
            r.correlation() == delta,
            r.settings() == config,
            r.stock() == Seq::<Block>::empty(),
            r.stage() is Init,
    {
        Sender {
            allocated: 0,
            queue: VecDeque::new(),
            transfer_id: TransferId(0),
            delta,
            config,
            keys: Vec::new(),
            state: SenderState::Init,
        }
    }

    /// Returns `true` if the sender wants to initialize.
    pub fn wants_init(&self) -> (r: bool)
        ensures
            r == (self.stage() is Init),
    {
        matches!(self.state, SenderState::Init)
    }

    /// Returns `true` if the sender wants to bootstrap.
    pub fn wants_bootstrap(&self) -> (r: bool)
        requires
            self.settings().wf(),
        ensures
            r == (self.stock().len() < self.settings().bootstrap()),
    {
        self.keys.len() < self.config.bootstrap_cost()
    }

    /// Returns `true` if the sender wants to extend.
    pub fn wants_extend(&self) -> (r: bool)
        requires
            self.settings().wf(),
        ensures
            r == (self.settings().spare(self.stock().len()) < self.wanted()),
    {
        self.available() < self.allocated
    }

    /// Initializes the sender, receiving message from the receiver.
    pub fn initialize(&mut self, init: Init) -> (r: Result<(), SenderError>)
        ensures
            final(self).framed(*old(self)),
            final(self).stock() == old(self).stock(),
            r is Ok <==> old(self).stage() is Init,
            r is Ok ==> final(self).stage() == (SenderState::Extend {
                public_prg: PublicPrg { seed: init.seed, drawn: 0 },
            }),
            r is Err ==> {
                &&& r->Err_0 == SenderError::State(Step::Initialize)
                &&& final(self).stage() is Error
            },
    {
        let mut state: SenderState = SenderState::Error;
        std::mem::swap(&mut state, &mut self.state);
        match state {
            SenderState::Init => {
                self.state =
                SenderState::Extend { public_prg: PublicPrg { seed: init.seed, drawn: 0 } };
                Ok(())
            },
            _ => Err(SenderError::State(Step::Initialize)),
        }
    }

    /// Allocates COTs for bootstrapping.
    ///
    /// # Arguments
    ///
    /// * `allocate` - Allocates COTs of the bootstrap instance.
    pub fn alloc_bootstrap<A: Fn(usize) -> Result<(), BootstrapError>>(&self, allocate: &A) -> (r:
        Result<(), SenderError>)
        requires
            self.settings().wf(),
            call_requires(*allocate, (self.shortfall() as usize,)),
        ensures
            exists|out: Result<(), BootstrapError>|
                {
                    &&& #[trigger] call_ensures(*allocate, (self.shortfall() as usize,), out)
                    &&& r is Ok <==> out is Ok
                    &&& r is Err ==> r->Err_0 == bootstrap_failure(out->Err_0)
                },
    {
        let cost: usize = self.config.bootstrap_cost();
        let missing: usize = cost.saturating_sub(self.keys.len());
        match allocate(missing) {
            Ok(()) => Ok(()),
            Err(e) => Err(fail_bootstrap(e)),
        }
    }

    /// Returns the number of COTs that can be handed out.
    pub fn available(&self) -> (r: usize)
        requires
            self.settings().wf(),
        ensures
            r == self.settings().spare(self.stock().len()),
    {
        self.config.spared(self.keys.len())
    }

    /// Returns the correlation.
    pub fn delta(&self) -> (r: Block)
        ensures
            r == self.correlation(),
    {
        self.delta
    }

    /// Allocates COTs.
    pub fn allocate(&mut self, count: usize)
        requires
            old(self).wanted() + count <= usize::MAX,
        ensures
            final(self).wanted() == old(self).wanted() + count,
            final(self).queued() == old(self).queued(),
            final(self).next_id() == old(self).next_id(),
            final(self).correlation() == old(self).correlation(),
            final(self).settings() == old(self).settings(),
            final(self).stock() == old(self).stock(),
            final(self).stage() == old(self).stage(),
    {
        self.allocated = self.allocated + count;
    }

    /// Hands out COTs.
    pub fn try_send_rcot(&mut self, count: usize) -> (r: Result<RCOTSenderOutput, SenderError>)
        requires
            old(self).settings().wf(),
            old(self).next_id().0 < u64::MAX,
        ensures
            final(self).wanted() == old(self).wanted(),
            final(self).queued() == old(self).queued(),
            final(self).correlation() == old(self).correlation(),
            final(self).settings() == old(self).settings(),
            final(self).stage() == old(self).stage(),
            ({
                let n = old(self).stock().len();
                let available = old(self).settings().spare(n);
                if available < count {
                    &&& r is Err
                    &&& r->Err_0 == (SenderError::InsufficientCOTs {
                        expected: count,
                        actual: available as usize,
                    })
                    &&& final(self).stock() == old(self).stock()
                    &&& final(self).next_id() == old(self).next_id()
                } else {
                    &&& r is Ok
                    &&& r->Ok_0.id == old(self).next_id()
                    &&& r->Ok_0.keys@ == old(self).stock().skip(n - count)
                    &&& final(self).stock() == old(self).stock().take(n - count)
                    &&& final(self).next_id().0 == old(self).next_id().0 + 1
                }
            }),
    {
        let available: usize = self.available();
        if available < count {
            return Err(SenderError::InsufficientCOTs { expected: count, actual: available });
        }
        let keys: Vec<Block> = take_back(&mut self.keys, count);
        let id: TransferId = self.transfer_id.next();
        Ok(RCOTSenderOutput { id, keys })
    }

    /// Hands out COTs, or queues the request where there are not enough.
    pub fn queue_send_rcot(&mut self, count: usize) -> (r: Option<RCOTSenderOutput>)
        requires
            old(self).settings().wf(),
            old(self).next_id().0 < u64::MAX,
        ensures
            final(self).wanted() == old(self).wanted(),
            final(self).correlation() == old(self).correlation(),
            final(self).settings() == old(self).settings(),
            final(self).stage() == old(self).stage(),
            ({
                let n = old(self).stock().len();
                if old(self).settings().spare(n) < count {
                    &&& r is None
                    &&& final(self).queued() == old(self).queued().push(count)
                    &&& final(self).stock() == old(self).stock()
                    &&& final(self).next_id() == old(self).next_id()
                } else {
                    &&& r is Some
                    &&& r->Some_0.id == old(self).next_id()
                    &&& r->Some_0.keys@ == old(self).stock().skip(n - count)
                    &&& final(self).queued() == old(self).queued()
                    &&& final(self).stock() == old(self).stock().take(n - count)
                    &&& final(self).next_id().0 == old(self).next_id().0 + 1
                }
            }),
    {
        match self.try_send_rcot(count) {
            Ok(output) => Some(output),
            Err(_) => {
                self.queue.push_back(count);
                None
            },
        }
    }

    fn process_queue(&mut self, outputs: &mut Vec<RCOTSenderOutput>)
        requires
            old(self).settings().wf(),
            old(self).next_id().0 + old(self).queued().len() <= u64::MAX,
        ensures
            final(self).wanted() == old(self).wanted(),
            final(self).correlation() == old(self).correlation(),
            final(self).settings() == old(self).settings(),
            final(self).stage() == old(self).stage(),
            ({
                let queue = old(self).queued();
                let stock = old(self).stock();
                let n = served(queue, old(self).settings().spare(stock.len()));
                &&& final(self).queued() == queue.skip(n as int)
                &&& final(self).stock() == remainder(stock, queue, n)
                &&& final(self).next_id().0 == old(self).next_id().0 + n
                &&& delivered(
                    old(outputs)@,
                    final(outputs)@,
                    stock,
                    queue,
                    n,
                    old(self).next_id(),
                )
            }),
    {
        let available: usize = self.available();
        let ghost queue = self.queue@;
        let ghost stock = self.keys@;
        let ghost n = served(queue, available as nat);
        let ghost id = self.transfer_id;
        let counts: Vec<usize> = serve(&mut self.queue, available);
        let ghost start = *self;
        let ghost before = outputs@;
        proof {
            lemma_served(queue, available as nat);
            assert(outputs@.take(before.len() as int) =~= before);
            assert(stock.take(stock.len() as int) =~= stock);
        }
        let mut i: usize = 0;
        while i < counts.len()
            invariant
                i <= counts@.len(),
                n == counts@.len(),
                n <= queue.len(),
                counts@ == queue.take(n as int),
                available <= stock.len(),
                start_of(queue, n) <= available,
                forall|j: nat| j <= n ==> #[trigger] start_of(queue, j) <= start_of(queue, n),
                id.0 + queue.len() <= u64::MAX,
                self.transfer_id.0 == id.0 + i,
                self.keys@ == remainder(stock, queue, i as nat),
                self.allocated == start.allocated,
                self.queue == start.queue,
                self.delta == start.delta,
                self.config == start.config,
                self.state == start.state,
                delivered(before, outputs@, stock, queue, i as nat, id),
            decreases counts@.len() - i,
        {
            let count: usize = counts[i];
            let ghost earlier = outputs@;
            let ghost keys_before = self.keys@;
            proof {
                assert(count == queue[i as int]);
                assert(start_of(queue, (i + 1) as nat) == start_of(queue, i as nat) + count);
            }
            let keys: Vec<Block> = take_back(&mut self.keys, count);
            let next: TransferId = self.transfer_id.next();
            outputs.push(RCOTSenderOutput { id: next, keys });
            proof {
                assert(keys_before.skip(keys_before.len() - count) =~= portion(
                    stock,
                    queue,
                    i as nat,
                ));
                assert(self.keys@ =~= remainder(stock, queue, (i + 1) as nat));
                assert(outputs@.take(before.len() as int) =~= earlier.take(before.len() as int));
                assert forall|j: int| 0 <= j < i + 1 implies {
                    let o = #[trigger] outputs@[before.len() + j];
                    &&& o.id.0 == id.0 + j
                    &&& o.keys@ == portion(stock, queue, j as nat)
                } by {
                    if j < i {
                        assert(outputs@[before.len() + j] == earlier[before.len() + j]);
                    }
                }
            }
            i = i + 1;
        }
    }

    /// How an extension goes on, for what the single-point extension gave for
    /// these keys.
    pub open spec fn extended(
        old: Self,
        new: Self,
        r: Result<SenderExtend, SenderError>,
        keys: Seq<Block>,
        out: Result<(Vec<Block>, Vec<[Block; 2]>, Vec<Block>), String>,
    ) -> bool {
        old.stage() matches SenderState::Extending { public_prg, params, mpcot, spcot_lengths } && {
            let left = old.stock().len() - start_of(spcot_lengths@, spcot_lengths@.len());
            &&& keys == old.stock().skip(left)
            &&& match out {
                Err(e) => {
                    &&& r is Err
                    &&& r->Err_0 == SenderError::Spcot(e)
                    &&& new.stage() is Error
                    &&& new.stock() == old.stock()
                },
                Ok((vs, ms, sums)) => {
                    &&& new.stock() == old.stock().take(left)
                    &&& if vs@.len() != mpcot.state.spcot_len() {
                        &&& r is Err
                        &&& r->Err_0 == SenderError::Mpcot(
                            MPCOTSenderError::SPCOTLength {
                                expected: mpcot.state.spcot_len() as usize,
                                actual: vs@.len() as usize,
                            },
                        )
                        &&& new.stage() is Error
                    } else {
                        &&& r is Ok
                        &&& r->Ok_0.ms == ms
                        &&& r->Ok_0.sums == sums
                        &&& new.stage() matches SenderState::Check {
                            public_prg: g,
                            params: p,
                            s,
                        } && g == public_prg && p == params && s@ == mpcot.state.result(vs@)
                    }
                },
            }
        }
    }

    /// How the consistency check ends, for what it gave for these keys.
    pub open spec fn checked(
        old: Self,
        new: Self,
        r: Result<SenderCheck, SenderError>,
        keys: Seq<Block>,
        out: Result<[u8; 32], String>,
    ) -> bool {
        old.stage() matches SenderState::Check { public_prg, params, s } && {
            let left = old.stock().len() - CSP;
            &&& keys == old.stock().skip(left)
            &&& match out {
                Err(e) => {
                    &&& r is Err
                    &&& r->Err_0 == SenderError::Spcot(e)
                    &&& new.stage() is Error
                    &&& new.stock() == old.stock()
                },
                Ok(hashed_v) => {
                    &&& r is Ok
                    &&& r->Ok_0.hashed_v == hashed_v
                    &&& new.stage() == (SenderState::Finish { public_prg, params, s })
                    &&& new.stock() == old.stock().take(left)
                },
            }
        }
    }

    /// How an extension finishes.
    pub open spec fn finished<L: Fn(usize) -> [usize; 10]>(
        old: Self,
        new: Self,
        before: Seq<RCOTSenderOutput>,
        after: Seq<RCOTSenderOutput>,
        columns: L,
    ) -> bool {
        old.stage() matches SenderState::Finish { public_prg, params, s } && {
            let left = old.stock().len() - params.k;
            let stock = old.stock().take(left) + encoded(columns, s@, old.stock().skip(left));
            let spare = old.settings().spare(stock.len());
            &&& new.correlation() == old.correlation()
            &&& new.settings() == old.settings()
            &&& new.stage() == (SenderState::Extend { public_prg: public_prg.advanced() })
            &&& if spare < old.wanted() {
                &&& new.stock() == stock
                &&& new.wanted() == old.wanted()
                &&& new.queued() == old.queued()
                &&& new.next_id() == old.next_id()
                &&& after == before
            } else {
                // We've finished extending.
                let queue = old.queued();
                let n = served(queue, spare);
                &&& new.stock() == remainder(stock, queue, n)
                &&& new.wanted() == 0
                &&& new.queued() == queue.skip(n as int)
                &&& new.next_id().0 == old.next_id().0 + n
                &&& delivered(before, after, stock, queue, n, old.next_id())
            }
        }
    }

    /// Performs extension.
    ///
    /// # Arguments
    ///
    /// * `msg` - Receiver extend message.
    /// * `spcot` - The single-point extension, from the logarithms of the
    ///   lengths, the keys and the choices to flip to the joined vectors, the
    ///   masked sums and the sums of the leaves.
    pub fn extend<
        X: Fn((Vec<usize>, Vec<Block>, Vec<bool>)) -> Result<
            (Vec<Block>, Vec<[Block; 2]>, Vec<Block>),
            String,
        >,
    >(&mut self, msg: ReceiverExtend, spcot: &X) -> (r: Result<SenderExtend, SenderError>)
        requires
            old(self).wf(),
            forall|a: (Vec<usize>, Vec<Block>, Vec<bool>)| #[trigger] call_requires(*spcot, (a,)),
            old(self).stage() matches SenderState::Extending { spcot_lengths, .. } ==> start_of(
                spcot_lengths@,
                spcot_lengths@.len(),
            ) <= old(self).stock().len(),
        ensures
            final(self).wf(),
            final(self).framed(*old(self)),
            match old(self).stage() {
                SenderState::Extending { spcot_lengths, .. } => exists|
                    keys: Vec<Block>,
                    out: Result<(Vec<Block>, Vec<[Block; 2]>, Vec<Block>), String>,
                |
                    {
                        &&& #[trigger] call_ensures(
                            *spcot,
                            ((spcot_lengths, keys, msg.derandomize.flip),),
                            out,
                        )
                        &&& Self::extended(*old(self), *final(self), r, keys@, out)
                    },
                _ => {
                    &&& r is Err
                    &&& r->Err_0 == SenderError::State(Step::Extending)
                    &&& final(self).stage() is Error
                    &&& final(self).stock() == old(self).stock()
                },
            },
    {
        let mut state: SenderState = SenderState::Error;
        std::mem::swap(&mut state, &mut self.state);
        match state {
            SenderState::Extending { public_prg, params, mpcot, spcot_lengths } => {
                let len: usize = self.keys.len();
                let spcot_count: usize = joint_length(spcot_lengths.as_slice());
                let left: usize = len - spcot_count;
                let spcot_keys: Vec<Block> = copied_range(self.keys.as_slice(), left, len);
                assert(spcot_keys@ =~= self.keys@.skip(left as int));
                match spcot((spcot_lengths, spcot_keys, msg.derandomize.flip)) {
                    Ok((vs, ms, sums)) => {
                        // Drop used keys.
                        self.keys.truncate(left);
                        assert(self.keys@ =~= old(self).stock().take(left as int));
                        match mpcot.extend(vs.as_slice()) {
                            Ok(s) => {
                                self.state = SenderState::Check { public_prg, params, s };
                                Ok(SenderExtend { ms, sums })
                            },
                            Err(e) => Err(SenderError::Mpcot(e)),
                        }
                    },
                    Err(e) => Err(SenderError::Spcot(e)),
                }
            },
            _ => Err(SenderError::State(Step::Extending)),
        }
    }

    /// Performs the SPCOT consistency check.
    ///
    /// # Arguments
    ///
    /// * `msg` - Receiver check message.
    /// * `spcot` - The consistency check, from the keys and the choices to flip
    ///   to the hashed check value.
    pub fn check<X: Fn((Vec<Block>, Vec<bool>)) -> Result<[u8; 32], String>>(
        &mut self,
        msg: ReceiverCheck,
        spcot: &X,
    ) -> (r: Result<SenderCheck, SenderError>)
        requires
            old(self).wf(),
            forall|a: (Vec<Block>, Vec<bool>)| #[trigger] call_requires(*spcot, (a,)),
            old(self).stage() is Check ==> CSP <= old(self).stock().len(),
        ensures
            final(self).wf(),
            final(self).framed(*old(self)),
            match old(self).stage() {
                SenderState::Check { .. } => exists|
                    keys: Vec<Block>,
                    out: Result<[u8; 32], String>,
                |
                    {
                        &&& #[trigger] call_ensures(
                            *spcot,
                            ((keys, msg.derandomize.flip),),
                            out,
                        )
                        &&& Self::checked(*old(self), *final(self), r, keys@, out)
                    },
                _ => {
                    &&& r is Err
                    &&& r->Err_0 == SenderError::State(Step::Check)
                    &&& final(self).stage() is Error
                    &&& final(self).stock() == old(self).stock()
                },
            },
    {
        let mut state: SenderState = SenderState::Error;
        std::mem::swap(&mut state, &mut self.state);
        match state {
            SenderState::Check { public_prg, params, s } => {
                let left: usize = self.keys.len() - CSP;
                let check_keys: Vec<Block> = copied_range(
                    self.keys.as_slice(),
                    left,
                    self.keys.len(),
                );
                assert(check_keys@ =~= self.keys@.skip(left as int));
                match spcot((check_keys, msg.derandomize.flip)) {
                    Ok(hashed_v) => {
                        // Drop used keys.
                        self.keys.truncate(left);
                        assert(self.keys@ =~= old(self).stock().take(left as int));
                        self.state = SenderState::Finish { public_prg, params, s };
                        Ok(SenderCheck { hashed_v })
                    },
                    Err(e) => Err(SenderError::Spcot(e)),
                }
            },
            _ => Err(SenderError::State(Step::Check)),
        }
    }

    /// Finishes the extension. The outputs of the requests that can be served
    /// are added to `outputs`.
    ///
    /// # Arguments
    ///
    /// * `prg` - What the public generator gives for its seed and the number of a
    ///   value.
    /// * `code` - Makes the matrix of the code from its seed, which is the next
    ///   public value, and its dimension.
    pub fn finish_extend<
        L: Fn(usize) -> [usize; 10],
        P: Fn((Block, u64)) -> Block,
        M: Fn((Block, u32)) -> L,
    >(
        &mut self,
        prg: &P,
        code: &M,
        outputs: &mut Vec<RCOTSenderOutput>,
    ) -> (r: Result<(), SenderError>)
        requires
            old(self).wf(),
            old(self).next_id().0 + old(self).queued().len() <= u64::MAX,
            old(self).stage() matches SenderState::Finish { public_prg, params, s } ==> {
                let columns = code_of(*code, public_prg.value(*prg), params.k);
                &&& is_function::<(Block, u64), Block, P>(*prg)
                &&& is_function::<(Block, u32), L, M>(*code)
                &&& is_function::<usize, [usize; 10], L>(columns)
                &&& columns_below(columns, s@.len(), params.k as nat)
                &&& params.k <= old(self).stock().len()
                &&& public_prg.drawn < u64::MAX
            },
        ensures
            final(self).wf(),
            final(self).correlation() == old(self).correlation(),
            final(self).settings() == old(self).settings(),
            match old(self).stage() {
                SenderState::Finish { public_prg, params, .. } => {
                    &&& r is Ok
                    &&& Self::finished(
                        *old(self),
                        *final(self),
                        old(outputs)@,
                        final(outputs)@,
                        code_of(*code, public_prg.value(*prg), params.k),
                    )
                },
                _ => {
                    &&& r is Err
                    &&& r->Err_0 == SenderError::State(Step::Finish)
                    &&& final(self).stage() is Error
                    &&& final(self).stock() == old(self).stock()
                    &&& final(self).framed(*old(self))
                    &&& final(outputs)@ == old(outputs)@
                },
            },
    {
        let mut state: SenderState = SenderState::Error;
        std::mem::swap(&mut state, &mut self.state);
        match state {
            SenderState::Finish { public_prg, params, s } => {
                let mut public_prg: PublicPrg = public_prg;
                let lpn_seed: Block = public_prg.random(prg);
                let columns: L = call(code, (lpn_seed, params.k as u32));

                // Compute y = A * v + s
                let v: Vec<Block> = take_back(&mut self.keys, params.k);
                let mut y: Vec<Block> = encode(&columns, s.as_slice(), v.as_slice());
                self.keys.append(&mut y);
                if self.allocated <= self.available() {
                    // We've finished extending.
                    self.allocated = 0;
                    self.process_queue(outputs);
                }
                self.state = SenderState::Extend { public_prg };
                Ok(())
            },
            _ => Err(SenderError::State(Step::Finish)),
        }
    }
}

impl<S: Fn((LpnType, usize, usize)) -> LpnParameters> Sender<S> {
    /// Starts extension.
    ///
    /// # Arguments
    ///
    /// * `bootstrap` - Takes COTs from the bootstrap instance.
    /// * `prg` - What the public generator gives for its seed and the number of a
    ///   value.
    /// * `blocks` - What the generator of the Cuckoo hash functions gives for its
    ///   seed, which is the next public value, and the number of a block.
    /// * `ciphers` - Makes the hash functions from the keys of three ciphers.
    pub fn start_extend<
        C: Fn(usize) -> Result<RCOTSenderOutput, BootstrapError>,
        H: Fn((u32, Block)) -> Block,
        P: Fn((Block, u64)) -> Block,
        K: Fn((Block, u64)) -> Block,
        M: Fn((Block, Block, Block)) -> H,
    >(&mut self, bootstrap: &C, prg: &P, blocks: &K, ciphers: &M) -> (r: Result<
        (),
        SenderError,
    >)
        requires
            old(self).wf(),
            old(self).settings().selects(),
            is_function::<(Block, u64), Block, P>(*prg),
            is_function::<(Block, u64), Block, K>(*blocks),
            is_function::<(Block, Block, Block), H, M>(*ciphers),
            call_requires(*bootstrap, (old(self).shortfall() as usize,)),
            forall|out: RCOTSenderOutput| #[trigger]
                call_ensures(
                    *bootstrap,
                    (old(self).shortfall() as usize,),
                    Ok::<RCOTSenderOutput, BootstrapError>(out),
                ) ==> out.keys@.len() == old(self).shortfall(),
            old(self).stage() matches SenderState::Extend { public_prg } ==> {
                &&& public_prg.drawn < u64::MAX
                &&& is_function::<(u32, Block), Block, H>(
                    hash_functions(*blocks, *ciphers, public_prg.value(*prg)),
                )
            },
        ensures
            final(self).wf(),
            final(self).framed(*old(self)),
            match old(self).stage() {
                SenderState::Extend { public_prg } => {
                    let hashes = hash_functions(*blocks, *ciphers, public_prg.value(*prg));
                    exists|out: Result<RCOTSenderOutput, BootstrapError>, p: LpnParameters|
                        {
                            &&& old(self).shortfall() > 0 ==> call_ensures(
                                *bootstrap,
                                (old(self).shortfall() as usize,),
                                out,
                            )
                            &&& #[trigger] Self::started(
                                *old(self),
                                *final(self),
                                r,
                                public_prg,
                                hashes,
                                out,
                                p,
                            )
                        }
                },
                _ => {
                    &&& r is Err
                    &&& r->Err_0 == SenderError::State(Step::Extend)
                    &&& final(self).stage() is Error
                    &&& final(self).stock() == old(self).stock()
                },
            },
    {
        let mut state: SenderState = SenderState::Error;
        std::mem::swap(&mut state, &mut self.state);
        match state {
            SenderState::Extend { public_prg } => {
                let mut public_prg: PublicPrg = public_prg;
                let ghost hashes: H = hash_functions(*blocks, *ciphers, public_prg.value(*prg));
                let seed: Block = public_prg.random(prg);

                // If available COTs are insufficient, we bootstrap from the inner COT
                // instance.
                let ghost mut out: Result<RCOTSenderOutput, BootstrapError> = arbitrary();
                if self.wants_bootstrap() {
                    let missing: usize = self.config.bootstrap_cost() - self.keys.len();
                    let result: Result<RCOTSenderOutput, BootstrapError> = bootstrap(missing);
                    proof {
                        out = result;
                    }
                    match result {
                        Ok(output) => {
                            let mut keys: Vec<Block> = output.keys;
                            self.keys.append(&mut keys);
                        },
                        Err(e) => {
                            let ghost p: LpnParameters = arbitrary();
                            let r: Result<(), SenderError> = Err(fail_bootstrap(e));
                            assert(Self::started(
                                *old(self),
                                *self,
                                r,
                                old(self).stage()->Extend_public_prg,
                                hashes,
                                out,
                                p,
                            ));
                            return r;
                        },
                    }
                }
                let available: usize = self.available();
                let missing: usize = self.allocated.saturating_sub(available);
                let params: LpnParameters = self.config.select_params(self.keys.len(), missing);
                let lpn_type: LpnType = self.config.lpn_type();
                let ghost stock = old(self).keys_after(out);
                assert(self.keys@ =~= stock);
                assert(params.n <= u32::MAX ==> params.n as u32 == params.n);
                match MPCOTSender::new(seed, lpn_type, blocks, ciphers).start_extend(
                    params.t,
                    params.n,
                ) {
                    Ok((mpcot, spcot_lengths)) => {
                        self.state =
                        SenderState::Extending { public_prg, params, mpcot, spcot_lengths };
                        let r: Result<(), SenderError> = Ok(());
                        assert(Self::started(
                            *old(self),
                            *self,
                            r,
                            old(self).stage()->Extend_public_prg,
                            hashes,
                            out,
                            params,
                        ));
                        r
                    },
                    Err(e) => {
                        let r: Result<(), SenderError> = Err(SenderError::Mpcot(e));
                        assert(Self::started(
                            *old(self),
                            *self,
                            r,
                            old(self).stage()->Extend_public_prg,
                            hashes,
                            out,
                            params,
                        ));
                        r
                    },
                }
            },
            _ => Err(SenderError::State(Step::Extend)),
        }
    }

    /// The keys after a bootstrap, where one is needed.
    pub open spec fn keys_after(self, out: Result<RCOTSenderOutput, BootstrapError>) -> Seq<Block> {
        if self.shortfall() > 0 {
            self.stock() + out->Ok_0.keys@
        } else {
            self.stock()
        }
    }

    /// How an extension starts, for what the bootstrap gave and the parameters
    /// that were selected.
    pub open spec fn started<H: Fn((u32, Block)) -> Block>(
        old: Self,
        new: Self,
        r: Result<(), SenderError>,
        public_prg: PublicPrg,
        hashes: H,
        out: Result<RCOTSenderOutput, BootstrapError>,
        p: LpnParameters,
    ) -> bool {
        if old.shortfall() > 0 && out is Err {
            &&& r is Err
            &&& r->Err_0 == bootstrap_failure(out->Err_0)
            &&& new.stage() is Error
            &&& new.stock() == old.stock()
        } else {
            let stock = old.keys_after(out);
            let config = old.settings();
            &&& new.stock() == stock
            &&& config.may_select(
                stock.len() as usize,
                config.lacking(old.wanted(), stock.len()) as usize,
                p,
            )
            &&& match refusal(config.noise(), p.t, p.n) {
                Some(e) => {
                    &&& r is Err
                    &&& r->Err_0 == SenderError::Mpcot(e)
                    &&& new.stage() is Error
                },
                None => {
                    &&& r is Ok
                    &&& new.stage() matches SenderState::Extending {
                        public_prg: g,
                        params,
                        mpcot,
                        spcot_lengths,
                    } && {
                        &&& g == public_prg.advanced()
                        &&& params == p
                        &&& match config.noise() {
                            LpnType::Uniform => {
                                &&& mpcot.state.uniform_for(hashes, p.t as nat, p.n)
                                &&& spcot_lengths@ == uniform_logs(hashes, p.t as nat, p.n)
                            },
                            LpnType::Regular => {
                                &&& mpcot.state == (Extension::Regular { len: p.n })
                                &&& spcot_lengths@ == Seq::new(
                                    p.t as nat,
                                    |i: int| log2_up((p.n / p.t) as nat) as usize,
                                )
                            },
                        }
                    }
                },
            }
        }
    }
}

} // verus!
