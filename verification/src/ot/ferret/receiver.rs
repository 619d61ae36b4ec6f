//! Ferret receiver.
use crate::block::Block;
use crate::func::{call, is_function};
use crate::num::{is_power, log2_up};
use crate::ot::ferret::config::{cost, selected, FerretConfig, LpnParameters, CSP};
use crate::ot::ferret::cuckoo::{insert_all, CuckooHashError};
use crate::ot::ferret::lpn::{
    as_blocks, code_of, columns_below, encode, encoded, errors, low_bits,
};
use crate::ot::ferret::mpcot::receiver::{
    regular, uniform_queries, MPCOTReceiver, MPCOTReceiverError,
};
use crate::ot::ferret::mpcot::{
    hash_functions, joint_length, start_of, uniform_logs, Extension, LpnType, Reason,
};
use crate::ot::ferret::msgs::{
    BootstrapError, Derandomize, Init, PublicPrg, RCOTReceiverOutput, ReceiverCheck, ReceiverExtend,
    SenderCheck, SenderExtend, Step,
};
use crate::ot::ferret::queue::{lemma_served, portion, remainder, serve, served};
use crate::ot::ferret::sender;
use crate::ot::TransferId;
use crate::slices::{copied, copied_range, filled_with, take_back};
use std::collections::VecDeque;
use vstd::prelude::*;

verus! {

/// Ferret receiver error.
#[derive(Debug)]
pub enum ReceiverError {
    /// The receiver is not in the state for this step.
    State(Step),
    /// The bootstrap COT instance is still locked.
    MutexLocked,
    /// Bootstrap COT error.
    Bootstrap(String),
    /// SPCOT receiver error.
    Spcot(String),
    /// MPCOT receiver error.
    Mpcot(MPCOTReceiverError),
    /// Insufficient COTs.
    InsufficientCOTs {
        /// How many were asked for.
        expected: usize,
        /// How many there are.
        actual: usize,
    },
}

/// The receiver's state.
#[derive(Debug)]
pub enum ReceiverState {
    /// Not initialized.
    Init,
    /// Ready to extend.
    Extend {
        /// The public generator.
        public_prg: PublicPrg,
    },
    /// Waits for the sender's extend message.
    Extending {
        /// The public generator.
        public_prg: PublicPrg,
        /// The parameters of the iteration.
        params: LpnParameters,
        /// The error indices.
        err: Vec<usize>,
        /// The multi-point extension.
        mpcot: MPCOTReceiver<Extension>,
        /// The number of COTs that the single-point transfers use.
        spcot_count: usize,
        /// The base two logarithms of the lengths of the single-point vectors.
        spcot_lengths: Vec<usize>,
        /// The indices of the single-point transfers.
        spcot_idxs: Vec<usize>,
    },
    /// Waits for the sender's check message.
    Finish {
        /// The public generator.
        public_prg: PublicPrg,
        /// The parameters of the iteration.
        params: LpnParameters,
        /// The error indices.
        err: Vec<usize>,
        /// The multi-point vector.
        r: Vec<Block>,
    },
    /// A step failed.
    Error,
}

/// Ferret receiver.
#[derive(Debug)]
pub struct Receiver<S> {
    allocated: usize,
    queue: VecDeque<usize>,
    transfer_id: TransferId,
    config: FerretConfig<S>,
    macs: Vec<Block>,
    choices: Vec<bool>,
    state: ReceiverState,
}

/// The error for a failed bootstrap.
pub open spec fn bootstrap_failure(e: BootstrapError) -> ReceiverError {
    match e {
        BootstrapError::Locked => ReceiverError::MutexLocked,
        BootstrapError::Failed(e) => ReceiverError::Bootstrap(e),
    }
}

fn fail_bootstrap(e: BootstrapError) -> (r: ReceiverError)
    ensures
        r == bootstrap_failure(e),
{
    match e {
        BootstrapError::Locked => ReceiverError::MutexLocked,
        BootstrapError::Failed(e) => ReceiverError::Bootstrap(e),
    }
}

/// Why a multi-point extension at these indices is refused.
pub open spec fn refusal<H: Fn((u32, Block)) -> Block>(
    ty: LpnType,
    h: H,
    idxs: Seq<usize>,
    len: usize,
) -> Option<MPCOTReceiverError> {
    let count = idxs.len() as usize;
    if count > len {
        Some(MPCOTReceiverError::Params { count, len, reason: Reason::ExceedsLength })
    } else if ty == LpnType::Uniform {
        if insert_all(h, idxs) is Some {
            None
        } else {
            Some(MPCOTReceiverError::Cuckoo(CuckooHashError))
        }
    } else if len % count != 0 {
        Some(MPCOTReceiverError::Params { count, len, reason: Reason::NotMultiple })
    } else if !is_power((len / count) as nat) {
        Some(MPCOTReceiverError::Params { count, len, reason: Reason::NotPowerOfTwo })
    } else if !regular(idxs, len as int / count as int) {
        Some(MPCOTReceiverError::NotRegular)
    } else {
        None
    }
}

/// The base two logarithms of the lengths of the single-point vectors.
pub open spec fn query_lengths<H: Fn((u32, Block)) -> Block>(
    ty: LpnType,
    h: H,
    count: usize,
    len: usize,
) -> Seq<usize> {
    match ty {
        LpnType::Uniform => uniform_logs(h, count as nat, len),
        LpnType::Regular => Seq::new(
            count as nat,
            |i: int| log2_up((len / count) as nat) as usize,
        ),
    }
}

/// The indices of the single-point transfers.
pub open spec fn query_idxs<H: Fn((u32, Block)) -> Block>(
    ty: LpnType,
    h: H,
    idxs: Seq<usize>,
    len: usize,
) -> Seq<usize> {
    match ty {
        LpnType::Uniform => uniform_queries(h, insert_all(h, idxs)->Some_0, len),
        LpnType::Regular => Seq::new(
            idxs.len(),
            |i: int| (idxs[i] as int % (len as int / idxs.len() as int)) as usize,
        ),
    }
}

/// The number of COTs that the single-point transfers use.
pub open spec fn query_count<H: Fn((u32, Block)) -> Block>(
    ty: LpnType,
    h: H,
    p: LpnParameters,
) -> nat {
    let lengths = query_lengths(ty, h, p.t, p.n);
    start_of(lengths, lengths.len())
}

/// The outputs that are delivered to the first `n` requests of a queue.
pub open spec fn delivered(
    before: Seq<RCOTReceiverOutput>,
    after: Seq<RCOTReceiverOutput>,
    macs: Seq<Block>,
    choices: Seq<bool>,
    queue: Seq<usize>,
    n: nat,
    id: TransferId,
) -> bool {
    &&& after.len() == before.len() + n
    &&& after.take(before.len() as int) == before
    &&& forall|i: int|
        0 <= i < n ==> {
            let o = #[trigger] after[before.len() + i];
            &&& o.id.0 == id.0 + i
            &&& o.msgs@ == portion(macs, queue, i as nat)
            &&& o.choices@ == portion(choices, queue, i as nat)
        }
}

/// Every index is below `n`.
pub open spec fn all_below(idxs: Seq<usize>, n: usize) -> bool {
    forall|i: int| 0 <= i < idxs.len() ==> (#[trigger] idxs[i]) < n
}

/// The length of the vector of a multi-point extension.
pub open spec fn extension_len(ext: Extension) -> usize {
    match ext {
        Extension::Uniform { len, .. } => len,
        Extension::Regular { len } => len,
    }
}

/// The bits as blocks.
fn to_blocks(bits: &[bool]) -> (r: Vec<Block>)
    ensures
        r@ == as_blocks(bits@),
{
    let mut out: Vec<Block> = Vec::with_capacity(bits.len());
    let mut i: usize = 0;
    while i < bits.len()
        invariant
            i <= bits@.len(),
            out@ == as_blocks(bits@).take(i as int),
        decreases bits@.len() - i,
    {
        out.push(
            if bits[i] {
                Block(1)
            } else {
                Block(0)
            },
        );
        i = i + 1;
        assert(out@ =~= as_blocks(bits@).take(i as int));
    }
    assert(out@ =~= as_blocks(bits@));
    out
}

/// The least significant bits.
fn to_bits(blocks: &[Block]) -> (r: Vec<bool>)
    ensures
        r@ == low_bits(blocks@),
{
    let mut out: Vec<bool> = Vec::with_capacity(blocks.len());
    let mut i: usize = 0;
    while i < blocks.len()
        invariant
            i <= blocks@.len(),
            out@ == low_bits(blocks@).take(i as int),
        decreases blocks@.len() - i,
    {
        out.push(blocks[i].lsb());
        i = i + 1;
        assert(out@ =~= low_bits(blocks@).take(i as int));
    }
    assert(out@ =~= low_bits(blocks@));
    out
}

/// The error vector, as blocks.
fn error_vector(n: usize, err: &[usize]) -> (r: Vec<Block>)
    requires
        all_below(err@, n),
    ensures
        r@ == as_blocks(errors(n as nat, err@)),
{
    let mut x: Vec<Block> = filled_with(Block(0), n);
    let mut i: usize = 0;
    assert(x@ =~= as_blocks(errors(n as nat, err@.take(0))));
    while i < err.len()
        invariant
            all_below(err@, n),
            i <= err@.len(),
            x@ == as_blocks(errors(n as nat, err@.take(i as int))),
        decreases err@.len() - i,
    {
        let idx: usize = err[i];
        x.set(idx, Block(1));
        proof {
            let before = err@.take(i as int);
            let after = err@.take(i + 1);
            assert(after =~= before.push(idx));
            assert forall|j: int| 0 <= j < n implies #[trigger] after.contains(j as usize) == (j
                == idx || before.contains(j as usize)) by {
                if before.contains(j as usize) {
                    let k = choose|k: int| 0 <= k < before.len() && before[k] == j as usize;
                    assert(after[k] == j as usize);
                }
                if j == idx {
                    assert(after[i as int] == j as usize);
                }
            }
            assert(x@ =~= as_blocks(errors(n as nat, after)));
        }
        i = i + 1;
    }
    assert(err@.take(i as int) =~= err@);
    x
}

impl<S> Receiver<S> {
    /// The number of COTs that were allocated.
    pub closed spec fn wanted(self) -> nat {
        self.allocated as nat
    }

    /// The numbers of COTs that queued requests ask for.
    pub closed spec fn queued(self) -> Seq<usize> {
        self.queue@
    }

    /// The number of the next transfer.
    pub closed spec fn next_id(self) -> TransferId {
        self.transfer_id
    }

    /// The configuration.
    pub closed spec fn settings(self) -> FerretConfig<S> {
        self.config
    }

    /// The MACs in stock.
    pub closed spec fn stock(self) -> Seq<Block> {
        self.macs@
    }

    /// The choices in stock.
    pub closed spec fn bits(self) -> Seq<bool> {
        self.choices@
    }

    /// The state of the protocol.
    pub closed spec fn stage(self) -> ReceiverState {
        self.state
    }

    /// The configuration and the extension are valid. There are as many MACs as
    /// choices, but for the choices that an extension has used already.
    pub open spec fn wf(self) -> bool {
        &&& self.settings().wf()
        &&& match self.stage() {
            ReceiverState::Extending {
                params,
                err,
                mpcot,
                spcot_count,
                spcot_lengths,
                ..
            } => {
                &&& mpcot.state.wf()
                &&& extension_len(mpcot.state) == params.n
                &&& all_below(err@, params.n)
                &&& spcot_count == start_of(spcot_lengths@, spcot_lengths@.len())
                &&& self.stock().len() == self.bits().len() + spcot_count
            },
            ReceiverState::Finish { params, err, r, .. } => {
                &&& r@.len() == params.n
                &&& all_below(err@, params.n)
                &&& self.stock().len() == self.bits().len()
            },
            ReceiverState::Error => true,
            _ => self.stock().len() == self.bits().len(),
        }
    }

    /// The number of COTs that a bootstrap has to add.
    pub open spec fn shortfall(self) -> nat {
        if self.stock().len() < self.settings().bootstrap() {
            (self.settings().bootstrap() - self.stock().len()) as nat
        } else {
            0
        }
    }

    /// Everything but the stock and the state is the same.
    pub open spec fn framed(self, other: Self) -> bool {
        &&& self.wanted() == other.wanted()
        &&& self.queued() == other.queued()
        &&& self.next_id() == other.next_id()
        &&& self.settings() == other.settings()
    }

    /// Creates a new receiver.
    ///
    /// # Arguments
    ///
    /// * `config` - The configuration.
    pub fn new(config: FerretConfig<S>) -> (r: Self)
        ensures
            r.wanted() == 0,
            r.queued() == Seq::<usize>::empty(),
            r.next_id() == TransferId(0),
            r.settings() == config,
            r.stock() == Seq::<Block>::empty(),
            r.bits() == Seq::<bool>::empty(),
            r.stage() is Init,
    {
        Receiver {
            allocated: 0,
            queue: VecDeque::new(),
            transfer_id: TransferId(0),
            config,
            macs: Vec::new(),
            choices: Vec::new(),
            state: ReceiverState::Init,
        }
    }

    /// Returns `true` if the receiver wants to initialize.
    pub fn wants_init(&self) -> (r: bool)
        ensures
            r == (self.stage() is Init),
    {
        matches!(self.state, ReceiverState::Init)
    }

    /// Returns `true` if the receiver wants to bootstrap.
    pub fn wants_bootstrap(&self) -> (r: bool)
        requires
            self.settings().wf(),
        ensures
            r == (self.stock().len() < self.settings().bootstrap()),
    {
        self.macs.len() < self.config.bootstrap_cost()
    }

    /// Returns `true` if the receiver wants to extend.
    pub fn wants_extend(&self) -> (r: bool)
        requires
            self.settings().wf(),
        ensures
            r == (self.settings().spare(self.stock().len()) < self.wanted()),
    {
        self.available() < self.allocated
    }

    /// Initializes the receiver.
    ///
    /// # Arguments
    ///
    /// * `seed` - A random seed for the public generator.
    pub fn initialize(&mut self, seed: Block) -> (r: Result<Init, ReceiverError>)
        requires
            old(self).wf(),
        ensures
            final(self).wf(),
            final(self).framed(*old(self)),
            final(self).stock() == old(self).stock(),
            final(self).bits() == old(self).bits(),
            r is Ok <==> old(self).stage() is Init,
            r is Ok ==> {
                &&& r->Ok_0.seed == seed
                &&& final(self).stage() == (ReceiverState::Extend {
                    public_prg: PublicPrg { seed, drawn: 0 },
                })
            },
            r is Err ==> {
                &&& r->Err_0 == ReceiverError::State(Step::Initialize)
                &&& final(self).stage() is Error
            },
    {
        let mut state: ReceiverState = ReceiverState::Error;
        std::mem::swap(&mut state, &mut self.state);
        match state {
            ReceiverState::Init => {
                self.state = ReceiverState::Extend { public_prg: PublicPrg { seed, drawn: 0 } };
                Ok(Init { seed })
            },
            _ => Err(ReceiverError::State(Step::Initialize)),
        }
    }

    /// Allocates COTs for bootstrapping.
    ///
    /// # Arguments
    ///
    /// * `allocate` - Allocates COTs of the bootstrap instance.
    pub fn alloc_bootstrap<A: Fn(usize) -> Result<(), BootstrapError>>(&self, allocate: &A) -> (r:
        Result<(), ReceiverError>)
        requires
            self.settings().wf(),
            call_requires(*allocate, (self.shortfall() as usize,)),
        ensures
            exists|out: Result<(), BootstrapError>|
                {
                    &&& #[trigger] call_ensures(*allocate, (self.shortfall() as usize,), out)
                    &&& r is Ok <==> out is Ok
                    &&& r is Err ==> r->Err_0 == bootstrap_failure(out->Err_0)
                },
    {
        let cost: usize = self.config.bootstrap_cost();
        let missing: usize = cost.saturating_sub(self.macs.len());
        match allocate(missing) {
            Ok(()) => Ok(()),
            Err(e) => Err(fail_bootstrap(e)),
        }
    }

    /// Returns the number of COTs that can be handed out.
    pub fn available(&self) -> (r: usize)
        requires
            self.settings().wf(),
        ensures
            r == self.settings().spare(self.stock().len()),
    {
        self.config.spared(self.macs.len())
    }

    /// Allocates COTs.
    pub fn allocate(&mut self, count: usize)
        requires
            old(self).wanted() + count <= usize::MAX,
        ensures
            final(self).wanted() == old(self).wanted() + count,
            final(self).queued() == old(self).queued(),
            final(self).next_id() == old(self).next_id(),
            final(self).settings() == old(self).settings(),
            final(self).stock() == old(self).stock(),
            final(self).bits() == old(self).bits(),
            final(self).stage() == old(self).stage(),
    {
        self.allocated = self.allocated + count;
    }

    /// Hands out COTs.
    pub fn try_recv_rcot(&mut self, count: usize) -> (r: Result<RCOTReceiverOutput, ReceiverError>)
        requires
            old(self).settings().wf(),
            old(self).next_id().0 < u64::MAX,
            count <= old(self).settings().spare(old(self).stock().len()) ==> count <= old(
                self,
            ).bits().len(),
        ensures
            old(self).wf() ==> final(self).wf(),
            final(self).wanted() == old(self).wanted(),
            final(self).queued() == old(self).queued(),
            final(self).settings() == old(self).settings(),
            final(self).stage() == old(self).stage(),
            ({
                let n = old(self).stock().len();
                let b = old(self).bits().len();
                let available = old(self).settings().spare(n);
                if available < count {
                    &&& r is Err
                    &&& r->Err_0 == (ReceiverError::InsufficientCOTs {
                        expected: count,
                        actual: available as usize,
                    })
                    &&& final(self).stock() == old(self).stock()
                    &&& final(self).bits() == old(self).bits()
                    &&& final(self).next_id() == old(self).next_id()
                } else {
                    &&& r is Ok
                    &&& r->Ok_0.id == old(self).next_id()
                    &&& r->Ok_0.msgs@ == old(self).stock().skip(n - count)
                    &&& r->Ok_0.choices@ == old(self).bits().skip(b - count)
                    &&& final(self).stock() == old(self).stock().take(n - count)
                    &&& final(self).bits() == old(self).bits().take(b - count)
                    &&& final(self).next_id().0 == old(self).next_id().0 + 1
                }
            }),
    {
        let available: usize = self.available();
        if available < count {
            return Err(ReceiverError::InsufficientCOTs { expected: count, actual: available });
        }
        let choices: Vec<bool> = take_back(&mut self.choices, count);
        let msgs: Vec<Block> = take_back(&mut self.macs, count);
        let id: TransferId = self.transfer_id.next();
        Ok(RCOTReceiverOutput { id, choices, msgs })
    }

    /// Hands out COTs, or queues the request where there are not enough.
    pub fn queue_recv_rcot(&mut self, count: usize) -> (r: Option<RCOTReceiverOutput>)
        requires
            old(self).settings().wf(),
            old(self).next_id().0 < u64::MAX,
            count <= old(self).settings().spare(old(self).stock().len()) ==> count <= old(
                self,
            ).bits().len(),
        ensures
            old(self).wf() ==> final(self).wf(),
            final(self).wanted() == old(self).wanted(),
            final(self).settings() == old(self).settings(),
            final(self).stage() == old(self).stage(),
            ({
                let n = old(self).stock().len();
                let b = old(self).bits().len();
                if old(self).settings().spare(n) < count {
                    &&& r is None
                    &&& final(self).queued() == old(self).queued().push(count)
                    &&& final(self).stock() == old(self).stock()
                    &&& final(self).bits() == old(self).bits()
                    &&& final(self).next_id() == old(self).next_id()
                } else {
                    &&& r is Some
                    &&& r->Some_0.id == old(self).next_id()
                    &&& r->Some_0.msgs@ == old(self).stock().skip(n - count)
                    &&& r->Some_0.choices@ == old(self).bits().skip(b - count)
                    &&& final(self).queued() == old(self).queued()
                    &&& final(self).stock() == old(self).stock().take(n - count)
                    &&& final(self).bits() == old(self).bits().take(b - count)
                    &&& final(self).next_id().0 == old(self).next_id().0 + 1
                }
            }),
    {
        match self.try_recv_rcot(count) {
            Ok(output) => Some(output),
            Err(_) => {
                self.queue.push_back(count);
                None
            },
        }
    }

    fn process_queue(&mut self, outputs: &mut Vec<RCOTReceiverOutput>)
        requires
            old(self).settings().wf(),
            old(self).next_id().0 + old(self).queued().len() <= u64::MAX,
            old(self).stock().len() == old(self).bits().len(),
        ensures
            final(self).wanted() == old(self).wanted(),
            final(self).settings() == old(self).settings(),
            final(self).stage() == old(self).stage(),
            final(self).stock().len() == final(self).bits().len(),
            ({
                let queue = old(self).queued();
                let stock = old(self).stock();
                let n = served(queue, old(self).settings().spare(stock.len()));
                &&& final(self).queued() == queue.skip(n as int)
                &&& final(self).stock() == remainder(stock, queue, n)
                &&& final(self).bits() == remainder(old(self).bits(), queue, n)
                &&& final(self).next_id().0 == old(self).next_id().0 + n
                &&& delivered(
                    old(outputs)@,
                    final(outputs)@,
                    stock,
                    old(self).bits(),
                    queue,
                    n,
                    old(self).next_id(),
                )
            }),
    {
        let available: usize = self.available();
        let ghost queue = self.queue@;
        let ghost stock = self.macs@;
        let ghost bits = self.choices@;
        let ghost n = served(queue, available as nat);
        let ghost id = self.transfer_id;
        let counts: Vec<usize> = serve(&mut self.queue, available);
        let ghost start = *self;
        let ghost before = outputs@;
        proof {
            lemma_served(queue, available as nat);
            assert(outputs@.take(before.len() as int) =~= before);
            assert(stock.take(stock.len() as int) =~= stock);
            assert(bits.take(bits.len() as int) =~= bits);
        }
        let mut i: usize = 0;
        while i < counts.len()
            invariant
                i <= counts@.len(),
                n == counts@.len(),
                n <= queue.len(),
                counts@ == queue.take(n as int),
                available <= stock.len(),
                stock.len() == bits.len(),
                start_of(queue, n) <= available,
                forall|j: nat| j <= n ==> #[trigger] start_of(queue, j) <= start_of(queue, n),
                id.0 + queue.len() <= u64::MAX,
                self.transfer_id.0 == id.0 + i,
                self.macs@ == remainder(stock, queue, i as nat),
                self.choices@ == remainder(bits, queue, i as nat),
                self.allocated == start.allocated,
                self.queue == start.queue,
                self.config == start.config,
                self.state == start.state,
                delivered(before, outputs@, stock, bits, queue, i as nat, id),
            decreases counts@.len() - i,
        {
            let count: usize = counts[i];
            let ghost earlier = outputs@;
            let ghost macs_before = self.macs@;
            let ghost choices_before = self.choices@;
            proof {
                assert(count == queue[i as int]);
                assert(start_of(queue, (i + 1) as nat) == start_of(queue, i as nat) + count);
            }
            let next: TransferId = self.transfer_id.next();
            let msgs: Vec<Block> = take_back(&mut self.macs, count);
            let choices: Vec<bool> = take_back(&mut self.choices, count);
            outputs.push(RCOTReceiverOutput { id: next, choices, msgs });
            proof {
                assert(macs_before.skip(macs_before.len() - count) =~= portion(
                    stock,
                    queue,
                    i as nat,
                ));
                assert(choices_before.skip(choices_before.len() - count) =~= portion(
                    bits,
                    queue,
                    i as nat,
                ));
                assert(self.macs@ =~= remainder(stock, queue, (i + 1) as nat));
                assert(self.choices@ =~= remainder(bits, queue, (i + 1) as nat));
                assert(outputs@.take(before.len() as int) =~= earlier.take(before.len() as int));
                assert forall|j: int| 0 <= j < i + 1 implies {
                    let o = #[trigger] outputs@[before.len() + j];
                    &&& o.id.0 == id.0 + j
                    &&& o.msgs@ == portion(stock, queue, j as nat)
                    &&& o.choices@ == portion(bits, queue, j as nat)
                } by {
                    if j < i {
                        assert(outputs@[before.len() + j] == earlier[before.len() + j]);
                    }
                }
            }
            i = i + 1;
        }
    }

    /// How an extension proceeds, for what the single-point extension and the
    /// start of the check were handed and gave.
    pub open spec fn extended(
        old: Self,
        new: Self,
        r: Result<ReceiverCheck, ReceiverError>,
        macs: Seq<Block>,
        out: Result<Vec<Block>, String>,
        pair: (Vec<Block>, Vec<bool>),
        flip: Result<Derandomize, String>,
    ) -> bool {
        old.stage() matches ReceiverState::Extending {
            public_prg,
            params,
            err,
            mpcot,
            spcot_count,
            ..
        } && {
            let left = old.stock().len() - spcot_count;
            let kept = left - CSP;
            &&& macs == old.stock().skip(left)
            &&& match out {
                Err(e) => {
                    &&& r is Err
                    &&& r->Err_0 == ReceiverError::Spcot(e)
                    &&& new.stage() is Error
                    &&& new.stock() == old.stock()
                    &&& new.bits() == old.bits()
                },
                Ok(ws) => if ws@.len() != mpcot.state.spcot_len() {
                    &&& r is Err
                    &&& r->Err_0 == ReceiverError::Mpcot(
                        MPCOTReceiverError::SPCOTLength {
                            expected: mpcot.state.spcot_len() as usize,
                            actual: ws@.len() as usize,
                        },
                    )
                    &&& new.stage() is Error
                    &&& new.stock() == old.stock().take(left)
                    &&& new.bits() == old.bits()
                } else {
                    &&& pair.0@ == old.stock().subrange(kept, left)
                    &&& pair.1@ == old.bits().skip(kept)
                    &&& match flip {
                        Err(e) => {
                            &&& r is Err
                            &&& r->Err_0 == ReceiverError::Spcot(e)
                            &&& new.stage() is Error
                            &&& new.stock() == old.stock().take(left)
                            &&& new.bits() == old.bits()
                        },
                        Ok(derandomize) => {
                            &&& r is Ok
                            &&& r->Ok_0.derandomize == derandomize
                            &&& new.stock() == old.stock().take(kept)
                            &&& new.bits() == old.bits().take(kept)
                            &&& new.stage() matches ReceiverState::Finish {
                                public_prg: g,
                                params: p,
                                err: e,
                                r: v,
                            } && g == public_prg && p == params && e == err && v@
                                == mpcot.state.result(ws@)
                        },
                    }
                },
            }
        }
    }

    /// Performs extension.
    ///
    /// # Arguments
    ///
    /// * `msg` - The sender's extend message.
    /// * `spcot` - The single-point extension, from the logarithms of the
    ///   lengths, the indices, the MACs, the masked sums and the sums of the
    ///   leaves to the joined vectors.
    /// * `start_check` - Starts the consistency check, from the MACs and the
    ///   choices to the choices to flip.
    pub fn extend<
        X: Fn((Vec<usize>, Vec<usize>, Vec<Block>, SenderExtend)) -> Result<Vec<Block>, String>,
        K: Fn((Vec<Block>, Vec<bool>)) -> Result<Derandomize, String>,
    >(&mut self, msg: SenderExtend, spcot: &X, start_check: &K) -> (r: Result<
        ReceiverCheck,
        ReceiverError,
    >)
        requires
            old(self).wf(),
            forall|a: (Vec<usize>, Vec<usize>, Vec<Block>, SenderExtend)| #[trigger]
                call_requires(*spcot, (a,)),
            forall|a: (Vec<Block>, Vec<bool>)| #[trigger] call_requires(*start_check, (a,)),
            old(self).stage() matches ReceiverState::Extending { spcot_count, .. } ==> spcot_count
                + CSP <= old(self).stock().len(),
        ensures
            final(self).wf(),
            final(self).framed(*old(self)),
            match old(self).stage() {
                ReceiverState::Extending {
                    public_prg,
                    params,
                    err,
                    mpcot,
                    spcot_count,
                    spcot_lengths,
                    spcot_idxs,
                } => {
                    exists|
                        macs: Vec<Block>,
                        out: Result<Vec<Block>, String>,
                        pair: (Vec<Block>, Vec<bool>),
                        flip: Result<Derandomize, String>,
                    |
                        {
                            &&& call_ensures(
                                *spcot,
                                ((spcot_lengths, spcot_idxs, macs, msg),),
                                out,
                            )
                            &&& out is Ok && out->Ok_0@.len() == mpcot.state.spcot_len()
                                ==> call_ensures(*start_check, (pair,), flip)
                            &&& #[trigger] Self::extended(
                                *old(self),
                                *final(self),
                                r,
                                macs@,
                                out,
                                pair,
                                flip,
                            )
                        }
                },
                _ => {
                    &&& r is Err
                    &&& r->Err_0 == ReceiverError::State(Step::Extending)
                    &&& final(self).stage() is Error
                    &&& final(self).stock() == old(self).stock()
                    &&& final(self).bits() == old(self).bits()
                },
            },
    {
        let mut state: ReceiverState = ReceiverState::Error;
        std::mem::swap(&mut state, &mut self.state);
        match state {
            ReceiverState::Extending {
                public_prg,
                params,
                err,
                mpcot,
                spcot_count,
                spcot_lengths,
                spcot_idxs,
            } => {
                let ghost mut pair: (Vec<Block>, Vec<bool>) = arbitrary();
                let ghost mut flip: Result<Derandomize, String> = arbitrary();
                let len: usize = self.macs.len();
                let left: usize = len - spcot_count;
                let macs: Vec<Block> = copied_range(self.macs.as_slice(), left, len);
                let ghost given = macs;
                assert(given@ =~= self.macs@.skip(left as int));
                let out: Result<Vec<Block>, String> = spcot(
                    (spcot_lengths, spcot_idxs, macs, msg),
                );
                let ghost outcome = out;
                let r: Result<ReceiverCheck, ReceiverError> = match out {
                    Ok(ws) => {
                        // Drop used COTs.
                        self.macs.truncate(left);
                        assert(self.macs@ =~= old(self).stock().take(left as int));
                        match mpcot.extend(ws.as_slice()) {
                            Ok(v) => {
                                let kept: usize = left - CSP;
                                let macs: Vec<Block> = copied_range(
                                    self.macs.as_slice(),
                                    kept,
                                    left,
                                );
                                let masks: Vec<bool> = copied_range(
                                    self.choices.as_slice(),
                                    kept,
                                    left,
                                );
                                assert(macs@ =~= old(self).stock().subrange(
                                    kept as int,
                                    left as int,
                                ));
                                assert(masks@ =~= old(self).bits().skip(kept as int));
                                proof {
                                    pair = (macs, masks);
                                }
                                let result: Result<Derandomize, String> = start_check(
                                    (macs, masks),
                                );
                                proof {
                                    flip = result;
                                }
                                match result {
                                    Ok(derandomize) => {
                                        // Drop used COTs.
                                        self.macs.truncate(kept);
                                        self.choices.truncate(kept);
                                        assert(self.macs@ =~= old(self).stock().take(kept as int));
                                        assert(self.choices@ =~= old(self).bits().take(
                                            kept as int,
                                        ));
                                        self.state =
                                        ReceiverState::Finish { public_prg, params, err, r: v };
                                        Ok(ReceiverCheck { derandomize })
                                    },
                                    Err(e) => Err(ReceiverError::Spcot(e)),
                                }
                            },
                            Err(e) => Err(ReceiverError::Mpcot(e)),
                        }
                    },
                    Err(e) => Err(ReceiverError::Spcot(e)),
                };
                assert(Self::extended(*old(self), *self, r, given@, outcome, pair, flip));
                r
            },
            _ => Err(ReceiverError::State(Step::Extending)),
        }
    }

    /// Finishes extension. The outputs of the requests that can be served are
    /// added to `outputs`.
    ///
    /// # Arguments
    ///
    /// * `msg` - The sender's check message.
    /// * `check` - The consistency check of the sender's hashed check value.
    /// * `prg` - What the public generator gives for its seed and the number of a
    ///   value.
    /// * `code` - Makes the matrix of the code from its seed, which is the next
    ///   public value, and its dimension.
    pub fn finish_extend<
        C: Fn([u8; 32]) -> Result<(), String>,
        L: Fn(usize) -> [usize; 10],
        P: Fn((Block, u64)) -> Block,
        M: Fn((Block, u32)) -> L,
    >(
        &mut self,
        msg: SenderCheck,
        check: &C,
        prg: &P,
        code: &M,
        outputs: &mut Vec<RCOTReceiverOutput>,
    ) -> (r: Result<(), ReceiverError>)
        requires
            old(self).wf(),
            old(self).next_id().0 + old(self).queued().len() <= u64::MAX,
            call_requires(*check, (msg.hashed_v,)),
            old(self).stage() matches ReceiverState::Finish { public_prg, params, .. } ==> {
                let columns = code_of(*code, public_prg.value(*prg), params.k);
                &&& is_function::<(Block, u64), Block, P>(*prg)
                &&& is_function::<(Block, u32), L, M>(*code)
                &&& is_function::<usize, [usize; 10], L>(columns)
                &&& columns_below(columns, params.n as nat, params.k as nat)
                &&& params.k <= old(self).stock().len()
                &&& public_prg.drawn < u64::MAX
            },
        ensures
            final(self).wf(),
            final(self).settings() == old(self).settings(),
            match old(self).stage() {
                ReceiverState::Finish { public_prg, params, .. } => exists|out: Result<(), String>|
                    {
                        &&& #[trigger] call_ensures(*check, (msg.hashed_v,), out)
                        &&& Self::finished(
                            *old(self),
                            *final(self),
                            r,
                            old(outputs)@,
                            final(outputs)@,
                            code_of(*code, public_prg.value(*prg), params.k),
                            out,
                        )
                    },
                _ => {
                    &&& r is Err
                    &&& r->Err_0 == ReceiverError::State(Step::Finish)
                    &&& final(self).stage() is Error
                    &&& final(self).stock() == old(self).stock()
                    &&& final(self).bits() == old(self).bits()
                    &&& final(self).framed(*old(self))
                    &&& final(outputs)@ == old(outputs)@
                },
            },
    {
        let mut state: ReceiverState = ReceiverState::Error;
        std::mem::swap(&mut state, &mut self.state);
        match state {
            ReceiverState::Finish { public_prg, params, err, r } => {
                let out: Result<(), String> = check(msg.hashed_v);
                let ghost outcome = out;
                match out {
                    Ok(()) => {},
                    Err(e) => {
                        return Err(ReceiverError::Spcot(e));
                    },
                }
                let mut public_prg: PublicPrg = public_prg;
                let lpn_seed: Block = public_prg.random(prg);
                let columns: L = call(code, (lpn_seed, params.k as u32));

                // Compute z = A * w + r.
                let w: Vec<Block> = take_back(&mut self.macs, params.k);
                let mut z: Vec<Block> = encode(&columns, r.as_slice(), w.as_slice());

                // Compute x = A * u + e.
                let bits: Vec<bool> = take_back(&mut self.choices, params.k);
                let u: Vec<Block> = to_blocks(bits.as_slice());
                let e: Vec<Block> = error_vector(params.n, err.as_slice());
                let x: Vec<Block> = encode(&columns, e.as_slice(), u.as_slice());
                let mut x: Vec<bool> = to_bits(x.as_slice());
                self.macs.append(&mut z);
                self.choices.append(&mut x);
                if self.allocated <= self.available() {
                    // We've finished extending.
                    self.allocated = 0;
                    self.process_queue(outputs);
                }
                self.state = ReceiverState::Extend { public_prg };
                assert(call_ensures(*check, (msg.hashed_v,), outcome));
                Ok(())
            },
            _ => Err(ReceiverError::State(Step::Finish)),
        }
    }

    /// How an extension finishes, for what the check gave.
    pub open spec fn finished<L: Fn(usize) -> [usize; 10]>(
        old: Self,
        new: Self,
        r: Result<(), ReceiverError>,
        before: Seq<RCOTReceiverOutput>,
        after: Seq<RCOTReceiverOutput>,
        columns: L,
        out: Result<(), String>,
    ) -> bool {
        old.stage() matches ReceiverState::Finish { public_prg, params, err, r: v } && {
            if out is Err {
                &&& r is Err
                &&& r->Err_0 == ReceiverError::Spcot(out->Err_0)
                &&& new.stage() is Error
                &&& new.stock() == old.stock()
                &&& new.bits() == old.bits()
                &&& new.framed(old)
                &&& after == before
            } else {
                let left = old.stock().len() - params.k;
                let stock = old.stock().take(left) + encoded(columns, v@, old.stock().skip(left));
                let bits = old.bits().take(left) + low_bits(
                    encoded(
                        columns,
                        as_blocks(errors(params.n as nat, err@)),
                        as_blocks(old.bits().skip(left)),
                    ),
                );
                let spare = old.settings().spare(stock.len());
                &&& r is Ok
                &&& new.stage() == (ReceiverState::Extend { public_prg: public_prg.advanced() })
                &&& if spare < old.wanted() {
                    &&& new.stock() == stock
                    &&& new.bits() == bits
                    &&& new.framed(old)
                    &&& after == before
                } else {
                    // We've finished extending.
                    let queue = old.queued();
                    let n = served(queue, spare);
                    &&& new.stock() == remainder(stock, queue, n)
                    &&& new.bits() == remainder(bits, queue, n)
                    &&& new.wanted() == 0
                    &&& new.queued() == queue.skip(n as int)
                    &&& new.next_id().0 == old.next_id().0 + n
                    &&& delivered(before, after, stock, bits, queue, n, old.next_id())
                }
            }
        }
    }
}

impl<S: Fn((LpnType, usize, usize)) -> LpnParameters> Receiver<S> {
    /// The number of COTs after a bootstrap, where one is needed.
    pub open spec fn len_after(self) -> nat {
        self.stock().len() + self.shortfall()
    }

    /// These parameters may be selected for the next iteration.
    pub open spec fn may_use(self, p: LpnParameters) -> bool {
        self.settings().may_select(
            self.len_after() as usize,
            self.settings().lacking(self.wanted(), self.len_after()) as usize,
            p,
        )
    }

    /// The MACs after a bootstrap, where one is needed.
    pub open spec fn macs_after(self, out: Result<RCOTReceiverOutput, BootstrapError>) -> Seq<Block> {
        if self.shortfall() > 0 {
            self.stock() + out->Ok_0.msgs@
        } else {
            self.stock()
        }
    }

    /// The choices after a bootstrap, where one is needed.
    pub open spec fn bits_after(self, out: Result<RCOTReceiverOutput, BootstrapError>) -> Seq<bool> {
        if self.shortfall() > 0 {
            self.bits() + out->Ok_0.choices@
        } else {
            self.bits()
        }
    }

    /// Starts extension.
    ///
    /// # Arguments
    ///
    /// * `bootstrap` - Takes COTs from the bootstrap instance.
    /// * `prg` - What the public generator gives for its seed and the number of a
    ///   value.
    /// * `blocks` - What the generator of the Cuckoo hash functions gives for its
    ///   seed, which is the next public value, and the number of a block.
    /// * `ciphers` - Makes the hash functions from the keys of three ciphers.
    /// * `sample` - Samples error indices, for an LPN type, a length and a count.
    /// * `derandomize` - From the logarithms of the lengths of the single-point
    ///   vectors, their indices and the random choices to the choices to flip.
    pub fn start_extend<
        C: Fn(usize) -> Result<RCOTReceiverOutput, BootstrapError>,
        H: Fn((u32, Block)) -> Block,
        P: Fn((Block, u64)) -> Block,
        K: Fn((Block, u64)) -> Block,
        M: Fn((Block, Block, Block)) -> H,
        E: Fn((LpnType, usize, usize)) -> Vec<usize>,
        D: Fn((Vec<usize>, Vec<usize>, Vec<bool>)) -> Result<Derandomize, String>,
    >(
        &mut self,
        bootstrap: &C,
        prg: &P,
        blocks: &K,
        ciphers: &M,
        sample: &E,
        derandomize: &D,
    ) -> (r: Result<ReceiverExtend, ReceiverError>)
        requires
            old(self).wf(),
            old(self).settings().selects(),
            is_function::<(Block, u64), Block, P>(*prg),
            is_function::<(Block, u64), Block, K>(*blocks),
            is_function::<(Block, Block, Block), H, M>(*ciphers),
            call_requires(*bootstrap, (old(self).shortfall() as usize,)),
            forall|out: RCOTReceiverOutput| #[trigger]
                call_ensures(
                    *bootstrap,
                    (old(self).shortfall() as usize,),
                    Ok::<RCOTReceiverOutput, BootstrapError>(out),
                ) ==> out.msgs@.len() == out.choices@.len() == old(self).shortfall(),
            forall|a: (LpnType, usize, usize)| #[trigger] call_requires(*sample, (a,)),
            forall|a: (LpnType, usize, usize), err: Vec<usize>| #[trigger]
                call_ensures(*sample, (a,), err) ==> err@.len() == a.2 && all_below(err@, a.1),
            forall|a: (Vec<usize>, Vec<usize>, Vec<bool>)| #[trigger]
                call_requires(*derandomize, (a,)),
            old(self).stage() matches ReceiverState::Extend { public_prg } ==> {
                let hashes = hash_functions(*blocks, *ciphers, public_prg.value(*prg));
                &&& public_prg.drawn < u64::MAX
                &&& is_function::<(u32, Block), Block, H>(hashes)
                &&& forall|p: LpnParameters| #[trigger]
                    old(self).may_use(p) && sender::refusal(
                        old(self).settings().noise(),
                        p.t,
                        p.n,
                    ) is None ==> query_count(old(self).settings().noise(), hashes, p) <= old(
                        self,
                    ).len_after()
            },
        ensures
            final(self).wf(),
            final(self).framed(*old(self)),
            match old(self).stage() {
                ReceiverState::Extend { public_prg } => {
                    let hashes = hash_functions(*blocks, *ciphers, public_prg.value(*prg));
                    exists|
                        out: Result<RCOTReceiverOutput, BootstrapError>,
                        p: LpnParameters,
                        err: Vec<usize>,
                        query: (Vec<usize>, Vec<usize>, Vec<bool>),
                        flip: Result<Derandomize, String>,
                    |
                        {
                            &&& old(self).shortfall() > 0 ==> call_ensures(
                                *bootstrap,
                                (old(self).shortfall() as usize,),
                                out,
                            )
                            &&& old(self).shortfall() == 0 || out is Ok ==> {
                                let ty = old(self).settings().noise();
                                &&& call_ensures(*sample, ((ty, p.n, p.t),), err)
                                &&& refusal(ty, hashes, err@, p.n) is None ==> call_ensures(
                                    *derandomize,
                                    (query,),
                                    flip,
                                )
                            }
                            &&& #[trigger] Self::started(
                                *old(self),
                                *final(self),
                                r,
                                public_prg,
                                hashes,
                                out,
                                p,
                                err,
                                query,
                                flip,
                            )
                        }
                },
                _ => {
                    &&& r is Err
                    &&& r->Err_0 == ReceiverError::State(Step::Extend)
                    &&& final(self).stage() is Error
                    &&& final(self).stock() == old(self).stock()
                    &&& final(self).bits() == old(self).bits()
                },
            },
    {
        let mut state: ReceiverState = ReceiverState::Error;
        std::mem::swap(&mut state, &mut self.state);
        match state {
            ReceiverState::Extend { public_prg } => {
                let ghost first_prg = public_prg;
                let ghost hashes: H = hash_functions(*blocks, *ciphers, first_prg.value(*prg));
                let mut public_prg: PublicPrg = public_prg;
                let seed: Block = public_prg.random(prg);

                let ghost mut out: Result<RCOTReceiverOutput, BootstrapError> = arbitrary();
                let ghost mut query: (Vec<usize>, Vec<usize>, Vec<bool>) = arbitrary();
                let ghost mut flip: Result<Derandomize, String> = arbitrary();

                // If available COTs are insufficient, we bootstrap from the inner COT
                // instance.
                if self.wants_bootstrap() {
                    let missing: usize = self.config.bootstrap_cost() - self.macs.len();
                    let result: Result<RCOTReceiverOutput, BootstrapError> = bootstrap(missing);
                    proof {
                        out = result;
                    }
                    match result {
                        Ok(output) => {
                            let mut macs: Vec<Block> = output.msgs;
                            let mut choices: Vec<bool> = output.choices;
                            self.macs.append(&mut macs);
                            self.choices.append(&mut choices);
                        },
                        Err(e) => {
                            let ghost p: LpnParameters = arbitrary();
                            let ghost err: Vec<usize> = arbitrary();
                            let r: Result<ReceiverExtend, ReceiverError> = Err(fail_bootstrap(e));
                            assert(Self::started(
                                *old(self),
                                *self,
                                r,
                                first_prg,
                                hashes,
                                out,
                                p,
                                err,
                                query,
                                flip,
                            ));
                            return r;
                        },
                    }
                }
                assert(self.macs@ =~= old(self).macs_after(out));
                assert(self.choices@ =~= old(self).bits_after(out));
                let len: usize = self.macs.len();
                assert(len == old(self).len_after());
                let available: usize = self.available();
                let missing: usize = self.allocated.saturating_sub(available);
                let params: LpnParameters = self.config.select_params(len, missing);
                assert(old(self).may_use(params));
                let lpn_type: LpnType = self.config.lpn_type();
                let err: Vec<usize> = sample((lpn_type, params.n, params.t));
                proof {
                    if params.n <= u32::MAX {
                        assert(params.n as u32 == params.n);
                        assert forall|i: int| 0 <= i < err@.len() implies ((
                        #[trigger] err@[i]) as u32) < (params.n as u32) by {
                            assert(err@[i] < params.n);
                            assert(err@[i] as u32 == err@[i]);
                        }
                    }
                }
                let ghost sampled = err;
                let r: Result<ReceiverExtend, ReceiverError> = match MPCOTReceiver::new(
                    seed,
                    lpn_type,
                    blocks,
                    ciphers,
                ).start_extend(err.as_slice(), params.n) {
                    Ok((mpcot, spcot_lengths, spcot_idxs)) => {
                        assert(sender::refusal(lpn_type, params.t, params.n) is None);
                        assert(spcot_lengths@ =~= query_lengths(
                            lpn_type,
                            hashes,
                            params.t,
                            params.n,
                        ));
                        assert(spcot_idxs@ =~= query_idxs(lpn_type, hashes, err@, params.n));
                        assert(query_count(lpn_type, hashes, params) <= len);
                        let spcot_count: usize = joint_length(spcot_lengths.as_slice());
                        let left: usize = len - spcot_count;
                        let masks: Vec<bool> = copied_range(self.choices.as_slice(), left, len);
                        assert(masks@ =~= self.choices@.skip(left as int));
                        let lengths: Vec<usize> = copied(spcot_lengths.as_slice());
                        let idxs: Vec<usize> = copied(spcot_idxs.as_slice());
                        proof {
                            query = (lengths, idxs, masks);
                        }
                        let result: Result<Derandomize, String> = derandomize(
                            (lengths, idxs, masks),
                        );
                        proof {
                            flip = result;
                        }
                        match result {
                            Ok(derandomize) => {
                                // Drop used COT choices.
                                self.choices.truncate(left);
                                assert(self.choices@ =~= old(self).bits_after(out).take(
                                    left as int,
                                ));
                                self.state =
                                ReceiverState::Extending {
                                    public_prg,
                                    params,
                                    err,
                                    mpcot,
                                    spcot_count,
                                    spcot_lengths,
                                    spcot_idxs,
                                };
                                Ok(ReceiverExtend { derandomize })
                            },
                            Err(e) => Err(ReceiverError::Spcot(e)),
                        }
                    },
                    Err(e) => Err(ReceiverError::Mpcot(e)),
                };
                assert(Self::started(
                    *old(self),
                    *self,
                    r,
                    first_prg,
                    hashes,
                    out,
                    params,
                    sampled,
                    query,
                    flip,
                ));
                r
            },
            _ => Err(ReceiverError::State(Step::Extend)),
        }
    }

    /// How an extension starts, for what the bootstrap gave, the parameters that
    /// were selected, the error indices that were sampled, and what the
    /// derandomization was handed and gave.
    pub open spec fn started<H: Fn((u32, Block)) -> Block>(
        old: Self,
        new: Self,
        r: Result<ReceiverExtend, ReceiverError>,
        public_prg: PublicPrg,
        hashes: H,
        out: Result<RCOTReceiverOutput, BootstrapError>,
        p: LpnParameters,
        err: Vec<usize>,
        query: (Vec<usize>, Vec<usize>, Vec<bool>),
        flip: Result<Derandomize, String>,
    ) -> bool {
        if old.shortfall() > 0 && out is Err {
            &&& r is Err
            &&& r->Err_0 == bootstrap_failure(out->Err_0)
            &&& new.stage() is Error
            &&& new.stock() == old.stock()
            &&& new.bits() == old.bits()
        } else {
            let ty = old.settings().noise();
            let bits = old.bits_after(out);
            &&& new.stock() == old.macs_after(out)
            &&& old.may_use(p)
            &&& match refusal(ty, hashes, err@, p.n) {
                Some(e) => {
                    &&& r is Err
                    &&& r->Err_0 == ReceiverError::Mpcot(e)
                    &&& new.stage() is Error
                    &&& new.bits() == bits
                },
                None => {
                    let count = query_count(ty, hashes, p);
                    let left = bits.len() - count;
                    &&& query.0@ == query_lengths(ty, hashes, p.t, p.n)
                    &&& query.1@ == query_idxs(ty, hashes, err@, p.n)
                    &&& query.2@ == bits.skip(left)
                    &&& match flip {
                        Err(e) => {
                            &&& r is Err
                            &&& r->Err_0 == ReceiverError::Spcot(e)
                            &&& new.stage() is Error
                            &&& new.bits() == bits
                        },
                        Ok(derandomize) => {
                            &&& r is Ok
                            &&& r->Ok_0.derandomize == derandomize
                            &&& new.bits() == bits.take(left)
                            &&& new.stage() matches ReceiverState::Extending {
                                public_prg: g,
                                params,
                                err: e,
                                mpcot,
                                spcot_count,
                                spcot_lengths,
                                spcot_idxs,
                            } && {
                                &&& g == public_prg.advanced()
                                &&& params == p
                                &&& e == err
                                &&& spcot_count == count
                                &&& spcot_lengths@ == query.0@
                                &&& spcot_idxs@ == query.1@
                                &&& match ty {
                                    LpnType::Uniform => mpcot.state.uniform_for(
                                        hashes,
                                        p.t as nat,
                                        p.n,
                                    ),
                                    LpnType::Regular => mpcot.state == (Extension::Regular {
                                        len: p.n,
                                    }),
                                }
                            }
                        },
                    }
                },
            }
        }
    }
}

} // verus!
