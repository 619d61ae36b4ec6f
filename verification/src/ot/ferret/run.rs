//! What a sender and a receiver that follow the protocol hand out.
use crate::block::Block;
use crate::func::apply;
use crate::memory::correlated::keys::authed;
use crate::ot::ferret::config::{FerretConfig, LpnParameters, CSP};
use crate::ot::ferret::cuckoo::{insert_all, table_length};
use crate::ot::ferret::law::{lemma_regular_iteration, lemma_uniform_iteration};
use crate::ot::ferret::lpn::{
    as_blocks, code_of, columns_below, correlated, encoded, errors, low_bits,
};
use crate::ot::ferret::mpcot::law::single_point;
use crate::ot::ferret::mpcot::receiver::uniform_queries;
use crate::ot::ferret::mpcot::{hash_functions, powers, start_of, uniform_logs, LpnType};
use crate::ot::ferret::msgs::{
    BootstrapError, Derandomize, PublicPrg, RCOTReceiverOutput, RCOTSenderOutput, ReceiverCheck,
    ReceiverExtend, SenderCheck, SenderExtend,
};
use crate::ot::ferret::queue::{
    lemma_portions, lemma_served, lemma_served_most, portion, remainder, served,
};
use crate::ot::ferret::receiver::{all_below, query_count, query_lengths, Receiver};
use crate::ot::ferret::sender::Sender;
use crate::ot::ferret::{receiver, sender};
use vstd::arithmetic::power2::{lemma_pow2_pos, pow2};
use vstd::prelude::*;

verus! {

/// Both parties are configured alike.
pub open spec fn alike<S, T>(a: FerretConfig<S>, b: FerretConfig<T>) -> bool {
    &&& a.noise() == b.noise()
    &&& a.reserves() == b.reserves()
    &&& a.table() == b.table()
}

/// The parties are in step: what the receiver has in stock is correlated with
/// what the sender has, and both were asked for the same.
pub open spec fn in_step<S, T>(s: Sender<S>, r: Receiver<T>) -> bool {
    &&& alike(s.settings(), r.settings())
    &&& s.wanted() == r.wanted()
    &&& s.queued() == r.queued()
    &&& s.next_id() == r.next_id()
    &&& correlated(s.stock(), r.stock(), r.bits(), s.correlation())
}

/// Both parties may start an extension, and have the same public generator.
pub open spec fn share_generator<S, T>(s: Sender<S>, r: Receiver<T>) -> bool {
    &&& s.stage() is Extend
    &&& r.stage() is Extend
    &&& s.stage()->Extend_public_prg == r.stage()->Extend_public_prg
}

/// What the sender was handed and what the receiver was handed belong together.
pub open spec fn matching(
    a: RCOTSenderOutput,
    b: RCOTReceiverOutput,
    delta: Block,
) -> bool {
    &&& a.id == b.id
    &&& correlated(a.keys@, b.msgs@, b.choices@, delta)
}

/// The outputs of the single-point transfers: the receiver has what the sender
/// has but for the queried cells.
pub open spec fn points_agree<H: Fn((u32, Block)) -> Block>(
    ty: LpnType,
    h: H,
    p: LpnParameters,
    err: Seq<usize>,
    vs: Seq<Block>,
    ws: Seq<Block>,
    delta: Block,
) -> bool {
    match ty {
        LpnType::Uniform => {
            let lengths = powers(uniform_logs(h, p.t as nat, p.n));
            forall|j: int|
                0 <= j < table_length(p.t as nat) ==> single_point(
                    vs,
                    ws,
                    #[trigger] start_of(lengths, j as nat),
                    lengths[j] as nat,
                    uniform_queries(h, insert_all(h, err)->Some_0, p.n)[j] as nat,
                    delta,
                )
        },
        LpnType::Regular => {
            let k = p.n as int / p.t as int;
            forall|j: int|
                0 <= j < p.t ==> single_point(
                    vs,
                    ws,
                    (j * k) as nat,
                    k as nat,
                    (#[trigger] err[j] as int % k) as nat,
                    delta,
                )
        },
    }
}

/// The error indices are those of the noise, and the numbers fit a word.
pub open spec fn admissible(ty: LpnType, p: LpnParameters, err: Seq<usize>) -> bool {
    &&& 0 < err.len() == p.t <= p.n
    &&& all_below(err, p.n)
    &&& ty is Uniform ==> {
        &&& p.n <= u32::MAX
        &&& 6 * p.n + table_length(p.t as nat) <= usize::MAX
        &&& err.no_duplicates()
    }
}

proof fn lemma_take(
    keys: Seq<Block>,
    macs: Seq<Block>,
    choices: Seq<bool>,
    delta: Block,
    a: int,
    b: int,
)
    requires
        correlated(keys, macs, choices, delta),
        0 <= a <= b <= keys.len(),
    ensures
        correlated(keys.subrange(a, b), macs.subrange(a, b), choices.subrange(a, b), delta),
{
    let m = macs.subrange(a, b);
    assert forall|i: int| 0 <= i < m.len() implies (#[trigger] m[i])
        == authed(
        keys.subrange(a, b)[i],
        choices.subrange(a, b)[i],
        delta,
    ) by {
        assert(macs[a + i] == authed(
            keys[a + i],
            choices[a + i],
            delta,
        ));
    }
}

proof fn lemma_join(
    a: (Seq<Block>, Seq<Block>, Seq<bool>),
    b: (Seq<Block>, Seq<Block>, Seq<bool>),
    delta: Block,
)
    requires
        correlated(a.0, a.1, a.2, delta),
        correlated(b.0, b.1, b.2, delta),
    ensures
        correlated(a.0 + b.0, a.1 + b.1, a.2 + b.2, delta),
{
    let m = a.1 + b.1;
    assert forall|i: int| 0 <= i < m.len() implies (#[trigger] m[i])
        == authed((a.0 + b.0)[i], (a.2 + b.2)[i], delta) by {
        if i < a.0.len() {
            assert(a.1[i] == m[i]);
        } else {
            assert(b.1[i - a.0.len()] == m[i]);
        }
    }
}

/// Requests that are served from correlated stocks get outputs that belong
/// together, and what is left is correlated.
proof fn lemma_delivered(
    keys: Seq<Block>,
    macs: Seq<Block>,
    choices: Seq<bool>,
    delta: Block,
    queue: Seq<usize>,
    available: nat,
    i: nat,
)
    requires
        correlated(keys, macs, choices, delta),
        available <= keys.len(),
    ensures
        ({
            let n = served(queue, available);
            &&& correlated(
                remainder(keys, queue, n),
                remainder(macs, queue, n),
                remainder(choices, queue, n),
                delta,
            )
            &&& i < n ==> correlated(
                portion(keys, queue, i),
                portion(macs, queue, i),
                portion(choices, queue, i),
                delta,
            )
        }),
{
    let n = served(queue, available);
    let len = keys.len() as int;
    lemma_served(queue, available);
    let left = len - start_of(queue, n);
    lemma_take(keys, macs, choices, delta, 0, left);
    assert(keys.subrange(0, left) =~= remainder(keys, queue, n));
    assert(macs.subrange(0, left) =~= remainder(macs, queue, n));
    assert(choices.subrange(0, left) =~= remainder(choices, queue, n));
    if i < n {
        assert(start_of(queue, i) <= start_of(queue, n));
        assert(start_of(queue, i + 1) <= start_of(queue, n));
        lemma_take(
            keys,
            macs,
            choices,
            delta,
            len - start_of(queue, i + 1),
            len - start_of(queue, i),
        );
    }
}

/// Parties are in step at the start.
pub proof fn lemma_start<S, T>(s: Sender<S>, r: Receiver<T>)
    requires
        alike(s.settings(), r.settings()),
        s.wanted() == r.wanted() == 0,
        s.queued() == Seq::<usize>::empty(),
        r.queued() == Seq::<usize>::empty(),
        s.next_id() == r.next_id(),
        s.stock() == Seq::<Block>::empty(),
        r.stock() == Seq::<Block>::empty(),
        r.bits() == Seq::<bool>::empty(),
    ensures
        in_step(s, r),
{
}

/// Parties that are in step still are after both hand out as many, by
/// [`Sender::try_send_rcot`] and [`Receiver::try_recv_rcot`] or where a request
/// is served at once, and what they hand out belongs together.
pub proof fn lemma_hand_out<S, T>(
    s: (Sender<S>, Sender<S>),
    a: RCOTSenderOutput,
    r: (Receiver<T>, Receiver<T>),
    b: RCOTReceiverOutput,
    count: usize,
)
    requires
        in_step(s.0, r.0),
        count <= s.0.stock().len(),
        s.1.wanted() == s.0.wanted(),
        s.1.queued() == s.0.queued(),
        s.1.settings() == s.0.settings(),
        s.1.correlation() == s.0.correlation(),
        s.1.next_id().0 == s.0.next_id().0 + 1,
        s.1.stock() == s.0.stock().take(s.0.stock().len() - count),
        a.id == s.0.next_id(),
        a.keys@ == s.0.stock().skip(s.0.stock().len() - count),
        r.1.wanted() == r.0.wanted(),
        r.1.queued() == r.0.queued(),
        r.1.settings() == r.0.settings(),
        r.1.next_id().0 == r.0.next_id().0 + 1,
        r.1.stock() == r.0.stock().take(r.0.stock().len() - count),
        r.1.bits() == r.0.bits().take(r.0.bits().len() - count),
        b.id == r.0.next_id(),
        b.msgs@ == r.0.stock().skip(r.0.stock().len() - count),
        b.choices@ == r.0.bits().skip(r.0.bits().len() - count),
    ensures
        in_step(s.1, r.1),
        matching(a, b, s.0.correlation()),
{
    let n = s.0.stock().len() as int;
    let k = n - count;
    let delta = s.0.correlation();
    lemma_take(s.0.stock(), r.0.stock(), r.0.bits(), delta, 0, k);
    lemma_take(s.0.stock(), r.0.stock(), r.0.bits(), delta, k, n);
    assert(s.0.stock().subrange(0, k) =~= s.1.stock());
    assert(r.0.stock().subrange(0, k) =~= r.1.stock());
    assert(r.0.bits().subrange(0, k) =~= r.1.bits());
    assert(s.0.stock().subrange(k, n) =~= a.keys@);
    assert(r.0.stock().subrange(k, n) =~= b.msgs@);
    assert(r.0.bits().subrange(k, n) =~= b.choices@);
}

/// The states of the sender through an iteration.
pub struct SenderTrace<S> {
    /// Before it.
    pub ready: Sender<S>,
    /// After the start.
    pub started: Sender<S>,
    /// After the extension.
    pub extended: Sender<S>,
    /// After the check.
    pub checked: Sender<S>,
    /// At the end.
    pub done: Sender<S>,
    /// What the bootstrap gave.
    pub bootstrap: Result<RCOTSenderOutput, BootstrapError>,
    /// The outputs of the single-point transfers.
    pub points: (Vec<Block>, Vec<[Block; 2]>, Vec<Block>),
    /// The outputs handed out before the end and after it.
    pub outputs: (Seq<RCOTSenderOutput>, Seq<RCOTSenderOutput>),
}

/// The states of the receiver through an iteration.
pub struct ReceiverTrace<T> {
    /// Before it.
    pub ready: Receiver<T>,
    /// After the start.
    pub started: Receiver<T>,
    /// After the extension.
    pub extended: Receiver<T>,
    /// At the end.
    pub done: Receiver<T>,
    /// What the bootstrap gave.
    pub bootstrap: Result<RCOTReceiverOutput, BootstrapError>,
    /// The error indices.
    pub err: Vec<usize>,
    /// The outputs of the single-point transfers.
    pub points: Vec<Block>,
    /// The outputs handed out before the end and after it.
    pub outputs: (Seq<RCOTReceiverOutput>, Seq<RCOTReceiverOutput>),
}

impl<S: Fn((LpnType, usize, usize)) -> LpnParameters> SenderTrace<S> {
    /// The states are those that [`Sender::start_extend`], [`Sender::extend`],
    /// [`Sender::check`] and [`Sender::finish_extend`] lead to, where none of
    /// them fails.
    pub open spec fn follows<
        H: Fn((u32, Block)) -> Block,
        L: Fn(usize) -> [usize; 10],
        P: Fn((Block, u64)) -> Block,
        K: Fn((Block, u64)) -> Block,
        M: Fn((Block, Block, Block)) -> H,
        N: Fn((Block, u32)) -> L,
    >(self, prg: P, blocks: K, ciphers: M, code: N, p: LpnParameters) -> bool {
        let first = self.ready.stage()->Extend_public_prg;
        let second = self.checked.stage()->Finish_public_prg;
        let h = hash_functions(blocks, ciphers, first.value(prg));
        let l = code_of(code, second.value(prg), self.checked.stage()->Finish_params.k);
        &&& self.ready.stage() is Extend
        &&& self.started.framed(self.ready)
        &&& self.extended.framed(self.started)
        &&& self.checked.framed(self.extended)
        &&& Sender::<S>::started(
            self.ready,
            self.started,
            Ok(()),
            first,
            h,
            self.bootstrap,
            p,
        )
        &&& exists|r: SenderExtend, keys: Seq<Block>| #[trigger]
            Sender::<S>::extended(self.started, self.extended, Ok(r), keys, Ok(self.points))
        &&& exists|r: SenderCheck, keys: Seq<Block>, out: [u8; 32]| #[trigger]
            Sender::<S>::checked(self.extended, self.checked, Ok(r), keys, Ok(out))
        &&& Sender::<S>::finished(self.checked, self.done, self.outputs.0, self.outputs.1, l)
    }
}

impl<T: Fn((LpnType, usize, usize)) -> LpnParameters> ReceiverTrace<T> {
    /// The states are those that [`Receiver::start_extend`],
    /// [`Receiver::extend`] and [`Receiver::finish_extend`] lead to, where none
    /// of them fails.
    pub open spec fn follows<
        H: Fn((u32, Block)) -> Block,
        L: Fn(usize) -> [usize; 10],
        P: Fn((Block, u64)) -> Block,
        K: Fn((Block, u64)) -> Block,
        M: Fn((Block, Block, Block)) -> H,
        N: Fn((Block, u32)) -> L,
    >(self, prg: P, blocks: K, ciphers: M, code: N, p: LpnParameters) -> bool {
        let first = self.ready.stage()->Extend_public_prg;
        let second = self.extended.stage()->Finish_public_prg;
        let h = hash_functions(blocks, ciphers, first.value(prg));
        let l = code_of(code, second.value(prg), self.extended.stage()->Finish_params.k);
        &&& self.ready.stage() is Extend
        &&& self.started.framed(self.ready)
        &&& self.extended.framed(self.started)
        &&& self.done.settings() == self.extended.settings()
        &&& exists|
            r: ReceiverExtend,
            query: (Vec<usize>, Vec<usize>, Vec<bool>),
            flip: Derandomize,
        | #[trigger]
            Receiver::<T>::started(
                self.ready,
                self.started,
                Ok(r),
                first,
                h,
                self.bootstrap,
                p,
                self.err,
                query,
                Ok(flip),
            )
        &&& exists|
            r: ReceiverCheck,
            macs: Seq<Block>,
            pair: (Vec<Block>, Vec<bool>),
            flip: Derandomize,
        | #[trigger]
            Receiver::<T>::extended(
                self.started,
                self.extended,
                Ok(r),
                macs,
                Ok(self.points),
                pair,
                Ok(flip),
            )
        &&& Receiver::<T>::finished(
            self.extended,
            self.done,
            Ok(()),
            self.outputs.0,
            self.outputs.1,
            l,
            Ok(()),
        )
    }
}

/// The hash functions of an iteration.
pub open spec fn first_hashes<
    S,
    H,
    P: Fn((Block, u64)) -> Block,
    K: Fn((Block, u64)) -> Block,
    M: Fn((Block, Block, Block)) -> H,
>(s: SenderTrace<S>, prg: P, blocks: K, ciphers: M) -> H {
    hash_functions(blocks, ciphers, s.ready.stage()->Extend_public_prg.value(prg))
}

/// Parties that are in step are in step again after an iteration in which
/// neither fails and in which the bootstrap and the single-point transfers give
/// correlated outputs. What they hand out in it belongs together, and each has
/// drawn the same two values of the public generator.
pub proof fn lemma_iteration<
    S: Fn((LpnType, usize, usize)) -> LpnParameters,
    T: Fn((LpnType, usize, usize)) -> LpnParameters,
    H: Fn((u32, Block)) -> Block,
    L: Fn(usize) -> [usize; 10],
    P: Fn((Block, u64)) -> Block,
    K: Fn((Block, u64)) -> Block,
    M: Fn((Block, Block, Block)) -> H,
    N: Fn((Block, u32)) -> L,
>(
    prg: P,
    blocks: K,
    ciphers: M,
    code: N,
    p: LpnParameters,
    s: SenderTrace<S>,
    r: ReceiverTrace<T>,
)
    requires
        in_step(s.ready, r.ready),
        share_generator(s.ready, r.ready),
        s.follows(prg, blocks, ciphers, code, p),
        r.follows(prg, blocks, ciphers, code, p),
        s.ready.shortfall() > 0 ==> s.bootstrap is Ok && r.bootstrap is Ok && correlated(
            s.bootstrap->Ok_0.keys@,
            r.bootstrap->Ok_0.msgs@,
            r.bootstrap->Ok_0.choices@,
            s.ready.correlation(),
        ),
        admissible(s.ready.settings().noise(), p, r.err@),
        query_count(s.ready.settings().noise(), first_hashes(s, prg, blocks, ciphers), p) + CSP + p.k <= s.ready.keys_after(
            s.bootstrap,
        ).len(),
        points_agree(
            s.ready.settings().noise(),
            first_hashes(s, prg, blocks, ciphers),
            p,
            r.err@,
            s.points.0@,
            r.points@,
            s.ready.correlation(),
        ),
        columns_below(
            code_of(
                code,
                s.ready.stage()->Extend_public_prg.advanced().value(prg),
                p.k,
            ),
            p.n as nat,
            p.k as nat,
        ),
    ensures
        in_step(s.done, r.done),
        share_generator(s.done, r.done),
        s.done.stage()->Extend_public_prg
            == s.ready.stage()->Extend_public_prg.advanced().advanced(),
        s.outputs.1.len() - s.outputs.0.len() == r.outputs.1.len() - r.outputs.0.len(),
        s.outputs.1.take(s.outputs.0.len() as int) == s.outputs.0,
        r.outputs.1.take(r.outputs.0.len() as int) == r.outputs.0,
        forall|i: int|
            0 <= i < s.outputs.1.len() - s.outputs.0.len() ==> matching(
                #[trigger] s.outputs.1[s.outputs.0.len() + i],
                r.outputs.1[r.outputs.0.len() + i],
                s.ready.correlation(),
            ),
{
    let h = first_hashes(s, prg, blocks, ciphers);
    let l = code_of(code, s.ready.stage()->Extend_public_prg.advanced().value(prg), p.k);
    let ty = s.ready.settings().noise();
    let delta = s.ready.correlation();
    // After the start.
    let keys = s.ready.keys_after(s.bootstrap);
    let macs = r.ready.macs_after(r.bootstrap);
    let bits = r.ready.bits_after(r.bootstrap);
    assert(s.ready.shortfall() == r.ready.shortfall());
    if s.ready.shortfall() > 0 {
        lemma_join(
            (s.ready.stock(), r.ready.stock(), r.ready.bits()),
            (
                s.bootstrap->Ok_0.keys@,
                r.bootstrap->Ok_0.msgs@,
                r.bootstrap->Ok_0.choices@,
            ),
            delta,
        );
    }
    assert(correlated(keys, macs, bits, delta));
    let count = query_count(ty, h, p) as int;
    let left = keys.len() - count;
    let kept = left - CSP;
    // After the extension and the check.
    let sent = s.started.stage()->Extending_mpcot.state;
    let received = r.started.stage()->Extending_mpcot.state;
    assert(s.started.stage()->Extending_spcot_lengths@ == query_lengths(ty, h, p.t, p.n));
    assert(s.checked.stock() =~= keys.subrange(0, kept));
    assert(r.extended.stock() =~= macs.subrange(0, kept));
    assert(r.extended.bits() =~= bits.subrange(0, kept));
    lemma_take(keys, macs, bits, delta, 0, kept);
    // The code.
    let (vs, ws) = (s.points.0@, r.points@);
    let err = r.err@;
    match ty {
        LpnType::Uniform => {
            lemma_uniform_iteration(
                h,
                l,
                p,
                err,
                sent,
                received,
                vs,
                ws,
                s.checked.stock(),
                r.extended.stock(),
                r.extended.bits(),
                delta,
            );
        },
        LpnType::Regular => {
            lemma_regular_iteration(
                l,
                p,
                err,
                vs,
                ws,
                s.checked.stock(),
                r.extended.stock(),
                r.extended.bits(),
                delta,
            );
        },
    }
    lemma_end(l, s, r, delta);
}

/// The stock of the sender after the code.
spec fn coded_keys<S, L: Fn(usize) -> [usize; 10]>(s: Sender<S>, l: L) -> Seq<Block> {
    let params = s.stage()->Finish_params;
    let left = s.stock().len() - params.k;
    s.stock().take(left) + encoded(
        l,
        s.stage()->Finish_s@,
        s.stock().skip(left),
    )
}

/// The stock of the receiver after the code.
spec fn coded_macs<T, L: Fn(usize) -> [usize; 10]>(r: Receiver<T>, l: L) -> Seq<Block> {
    let params = r.stage()->Finish_params;
    let left = r.stock().len() - params.k;
    r.stock().take(left) + encoded(
        l,
        r.stage()->Finish_r@,
        r.stock().skip(left),
    )
}

/// The choices of the receiver after the code.
spec fn coded_bits<T, L: Fn(usize) -> [usize; 10]>(r: Receiver<T>, l: L) -> Seq<bool> {
    let params = r.stage()->Finish_params;
    let left = r.stock().len() - params.k;
    r.bits().take(left) + low_bits(
        encoded(
            l,
            as_blocks(
                errors(params.n as nat, r.stage()->Finish_err@),
            ),
            as_blocks(r.bits().skip(left)),
        ),
    )
}

proof fn lemma_end<
    S: Fn((LpnType, usize, usize)) -> LpnParameters,
    T: Fn((LpnType, usize, usize)) -> LpnParameters,
    L: Fn(usize) -> [usize; 10],
>(l: L, s: SenderTrace<S>, r: ReceiverTrace<T>, delta: Block)
    requires
        alike(s.checked.settings(), r.extended.settings()),
        s.checked.wanted() == r.extended.wanted(),
        s.checked.queued() == r.extended.queued(),
        s.checked.next_id() == r.extended.next_id(),
        s.checked.correlation() == delta,
        r.done.settings() == r.extended.settings(),
        Sender::<S>::finished(s.checked, s.done, s.outputs.0, s.outputs.1, l),
        Receiver::<T>::finished(
            r.extended,
            r.done,
            Ok(()),
            r.outputs.0,
            r.outputs.1,
            l,
            Ok(()),
        ),
        correlated(
            coded_keys(s.checked, l),
            coded_macs(r.extended, l),
            coded_bits(r.extended, l),
            delta,
        ),
    ensures
        in_step(s.done, r.done),
        s.outputs.1.len() - s.outputs.0.len() == r.outputs.1.len() - r.outputs.0.len(),
        s.outputs.1.take(s.outputs.0.len() as int) == s.outputs.0,
        r.outputs.1.take(r.outputs.0.len() as int) == r.outputs.0,
        forall|i: int|
            0 <= i < s.outputs.1.len() - s.outputs.0.len() ==> matching(
                #[trigger] s.outputs.1[s.outputs.0.len() + i],
                r.outputs.1[r.outputs.0.len() + i],
                delta,
            ),
{
    let keys = coded_keys(s.checked, l);
    let macs = coded_macs(r.extended, l);
    let bits = coded_bits(r.extended, l);
    let spare = s.checked.settings().spare(keys.len());
    assert(spare == r.extended.settings().spare(macs.len()));
    if spare < s.checked.wanted() {
        assert(s.outputs.1.take(s.outputs.0.len() as int) =~= s.outputs.0);
        assert(r.outputs.1.take(r.outputs.0.len() as int) =~= r.outputs.0);
    } else {
        let queue = s.checked.queued();
        let n = served(queue, spare);
        lemma_delivered(keys, macs, bits, delta, queue, spare, n);
        assert forall|i: int| 0 <= i < n implies matching(
            #[trigger] s.outputs.1[s.outputs.0.len() + i],
            r.outputs.1[r.outputs.0.len() + i],
            delta,
        ) by {
            lemma_delivered(keys, macs, bits, delta, queue, spare, i as nat);
            assert(s.outputs.1[s.outputs.0.len() + i].keys@ == portion(keys, queue, i as nat));
            assert(r.outputs.1[r.outputs.0.len() + i].msgs@ == portion(macs, queue, i as nat));
        }
    }
}

/// What an iteration uses of the sender's keys is gone after it: of the keys
/// after the bootstrap those for the single-point transfers, 128 for the check
/// and as many as the input is long. In their place come as many as the output is
/// long, behind the others, and requests are served off the end.
pub proof fn lemma_spent_keys<
    S: Fn((LpnType, usize, usize)) -> LpnParameters,
    H: Fn((u32, Block)) -> Block,
    L: Fn(usize) -> [usize; 10],
    P: Fn((Block, u64)) -> Block,
    K: Fn((Block, u64)) -> Block,
    M: Fn((Block, Block, Block)) -> H,
    N: Fn((Block, u32)) -> L,
>(prg: P, blocks: K, ciphers: M, code: N, p: LpnParameters, s: SenderTrace<S>)
    requires
        s.follows(prg, blocks, ciphers, code, p),
        query_count(s.ready.settings().noise(), first_hashes(s, prg, blocks, ciphers), p) + 128
            + p.k <= s.ready.keys_after(s.bootstrap).len(),
    ensures
        ({
            let all = s.ready.keys_after(s.bootstrap);
            let h = first_hashes(s, prg, blocks, ciphers);
            let kept = all.len() - query_count(s.ready.settings().noise(), h, p) - 128 - p.k;
            let handed = start_of(
                s.ready.queued(),
                (s.done.next_id().0 - s.ready.next_id().0) as nat,
            );
            &&& s.done.stock().len() + handed == kept + p.n
            &&& forall|i: int|
                0 <= i < kept && i < s.done.stock().len() ==> #[trigger] s.done.stock()[i]
                    == all[i]
        }),
{
    let all = s.ready.keys_after(s.bootstrap);
    let settings = s.ready.settings();
    let h = first_hashes(s, prg, blocks, ciphers);
    let used = query_count(settings.noise(), h, p);
    let kept = all.len() - used - 128 - p.k;
    let (r, keys) = choose|r: SenderExtend, keys: Seq<Block>| #[trigger]
        Sender::<S>::extended(s.started, s.extended, Ok(r), keys, Ok(s.points));
    let (rc, keysc, out) = choose|rc: SenderCheck, keysc: Seq<Block>, out: [u8; 32]| #[trigger]
        Sender::<S>::checked(s.extended, s.checked, Ok(rc), keysc, Ok(out));
    let lengths = s.started.stage()->Extending_spcot_lengths;
    assert(lengths@ == query_lengths(settings.noise(), h, p.t, p.n));
    assert(s.extended.stock() == all.take(all.len() - used));
    assert(s.checked.stock() =~= all.take(all.len() - used - 128));
    assert(s.checked.stage()->Finish_s@.len() == p.n);
    let second = s.checked.stage()->Finish_public_prg;
    let l = code_of(code, second.value(prg), p.k);
    let stock = s.checked.stock().take(kept) + encoded(
        l,
        s.checked.stage()->Finish_s@,
        s.checked.stock().skip(kept),
    );
    lemma_served(s.ready.queued(), settings.spare(stock.len()));
}

/// What an iteration uses of the receiver's MACs and choices is gone after it, as
/// it is of the sender's keys.
pub proof fn lemma_spent_macs<
    T: Fn((LpnType, usize, usize)) -> LpnParameters,
    H: Fn((u32, Block)) -> Block,
    L: Fn(usize) -> [usize; 10],
    P: Fn((Block, u64)) -> Block,
    K: Fn((Block, u64)) -> Block,
    M: Fn((Block, Block, Block)) -> H,
    N: Fn((Block, u32)) -> L,
>(prg: P, blocks: K, ciphers: M, code: N, p: LpnParameters, h: H, t: ReceiverTrace<T>)
    requires
        t.follows(prg, blocks, ciphers, code, p),
        h == hash_functions(blocks, ciphers, t.ready.stage()->Extend_public_prg.value(prg)),
        query_count(t.ready.settings().noise(), h, p) + 128 + p.k <= t.ready.macs_after(
            t.bootstrap,
        ).len(),
        t.ready.bits_after(t.bootstrap).len() == t.ready.macs_after(t.bootstrap).len(),
    ensures
        ({
            let macs = t.ready.macs_after(t.bootstrap);
            let bits = t.ready.bits_after(t.bootstrap);
            let kept = macs.len() - query_count(t.ready.settings().noise(), h, p) - 128 - p.k;
            let handed = start_of(
                t.ready.queued(),
                (t.done.next_id().0 - t.ready.next_id().0) as nat,
            );
            &&& t.done.stock().len() + handed == kept + p.n
            &&& t.done.bits().len() == t.done.stock().len()
            &&& forall|i: int|
                0 <= i < kept && i < t.done.stock().len() ==> #[trigger] t.done.stock()[i]
                    == macs[i]
            &&& forall|i: int|
                0 <= i < kept && i < t.done.bits().len() ==> #[trigger] t.done.bits()[i]
                    == bits[i]
        }),
{
    let all = t.ready.macs_after(t.bootstrap);
    let bits = t.ready.bits_after(t.bootstrap);
    let settings = t.ready.settings();
    let used = query_count(settings.noise(), h, p);
    let kept = all.len() - used - 128 - p.k;
    let first = t.ready.stage()->Extend_public_prg;
    let (r, query, flip) = choose|
        r: ReceiverExtend,
        query: (Vec<usize>, Vec<usize>, Vec<bool>),
        flip: Derandomize,
    | #[trigger]
        Receiver::<T>::started(
            t.ready,
            t.started,
            Ok(r),
            first,
            h,
            t.bootstrap,
            p,
            t.err,
            query,
            Ok(flip),
        );
    let (rc, macs, pair, flip2) = choose|
        rc: ReceiverCheck,
        macs: Seq<Block>,
        pair: (Vec<Block>, Vec<bool>),
        flip2: Derandomize,
    | #[trigger]
        Receiver::<T>::extended(
            t.started,
            t.extended,
            Ok(rc),
            macs,
            Ok(t.points),
            pair,
            Ok(flip2),
        );
    assert(t.extended.stock() =~= all.take(all.len() - used - 128));
    assert(t.extended.bits() =~= bits.take(all.len() - used - 128));
    assert(t.extended.stage()->Finish_r@.len() == p.n);
    let second = t.extended.stage()->Finish_public_prg;
    let l = code_of(code, second.value(prg), p.k);
    let stock = t.extended.stock().take(kept) + encoded(
        l,
        t.extended.stage()->Finish_r@,
        t.extended.stock().skip(kept),
    );
    lemma_served(t.ready.queued(), settings.spare(stock.len()));
}

/// Every iteration draws two values of the public generator, which have the next
/// two numbers: the first one seeds the hash functions, whose keys are the first
/// three blocks for it, and the second one is the seed of the code. The keys that
/// are added are the vector of the multi-point transfers plus the code of the last
/// keys that are left.
pub proof fn lemma_new_keys<
    S: Fn((LpnType, usize, usize)) -> LpnParameters,
    H: Fn((u32, Block)) -> Block,
    L: Fn(usize) -> [usize; 10],
    P: Fn((Block, u64)) -> Block,
    K: Fn((Block, u64)) -> Block,
    M: Fn((Block, Block, Block)) -> H,
    N: Fn((Block, u32)) -> L,
>(
    prg: P,
    blocks: K,
    ciphers: M,
    code: N,
    p: LpnParameters,
    s: SenderTrace<S>,
    seed: Block,
    drawn: u64,
    i: int,
)
    requires
        s.follows(prg, blocks, ciphers, code, p),
        query_count(s.ready.settings().noise(), first_hashes(s, prg, blocks, ciphers), p) + 128
            + p.k <= s.ready.keys_after(s.bootstrap).len(),
        s.ready.stage()->Extend_public_prg == (PublicPrg { seed, drawn }),
        drawn + 2 <= u64::MAX,
        0 <= i < p.n,
    ensures
        ({
            let all = s.ready.keys_after(s.bootstrap);
            let h = first_hashes(s, prg, blocks, ciphers);
            let x = apply::<(Block, u64), Block, P>(prg, (seed, drawn));
            let y = apply::<(Block, u64), Block, P>(prg, (seed, (drawn + 1) as u64));
            let l = apply::<(Block, u32), L, N>(code, (y, p.k as u32));
            let kept = all.len() - query_count(s.ready.settings().noise(), h, p) - 128 - p.k;
            &&& s.done.stage()->Extend_public_prg == (PublicPrg { seed, drawn: (drawn + 2) as u64 })
            &&& h == apply::<(Block, Block, Block), H, M>(
                ciphers,
                (
                    apply::<(Block, u64), Block, K>(blocks, (x, 0)),
                    apply::<(Block, u64), Block, K>(blocks, (x, 1)),
                    apply::<(Block, u64), Block, K>(blocks, (x, 2)),
                ),
            )
            &&& kept + i < s.done.stock().len() ==> s.done.stock()[kept + i] == encoded(
                l,
                s.checked.stage()->Finish_s@,
                all.subrange(kept, kept + p.k),
            )[i]
        }),
{
    let all = s.ready.keys_after(s.bootstrap);
    let settings = s.ready.settings();
    let h = first_hashes(s, prg, blocks, ciphers);
    let used = query_count(settings.noise(), h, p);
    let kept = all.len() - used - 128 - p.k;
    let (r, keys) = choose|r: SenderExtend, keys: Seq<Block>| #[trigger]
        Sender::<S>::extended(s.started, s.extended, Ok(r), keys, Ok(s.points));
    let (rc, keysc, out) = choose|rc: SenderCheck, keysc: Seq<Block>, out: [u8; 32]| #[trigger]
        Sender::<S>::checked(s.extended, s.checked, Ok(rc), keysc, Ok(out));
    let lengths = s.started.stage()->Extending_spcot_lengths;
    assert(lengths@ == query_lengths(settings.noise(), h, p.t, p.n));
    assert(s.extended.stock() == all.take(all.len() - used));
    assert(s.checked.stock() =~= all.take(all.len() - used - 128));
    assert(s.checked.stage()->Finish_s@.len() == p.n);
    let second = s.checked.stage()->Finish_public_prg;
    let l = code_of(code, second.value(prg), p.k);
    let v = s.checked.stock().skip(kept);
    assert(v =~= all.subrange(kept, kept + p.k));
    let stock = s.checked.stock().take(kept) + encoded(l, s.checked.stage()->Finish_s@, v);
    lemma_served(s.ready.queued(), settings.spare(stock.len()));
    assert(stock[kept + i] == encoded(l, s.checked.stage()->Finish_s@, v)[i]);
}

/// The receiver's MACs and choices that are added are the code of its last MACs
/// and choices that are left, under the same seed as the sender's, plus the vector
/// of the multi-point transfers and the errors.
pub proof fn lemma_new_macs<
    T: Fn((LpnType, usize, usize)) -> LpnParameters,
    H: Fn((u32, Block)) -> Block,
    L: Fn(usize) -> [usize; 10],
    P: Fn((Block, u64)) -> Block,
    K: Fn((Block, u64)) -> Block,
    M: Fn((Block, Block, Block)) -> H,
    N: Fn((Block, u32)) -> L,
>(
    prg: P,
    blocks: K,
    ciphers: M,
    code: N,
    p: LpnParameters,
    h: H,
    t: ReceiverTrace<T>,
    seed: Block,
    drawn: u64,
    i: int,
)
    requires
        t.follows(prg, blocks, ciphers, code, p),
        h == hash_functions(blocks, ciphers, t.ready.stage()->Extend_public_prg.value(prg)),
        query_count(t.ready.settings().noise(), h, p) + 128 + p.k <= t.ready.macs_after(
            t.bootstrap,
        ).len(),
        t.ready.bits_after(t.bootstrap).len() == t.ready.macs_after(t.bootstrap).len(),
        t.ready.stage()->Extend_public_prg == (PublicPrg { seed, drawn }),
        drawn + 2 <= u64::MAX,
        0 <= i < p.n,
    ensures
        ({
            let macs = t.ready.macs_after(t.bootstrap);
            let bits = t.ready.bits_after(t.bootstrap);
            let y = apply::<(Block, u64), Block, P>(prg, (seed, (drawn + 1) as u64));
            let l = apply::<(Block, u32), L, N>(code, (y, p.k as u32));
            let kept = macs.len() - query_count(t.ready.settings().noise(), h, p) - 128 - p.k;
            &&& t.done.stage()->Extend_public_prg == (PublicPrg { seed, drawn: (drawn + 2) as u64 })
            &&& kept + i < t.done.stock().len() ==> t.done.stock()[kept + i] == encoded(
                l,
                t.extended.stage()->Finish_r@,
                macs.subrange(kept, kept + p.k),
            )[i]
            &&& kept + i < t.done.bits().len() ==> t.done.bits()[kept + i] == (encoded(
                l,
                as_blocks(errors(p.n as nat, t.err@)),
                as_blocks(bits.subrange(kept, kept + p.k)),
            )[i].0 & 1 == 1)
        }),
{
    let all = t.ready.macs_after(t.bootstrap);
    let bits = t.ready.bits_after(t.bootstrap);
    let settings = t.ready.settings();
    let used = query_count(settings.noise(), h, p);
    let kept = all.len() - used - 128 - p.k;
    let first = t.ready.stage()->Extend_public_prg;
    let (r, query, flip) = choose|
        r: ReceiverExtend,
        query: (Vec<usize>, Vec<usize>, Vec<bool>),
        flip: Derandomize,
    | #[trigger]
        Receiver::<T>::started(
            t.ready,
            t.started,
            Ok(r),
            first,
            h,
            t.bootstrap,
            p,
            t.err,
            query,
            Ok(flip),
        );
    let (rc, macs, pair, flip2) = choose|
        rc: ReceiverCheck,
        macs: Seq<Block>,
        pair: (Vec<Block>, Vec<bool>),
        flip2: Derandomize,
    | #[trigger]
        Receiver::<T>::extended(
            t.started,
            t.extended,
            Ok(rc),
            macs,
            Ok(t.points),
            pair,
            Ok(flip2),
        );
    assert(t.extended.stock() =~= all.take(all.len() - used - 128));
    assert(t.extended.bits() =~= bits.take(all.len() - used - 128));
    assert(t.extended.stage()->Finish_r@.len() == p.n);
    let second = t.extended.stage()->Finish_public_prg;
    let l = code_of(code, second.value(prg), p.k);
    let w = t.extended.stock().skip(kept);
    let u = t.extended.bits().skip(kept);
    assert(w =~= all.subrange(kept, kept + p.k));
    assert(u =~= bits.subrange(kept, kept + p.k));
    let stock = t.extended.stock().take(kept) + encoded(l, t.extended.stage()->Finish_r@, w);
    let e = encoded(l, as_blocks(errors(p.n as nat, t.err@)), as_blocks(u));
    let choices = t.extended.bits().take(kept) + low_bits(e);
    lemma_served(t.ready.queued(), settings.spare(stock.len()));
    assert(stock[kept + i] == encoded(l, t.extended.stage()->Finish_r@, w)[i]);
    assert(choices[kept + i] == low_bits(e)[i]);
}

/// With uniform noise the sender refuses only more errors than there are cells.
/// With regular noise it accepts just those lengths that are the number of errors
/// times a power of two; the receiver then accepts just those indices of which
/// each lies in its own part of the vector.
pub proof fn lemma_refusals<H: Fn((u32, Block)) -> Block>(
    h: H,
    idxs: Seq<usize>,
    len: usize,
    e: nat,
)
    requires
        0 < idxs.len() <= usize::MAX,
    ensures
        ({
            let count = idxs.len() as usize;
            &&& sender::refusal(LpnType::Uniform, count, len) is None <==> count <= len
            &&& receiver::refusal(LpnType::Uniform, h, idxs, len) is None <==> count <= len
                && insert_all(h, idxs) is Some
            &&& len == count * pow2(e) ==> sender::refusal(LpnType::Regular, count, len) is None
            &&& sender::refusal(LpnType::Regular, count, len) is None ==> exists|k: nat|
                len == count * #[trigger] pow2(k)
            &&& len == count * pow2(e) ==> (receiver::refusal(LpnType::Regular, h, idxs, len)
                is None <==> forall|i: int|
                0 <= i < count ==> (#[trigger] idxs[i]) as int / pow2(e) as int == i)
        }),
{
    let count = idxs.len() as usize;
    let n = len as int;
    let c = count as int;
    lemma_pow2_pos(e);
    let p = pow2(e) as int;
    if n == c * p {
        vstd::arithmetic::div_mod::lemma_div_multiples_vanish(p, c);
        vstd::arithmetic::div_mod::lemma_mod_multiples_basic(p, c);
        assert(c * p == p * c) by (nonlinear_arith);
        assert(c <= n) by (nonlinear_arith)
            requires
                n == c * p,
                c > 0,
                p > 0,
        ;
        assert((len / count) as nat == pow2(e));
        assert forall|i: int| 0 <= i < c implies (i * p <= #[trigger] idxs[i] < (i + 1) * p)
            == (idxs[i] as int / p == i) by {
            let x = idxs[i] as int;
            assert((i * p <= x < (i + 1) * p) == (x / p == i)) by (nonlinear_arith)
                requires
                    p > 0,
                    x >= 0,
            ;
        }
    }
    if sender::refusal(LpnType::Regular, count, len) is None {
        let k = choose|k: nat| (len / count) as nat == #[trigger] pow2(k);
        vstd::arithmetic::div_mod::lemma_fundamental_div_mod(n, c);
        assert(len == count * pow2(k));
    }
}

/// A bootstrap fills the stock up to what the first iteration costs, and does not
/// take anything where that much is there.
pub proof fn lemma_bootstrap<S, T>(s: Sender<S>, r: Receiver<T>)
    ensures
        s.stock().len() + s.shortfall() >= s.settings().bootstrap(),
        s.shortfall() > 0 ==> s.stock().len() + s.shortfall() == s.settings().bootstrap(),
        r.stock().len() + r.shortfall() >= r.settings().bootstrap(),
        r.shortfall() > 0 ==> r.stock().len() + r.shortfall() == r.settings().bootstrap(),
{
}

/// At the end of an iteration requests are served only if the stock, but for what
/// is held back, covers all that is wanted. Then nothing more is wanted, and as
/// many requests are served as possible without passing one over: in order, with
/// consecutive numbers, each with as many keys as it asks for.
pub proof fn lemma_deliver<S, L: Fn(usize) -> [usize; 10]>(
    old: Sender<S>,
    new: Sender<S>,
    before: Seq<RCOTSenderOutput>,
    after: Seq<RCOTSenderOutput>,
    columns: L,
    i: int,
)
    requires
        Sender::<S>::finished(old, new, before, after, columns),
        old.stage()->Finish_params.k <= old.stock().len(),
        0 <= i <= old.queued().len(),
    ensures
        ({
            let size = (old.stock().len() - old.stage()->Finish_params.k
                + old.stage()->Finish_s@.len()) as nat;
            let spare = old.settings().spare(size);
            &&& spare < old.wanted() ==> after == before && new.wanted() == old.wanted()
                && new.queued() == old.queued() && new.stock().len() == size
            &&& spare >= old.wanted() ==> {
                &&& new.wanted() == 0
                &&& new.queued() == old.queued().skip(after.len() - before.len())
                &&& i <= after.len() - before.len() <==> start_of(old.queued(), i as nat) <= spare
                &&& i < after.len() - before.len() ==> {
                    &&& after[before.len() + i].id.0 == old.next_id().0 + i
                    &&& after[before.len() + i].keys@.len() == old.queued()[i]
                }
            }
        }),
{
    let left = old.stock().len() - old.stage()->Finish_params.k;
    let stock = old.stock().take(left) + encoded(
        columns,
        old.stage()->Finish_s@,
        old.stock().skip(left),
    );
    let queue = old.queued();
    let spare = old.settings().spare(stock.len());
    lemma_served(queue, spare);
    lemma_served_most(queue, spare, i as nat);
    if i < served(queue, spare) {
        lemma_portions(stock, queue, i as nat);
        assert(start_of(queue, (i + 1) as nat) <= start_of(queue, served(queue, spare)));
    }
}

} // verus!
