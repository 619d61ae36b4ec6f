//! The sender's side of multi-point correlated oblivious transfer.
use crate::block::Block;
use crate::func::is_function;
use crate::num::{exact_log2, is_power, lemma_is_up, log2_up};
use crate::ot::ferret::cuckoo::{table_length, Buckets};
use crate::ot::ferret::mpcot::{
    combine, joint_length, pad_buckets, uniform_logs, Extension, Initialized, LpnType, Reason,
};
use crate::slices::{copied, filled_with};
use vstd::prelude::*;

verus! {

/// MPCOT sender.
#[derive(Debug)]
pub struct MPCOTSender<T> {
    /// The state of the protocol.
    pub state: T,
}

/// MPCOT sender error.
#[derive(Clone, Copy, Debug, PartialEq, Eq, Structural)]
pub enum MPCOTSenderError {
    /// Invalid parameters.
    Params {
        /// Number of indices.
        count: usize,
        /// Length of the vector.
        len: usize,
        /// What is wrong with them.
        reason: Reason,
    },
    /// Invalid length of SPCOT vector.
    SPCOTLength {
        /// The length that was expected.
        expected: usize,
        /// The length that was given.
        actual: usize,
    },
}

impl<H: Fn((u32, Block)) -> Block> MPCOTSender<Initialized<H>> {
    /// Creates a new Sender.
    ///
    /// # Arguments
    ///
    /// * `seed` - Seed for Cuckoo hash sent by the receiver.
    /// * `lpn_type` - The LPN type.
    /// * `blocks` - What the generator gives for a seed and the number of a block.
    /// * `ciphers` - Makes the hash functions from the keys of three ciphers.
    pub fn new<K: Fn((Block, u64)) -> Block, M: Fn((Block, Block, Block)) -> H>(
        seed: Block,
        lpn_type: LpnType,
        blocks: &K,
        ciphers: &M,
    ) -> (r: Self)
        requires
            is_function::<(Block, u64), Block, K>(*blocks),
            is_function::<(Block, Block, Block), H, M>(*ciphers),
        ensures
            r.state == Initialized::of(seed, lpn_type, *blocks, *ciphers),
    {
        MPCOTSender { state: Initialized::new(seed, lpn_type, blocks, ciphers) }
    }

    /// What [`MPCOTSender::start_extend`] returns.
    pub open spec fn starts(
        self,
        count: usize,
        len: usize,
        r: Result<(MPCOTSender<Extension>, Vec<usize>), MPCOTSenderError>,
    ) -> bool {
        &&& count > len ==> r == Err::<(MPCOTSender<Extension>, Vec<usize>), MPCOTSenderError>(
            MPCOTSenderError::Params { count, len, reason: Reason::ExceedsLength },
        )
        &&& count <= len ==> match self.state {
            Initialized::Uniform { hashes } => {
                &&& r is Ok
                &&& r->Ok_0.0.state.uniform_for(hashes, count as nat, len)
                &&& r->Ok_0.1@ == uniform_logs(hashes, count as nat, len)
            },
            Initialized::Regular => {
                let k = len as int / count as int;
                if len as int % count as int != 0 {
                    r == Err::<(MPCOTSender<Extension>, Vec<usize>), MPCOTSenderError>(
                        MPCOTSenderError::Params { count, len, reason: Reason::NotMultiple },
                    )
                } else if !is_power(k as nat) {
                    r == Err::<(MPCOTSender<Extension>, Vec<usize>), MPCOTSenderError>(
                        MPCOTSenderError::Params { count, len, reason: Reason::NotPowerOfTwo },
                    )
                } else {
                    &&& r is Ok
                    &&& r->Ok_0.0.state == (Extension::Regular { len })
                    &&& r->Ok_0.1@ == Seq::new(
                        count as nat,
                        |i: int| log2_up(k as nat) as usize,
                    )
                }
            },
        }
    }

    /// Starts the MPCOT extension.
    ///
    /// Returns the SPCOT log2 lengths.
    ///
    /// # Arguments
    ///
    /// * `count` - Number of queried indices.
    /// * `len` - Length of the vector.
    pub fn start_extend(self, count: usize, len: usize) -> (r: Result<
        (MPCOTSender<Extension>, Vec<usize>),
        MPCOTSenderError,
    >)
        requires
            count <= len ==> match self.state {
                Initialized::Uniform { hashes } => {
                    &&& is_function::<(u32, Block), Block, H>(hashes)
                    &&& 6 * (len as u32) + table_length(count as nat) <= usize::MAX
                    &&& count > 0 || len as u32 == 0
                },
                Initialized::Regular => count > 0,
            },
        ensures
            self.starts(count, len, r),
    {
        if count > len {
            return Err(MPCOTSenderError::Params { count, len, reason: Reason::ExceedsLength });
        }
        match self.state {
            Initialized::Uniform { hashes } => {
                let buckets: Buckets = Buckets::new(&hashes, count, len);

                // First pad (length + 1) to a pow of 2, then computes
                // `log(length + 1)` of each bucket.
                let (logs, spcot_lengths) = pad_buckets(&hashes, count, len, &buckets);
                Ok(
                    (
                        MPCOTSender { state: Extension::Uniform { len, buckets, spcot_lengths } },
                        logs,
                    ),
                )
            },
            Initialized::Regular => {
                let k: usize = len / count;
                if len % count != 0 {
                    return Err(
                        MPCOTSenderError::Params { count, len, reason: Reason::NotMultiple },
                    );
                }
                let log2_len: usize = match exact_log2(k) {
                    Some(l) => l,
                    None => {
                        return Err(
                            MPCOTSenderError::Params { count, len, reason: Reason::NotPowerOfTwo },
                        );
                    },
                };
                proof {
                    lemma_is_up(log2_len as nat);
                }
                let logs: Vec<usize> = filled_with(log2_len, count);
                assert(logs@ =~= Seq::new(count as nat, |i: int| log2_up(k as nat) as usize));
                Ok((MPCOTSender { state: Extension::Regular { len } }, logs))
            },
        }
    }
}

impl MPCOTSender<Extension> {
    /// Performs MPCOT extension.
    ///
    /// # Arguments
    ///
    /// * `vs` - The output of SPCOT.
    pub fn extend(self, vs: &[Block]) -> (r: Result<Vec<Block>, MPCOTSenderError>)
        requires
            self.state.wf(),
        ensures
            vs@.len() != self.state.spcot_len() ==> r == Err::<Vec<Block>, MPCOTSenderError>(
                MPCOTSenderError::SPCOTLength {
                    expected: self.state.spcot_len() as usize,
                    actual: vs@.len() as usize,
                },
            ),
            vs@.len() == self.state.spcot_len() ==> r is Ok && r->Ok_0@ == self.state.result(vs@),
    {
        match self.state {
            Extension::Uniform { len, buckets, spcot_lengths } => {
                let spcot_len: usize = joint_length(spcot_lengths.as_slice());
                if vs.len() != spcot_len {
                    return Err(
                        MPCOTSenderError::SPCOTLength { expected: spcot_len, actual: vs.len() },
                    );
                }
                Ok(combine(len, &buckets, spcot_lengths.as_slice(), vs))
            },
            Extension::Regular { len } => {
                if vs.len() != len {
                    return Err(MPCOTSenderError::SPCOTLength { expected: len, actual: vs.len() });
                }
                Ok(copied(vs))
            },
        }
    }
}

} // verus!
