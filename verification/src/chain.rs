//! The chain: an ordered, never-empty sequence of blocks that grows only at
//! the tail, each appended block mined against the chain's difficulty, and a
//! whole-chain integrity check.

use vstd::prelude::*;
use crate::block::{Block, BlockModel, TimeSourceError, hash_is_current, no_nonce_qualifies, prefix_is_zeros};
use crate::hashing::block_digest;
use crate::DEFAULT_DIFFICULTY;

verus! {

/// Why an append failed: the wall clock could not be read, or the bounded
/// proof-of-work search ran out of nonces without meeting the target.
#[derive(Clone, Copy, Debug, PartialEq, Eq, Structural)]
pub enum AppendError {
    TimeSource,
    NonceExhausted,
}

/// The models of the blocks a chain holds, in order.
pub open spec fn chain_models(bs: Seq<Block>) -> Seq<BlockModel> {
    bs.map_values(|b: Block| b@)
}

/// Chain integrity as validation checks it: every block past genesis stores
/// the digest of its own fields (no tampering) and names its predecessor's
/// stored hash as `previous_hash` (unbroken linkage). The proof-of-work
/// prefix is not re-checked here: validation is tamper detection, not
/// re-mining.
pub open spec fn chain_valid(bs: Seq<BlockModel>) -> bool {
    forall|i: int|
        1 <= i < bs.len() ==> {
            &&& hash_is_current(#[trigger] bs[i])
            &&& bs[i].previous_hash == bs[i - 1].hash
        }
}

/// An append-only sequence of blocks, index 0 the genesis block, with the
/// number of leading zero digits every sealed block's hash must show.
#[derive(Clone, Debug)]
pub struct Blockchain {
    pub chain: Vec<Block>,
    pub difficulty: usize,
}

impl Blockchain {
    /// A chain holding only a genesis block, at the default difficulty.
    /// Fails only when the clock cannot be read.
    pub fn new() -> (r: Result<Blockchain, TimeSourceError>)
        ensures
            r matches Ok(c) ==> {
                &&& c.difficulty == DEFAULT_DIFFICULTY
                &&& c.chain@.len() == 1
                &&& c.chain@[0].index == 0
                &&& c.chain@[0].data@ == "Genesis Block"@
                &&& c.chain@[0].previous_hash@ == "0"@
                &&& c.chain@[0].hash@ == "0"@
                &&& c.chain@[0].nonce == 0
                &&& chain_valid(chain_models(c.chain@))
            },
    {
        match Block::genesis() {
            Err(e) => Err(e),
            Ok(g) => {
                let mut chain: Vec<Block> = Vec::new();
                chain.push(g);
                Ok(Blockchain { chain, difficulty: DEFAULT_DIFFICULTY })
            },
        }
    }

    /// The tail of the chain; the chain is never empty along its lifecycle.
    pub fn get_latest_block(&self) -> (r: &Block)
        requires
            self.chain@.len() > 0,
        ensures
            *r == self.chain@[self.chain@.len() - 1],
    {
        &self.chain[self.chain.len() - 1]
    }

    /// Append a block carrying `data`: its index one past the tail's, its
    /// `previous_hash` the tail's stored hash, sealed by the proof-of-work
    /// search at the chain's difficulty; the sealed nonce is the least one
    /// whose digest meets the target. On any failure the chain is left
    /// exactly as it was; nonce exhaustion is claimed only when no nonce at
    /// all would have qualified for the candidate's fields; a valid chain
    /// stays valid across a successful append.
    pub fn add_block(&mut self, data: String) -> (r: Result<(), AppendError>)
        requires
            old(self).chain@.len() > 0,
            old(self).chain@[old(self).chain@.len() - 1].index < u32::MAX,
        ensures
            final(self).difficulty == old(self).difficulty,
            r is Ok ==> {
                &&& final(self).chain@.len() == old(self).chain@.len() + 1
                &&& final(self).chain@.subrange(0, old(self).chain@.len() as int) == old(
                    self,
                ).chain@
                &&& final(self).chain@.last()@.index == old(self).chain@.last()@.index + 1
                &&& final(self).chain@.last()@.previous_hash == old(self).chain@.last()@.hash
                &&& final(self).chain@.last()@.data == data@
                &&& hash_is_current(final(self).chain@.last()@)
                &&& prefix_is_zeros(
                    final(self).chain@.last()@.hash,
                    old(self).difficulty as int,
                )
                &&& (old(self).difficulty == 0 ==> final(self).chain@.last()@.nonce == 0)
                &&& (forall|m: u64|
                    m < final(self).chain@.last()@.nonce ==> !prefix_is_zeros(
                        #[trigger] block_digest(
                            final(self).chain@.last()@.index,
                            final(self).chain@.last()@.timestamp,
                            final(self).chain@.last()@.data,
                            final(self).chain@.last()@.previous_hash,
                            m,
                        ),
                        old(self).difficulty as int,
                    ))
                &&& (chain_valid(chain_models(old(self).chain@)) ==> chain_valid(
                    chain_models(final(self).chain@),
                ))
            },
            r is Err ==> *final(self) == *old(self),
            (r matches Err(e) && e == AppendError::NonceExhausted) ==> exists|ts: u128|
                #[trigger] no_nonce_qualifies(
                    (old(self).chain@.last()@.index + 1) as u32,
                    ts,
                    data@,
                    old(self).chain@.last()@.hash,
                    old(self).difficulty as int,
                ),
    {
        let previous_index = self.get_latest_block().index;
        let previous_hash = self.get_latest_block().hash.clone();
        match Block::new(previous_index + 1, data, previous_hash) {
            Err(TimeSourceError) => Err(AppendError::TimeSource),
            Ok(mut new_block) => {
                let ghost cand = new_block@;
                let sealed = new_block.mine_block(self.difficulty);
                if !sealed {
                    proof {
                        let d = self.difficulty as int;
                        assert forall|m: u64|
                            !prefix_is_zeros(
                                #[trigger] block_digest(
                                    cand.index,
                                    cand.timestamp,
                                    cand.data,
                                    cand.previous_hash,
                                    m,
                                ),
                                d,
                            ) by {
                            if m == 0 {
                                assert(cand.hash == block_digest(
                                    cand.index,
                                    cand.timestamp,
                                    cand.data,
                                    cand.previous_hash,
                                    0,
                                ));
                            }
                        }
                        assert(cand.index == (old(self).chain@.last()@.index + 1) as u32);
                        assert(cand.previous_hash == old(self).chain@.last()@.hash);
                        assert(no_nonce_qualifies(
                            (old(self).chain@.last()@.index + 1) as u32,
                            cand.timestamp,
                            data@,
                            old(self).chain@.last()@.hash,
                            old(self).difficulty as int,
                        ));
                    }
                    return Err(AppendError::NonceExhausted);
                }
                proof {
                    let d = self.difficulty as int;
                    let last = new_block@;
                    assert forall|m: u64|
                        m < last.nonce implies !prefix_is_zeros(
                        #[trigger] block_digest(
                            last.index,
                            last.timestamp,
                            last.data,
                            last.previous_hash,
                            m,
                        ),
                        d,
                    ) by {
                        if m == 0 {
                            assert(cand.hash == block_digest(
                                cand.index,
                                cand.timestamp,
                                cand.data,
                                cand.previous_hash,
                                0,
                            ));
                            assert(!prefix_is_zeros(cand.hash, d));
                        }
                    }
                }
                let ghost before = self.chain@;
                self.chain.push(new_block);
                proof {
                    let bs = chain_models(self.chain@);
                    let obs = chain_models(before);
                    assert(self.chain@.subrange(0, before.len() as int) =~= before);
                    assert forall|i: int| 0 <= i < before.len() implies bs[i] == obs[i] by {}
                    if chain_valid(obs) {
                        assert forall|i: int| 1 <= i < bs.len() implies hash_is_current(
                            #[trigger] bs[i],
                        ) && bs[i].previous_hash == bs[i - 1].hash by {
                            if i < before.len() {
                                assert(hash_is_current(obs[i]) && obs[i].previous_hash == obs[i
                                    - 1].hash);
                            }
                        }
                    }
                }
                Ok(())
            },
        }
    }

    /// Whole-chain tamper detection: `true` exactly when every block past
    /// genesis stores the digest of its own fields and links to its
    /// predecessor's stored hash.
    pub fn is_chain_valid(&self) -> (r: bool)
        ensures
            r == chain_valid(chain_models(self.chain@)),
    {
        let n = self.chain.len();
        let mut i: usize = 1;
        while i < n
            invariant
                1 <= i,
                n == self.chain@.len(),
                forall|j: int|
                    1 <= j < i ==> {
                        &&& hash_is_current(#[trigger] chain_models(self.chain@)[j])
                        &&& chain_models(self.chain@)[j].previous_hash == chain_models(
                            self.chain@,
                        )[j - 1].hash
                    },
            decreases n - i,
        {
            let current_block = &self.chain[i];
            let previous_block = &self.chain[i - 1];
            let recomputed = current_block.calculate_hash();
            if !(current_block.hash == recomputed) {
                proof {
                    let bs = chain_models(self.chain@);
                    assert(bs[i as int] == self.chain@[i as int]@);
                    assert(!hash_is_current(bs[i as int]));
                }
                return false;
            }
            if !(current_block.previous_hash == previous_block.hash) {
                proof {
                    let bs = chain_models(self.chain@);
                    assert(bs[i as int] == self.chain@[i as int]@);
                    assert(bs[i - 1] == self.chain@[i - 1]@);
                    assert(bs[i as int].previous_hash != bs[i - 1].hash);
                }
                return false;
            }
            i += 1;
        }
        true
    }
}

/// A freshly constructed chain is valid: with at most its genesis block
/// present there is no pair of adjacent blocks for validation to fault.
pub proof fn lemma_fresh_chain_valid(bs: Seq<BlockModel>)
    requires
        bs.len() <= 1,
    ensures
        chain_valid(bs),
{
}

} // verus!
