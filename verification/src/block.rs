//! Blocks of the chain: a record that links to its predecessor by digest and,
//! once sealed by mining, carries a proof-of-work solution in its nonce.

use vstd::prelude::*;
use crate::hashing::{all_lower_hex, block_digest, digest_of_fields, now_millis};

verus! {

/// The wall clock could not be read at block creation; without a timestamp no
/// block can be built.
#[derive(Clone, Copy, Debug, PartialEq, Eq, Structural)]
pub struct TimeSourceError;

/// The mathematical content of a [`Block`]: its fields with strings taken as
/// character sequences.
pub struct BlockModel {
    pub index: u32,
    pub timestamp: u128,
    pub data: Seq<char>,
    pub previous_hash: Seq<char>,
    pub hash: Seq<char>,
    pub nonce: u64,
}

/// One record of the chain. `previous_hash` names the digest of the
/// predecessor (the sentinel `"0"` for genesis); `hash` is the digest of the
/// block's own fields once computed; `nonce` is the proof-of-work search
/// variable.
#[derive(Clone, Debug, PartialEq, Eq)]
pub struct Block {
    pub index: u32,
    pub timestamp: u128,
    pub data: String,
    pub previous_hash: String,
    pub hash: String,
    pub nonce: u64,
}

impl View for Block {
    type V = BlockModel;

    open spec fn view(&self) -> BlockModel {
        BlockModel {
            index: self.index,
            timestamp: self.timestamp,
            data: self.data@,
            previous_hash: self.previous_hash@,
            hash: self.hash@,
            nonce: self.nonce,
        }
    }
}

/// The stored hash is the digest of the block's own fields: the state a block
/// is in from creation on, and what tampering with a field in isolation
/// breaks.
pub open spec fn hash_is_current(b: BlockModel) -> bool {
    b.hash == block_digest(b.index, b.timestamp, b.data, b.previous_hash, b.nonce)
}

/// The first `d` characters of `s` are the zero digit: the proof-of-work
/// target at difficulty `d`.
pub open spec fn prefix_is_zeros(s: Seq<char>, d: int) -> bool {
    &&& d <= s.len()
    &&& forall|k: int| 0 <= k < d ==> s[k] == '0'
}

/// No nonce at all gives these fields a digest that meets the target: the
/// state of affairs in which the proof-of-work search is allowed to give up.
pub open spec fn no_nonce_qualifies(
    index: u32,
    timestamp: u128,
    data: Seq<char>,
    previous_hash: Seq<char>,
    difficulty: int,
) -> bool {
    forall|m: u64|
        !prefix_is_zeros(
            #[trigger] block_digest(index, timestamp, data, previous_hash, m),
            difficulty,
        )
}

/// Whether `h` meets the proof-of-work target at the given difficulty.
pub fn hash_meets_target(h: &str, difficulty: usize) -> (r: bool)
    ensures
        r == prefix_is_zeros(h@, difficulty as int),
{
    let n = h.unicode_len();
    if n < difficulty {
        return false;
    }
    let mut k: usize = 0;
    while k < difficulty
        invariant
            k <= difficulty <= n == h@.len(),
            forall|j: int| 0 <= j < k ==> h@[j] == '0',
        decreases difficulty - k,
    {
        if h.get_char(k) != '0' {
            return false;
        }
        k += 1;
    }
    true
}

impl Block {
    /// The fixed first block of every chain: index 0, sentinel hashes `"0"`,
    /// nonce 0, a fixed label as payload, stamped with the current time.
    /// Fails only when the clock cannot be read.
    pub fn genesis() -> (r: Result<Block, TimeSourceError>)
        ensures
            r matches Ok(b) ==> {
                &&& b.index == 0
                &&& b.data@ == "Genesis Block"@
                &&& b.previous_hash@ == "0"@
                &&& b.hash@ == "0"@
                &&& b.nonce == 0
            },
    {
        match now_millis() {
            None => Err(TimeSourceError),
            Some(t) => Ok(
                Block {
                    index: 0,
                    timestamp: t,
                    data: "Genesis Block".to_owned(),
                    previous_hash: "0".to_owned(),
                    hash: "0".to_owned(),
                    nonce: 0,
                },
            ),
        }
    }

    /// A fresh, not yet mined candidate: nonce 0, stamped with the current
    /// time, its hash already the digest of its fields (though not yet
    /// meeting any difficulty target). Fails only when the clock cannot be
    /// read.
    pub fn new(index: u32, data: String, previous_hash: String) -> (r: Result<
        Block,
        TimeSourceError,
    >)
        ensures
            r matches Ok(b) ==> {
                &&& b.index == index
                &&& b.data@ == data@
                &&& b.previous_hash@ == previous_hash@
                &&& b.nonce == 0
                &&& hash_is_current(b@)
                &&& b.hash@.len() == 64
            },
    {
        match now_millis() {
            None => Err(TimeSourceError),
            Some(t) => {
                let mut block = Block {
                    index,
                    timestamp: t,
                    data,
                    previous_hash,
                    hash: String::new(),
                    nonce: 0,
                };
                block.hash = block.calculate_hash();
                Ok(block)
            },
        }
    }

    /// The digest of the block's fields as they stand now; what a sealed
    /// block stores in `hash`, and what validation recomputes to detect
    /// tampering: 64 lowercase hexadecimal digits.
    pub fn calculate_hash(&self) -> (r: String)
        ensures
            r@ == block_digest(self.index, self.timestamp, self.data@, self.previous_hash@, self.nonce),
            r@.len() == 64,
            all_lower_hex(r@),
    {
        digest_of_fields(
            self.index,
            self.timestamp,
            self.data.as_str(),
            self.previous_hash.as_str(),
            self.nonce,
        )
    }

    /// The proof-of-work search: increment the nonce and recompute the hash
    /// until the hash's first `difficulty` characters are all the zero digit.
    /// A hash that already meets the target is kept as it stands, nonce
    /// untouched; otherwise the block leaves with a hash that is the digest
    /// of its final fields, and the nonce found is the least one past the
    /// starting nonce whose digest meets the target: the search skips none.
    /// The search is bounded by the nonce space: it gives up, returning
    /// `false`, only once the stored hash and the digest of every nonce past
    /// the starting one have all failed the target.
    pub fn mine_block(&mut self, difficulty: usize) -> (sealed: bool)
        ensures
            final(self).index == old(self).index,
            final(self).timestamp == old(self).timestamp,
            final(self).data == old(self).data,
            final(self).previous_hash == old(self).previous_hash,
            sealed ==> prefix_is_zeros(final(self).hash@, difficulty as int),
            prefix_is_zeros(old(self).hash@, difficulty as int) ==> sealed && *final(self)
                == *old(self),
            sealed && !prefix_is_zeros(old(self).hash@, difficulty as int) ==> hash_is_current(
                final(self)@,
            ) && final(self).nonce > old(self).nonce,
            final(self).nonce >= old(self).nonce,
            forall|m: u64|
                old(self).nonce < m < final(self).nonce ==> !prefix_is_zeros(
                    #[trigger] block_digest(
                        old(self).index,
                        old(self).timestamp,
                        old(self).data@,
                        old(self).previous_hash@,
                        m,
                    ),
                    difficulty as int,
                ),
            !sealed ==> {
                &&& final(self).nonce == u64::MAX
                &&& !prefix_is_zeros(old(self).hash@, difficulty as int)
                &&& forall|m: u64|
                    old(self).nonce < m ==> !prefix_is_zeros(
                        #[trigger] block_digest(
                            old(self).index,
                            old(self).timestamp,
                            old(self).data@,
                            old(self).previous_hash@,
                            m,
                        ),
                        difficulty as int,
                    )
            },
    {
        let ghost orig = *self;
        loop
            invariant
                orig == *old(self),
                self.nonce >= orig.nonce,
                self.index == orig.index,
                self.timestamp == orig.timestamp,
                self.data == orig.data,
                self.previous_hash == orig.previous_hash,
                *self == orig || hash_is_current(self@),
                *self == orig || self.nonce > orig.nonce,
                *self == orig || !prefix_is_zeros(orig.hash@, difficulty as int),
                forall|m: u64|
                    orig.nonce < m < self.nonce ==> !prefix_is_zeros(
                        #[trigger] block_digest(
                            orig.index,
                            orig.timestamp,
                            orig.data@,
                            orig.previous_hash@,
                            m,
                        ),
                        difficulty as int,
                    ),
            decreases u64::MAX - self.nonce,
        {
            if hash_meets_target(self.hash.as_str(), difficulty) {
                return true;
            }
            if self.nonce == u64::MAX {
                proof {
                    assert forall|m: u64|
                        orig.nonce < m implies !prefix_is_zeros(
                        #[trigger] block_digest(
                            orig.index,
                            orig.timestamp,
                            orig.data@,
                            orig.previous_hash@,
                            m,
                        ),
                        difficulty as int,
                    ) by {
                        if m == u64::MAX {
                            assert(*self != orig);
                            assert(self.hash@ == block_digest(
                                orig.index,
                                orig.timestamp,
                                orig.data@,
                                orig.previous_hash@,
                                u64::MAX,
                            ));
                        }
                    }
                }
                return false;
            }
            proof {
                if *self != orig {
                    assert(self.hash@ == block_digest(
                        orig.index,
                        orig.timestamp,
                        orig.data@,
                        orig.previous_hash@,
                        self.nonce,
                    ));
                }
            }
            self.nonce = self.nonce + 1;
            self.hash = self.calculate_hash();
        }
    }
}

} // verus!
