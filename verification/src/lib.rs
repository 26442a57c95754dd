//! An append-only hash chain with proof-of-work block admission.
//!
//! A [`block::Block`] links to its predecessor by digest; a
//! [`chain::Blockchain`] grows only at the tail, each new block sealed by a
//! proof-of-work search. The wire form used to exchange a chain with peers is
//! a JSON array of block records, encoded and decoded by [`codec`].

use vstd::prelude::*;

pub mod block;
pub mod chain;
pub mod codec;
pub mod hashing;

verus! {

/// Number of leading zero characters a freshly constructed chain demands of
/// each sealed block's digest.
pub const DEFAULT_DIFFICULTY: usize = 4;

} // verus!
