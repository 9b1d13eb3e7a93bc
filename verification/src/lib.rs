//! A proof-of-work blockchain: blocks, transactions, a UTXO set, a mempool,
//! difficulty retargeting and mining, with their rules proved by Verus.

pub mod crypto;
pub mod difficulty;
pub mod encoding;
pub mod error;
pub mod output_map;
pub mod sha256;
pub mod time;
pub mod types;
pub mod u256;
pub mod util;

use vstd::prelude::*;

verus! {

/// The reward of a block before any halving, in whole coins.
pub const INITIAL_REWARD: u64 = 50;

/// The number of blocks after which the block reward halves.
pub const HALVING_INTERVAL: u64 = 210;

/// The time that mining a block should take, in seconds.
pub const IDEAL_BLOCK_TIME: u64 = 10;

/// The number of blocks between two adjustments of the target.
pub const DIFFICULTY_UPDATE_INTERVAL: u64 = 50;

/// The age in seconds past which a transaction leaves the mempool.
pub const MAX_MEMPOOL_TRANSACTION_AGE: u64 = 600;

/// The number of the easiest target: 2^240 - 1.
pub open spec fn min_target_value() -> nat {
    0xffff_ffff_ffff_ffff_ffff_ffff_ffff_ffff_ffff_ffff_ffff_ffff_ffff_ffff_ffffnat
}

/// The easiest target a block may have: 2^240 - 1.
pub fn min_target() -> (r: u256::U256)
    ensures
        r@ == min_target_value(),
{
    u256::U256::max_value().div_u64(0x1_0000)
}

} // verus!
