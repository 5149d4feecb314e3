//! Configuration of partitioned epoch rewards distribution.

use vstd::prelude::*;

verus! {

/// Number of stake accounts whose rewards are stored in one block during the
/// partitioned reward interval: 64 rewards per entry, and a block has at
/// least 64 entries. This value affects consensus.
pub const MAX_PARTITIONED_REWARDS_PER_BLOCK: u64 = 4096;

/// Configuration options for partitioned epoch rewards.
#[derive(Debug, Clone, Copy)]
pub struct PartitionedEpochRewardsConfig {
    /// Number of stake accounts to store in one block during the partitioned
    /// reward interval.
    pub stake_account_stores_per_block: u64,
}

impl Default for PartitionedEpochRewardsConfig {
    fn default() -> (r: Self)
        ensures
            r.stake_account_stores_per_block == MAX_PARTITIONED_REWARDS_PER_BLOCK,
    {
        PartitionedEpochRewardsConfig { stake_account_stores_per_block: MAX_PARTITIONED_REWARDS_PER_BLOCK }
    }
}

impl PartitionedEpochRewardsConfig {
    /// A configuration with the given number of stores per block, for tests
    /// and benchmarks.
    pub fn new_for_test(stake_account_stores_per_block: u64) -> (r: Self)
        ensures
            r.stake_account_stores_per_block == stake_account_stores_per_block,
    {
        PartitionedEpochRewardsConfig { stake_account_stores_per_block }
    }
}

} // verus!
