//! Verified core of a validator node: gossip data structures, ledger and
//! runtime configuration, RPC response types and command-line validation.

pub mod sanitize;
pub mod pubkey;
pub mod flate;
pub mod epoch_slots;
pub mod bitvec;

pub mod index_map;
pub mod crds_shards;
pub mod partitioned_rewards;
pub mod epoch_info;
pub mod socket;
pub mod blockstore_options;
pub mod text;
pub mod response;
pub mod cli;
pub mod crds_value;
pub mod index_set;
pub mod crds;
pub mod restart_window;
pub mod push_active_set;
pub mod crds_gossip_push;
pub mod crds_gossip;
pub mod dashboard;
pub mod validator_options;
pub mod ping_pong;
pub mod snapshot_config;
pub mod thread_args;
pub mod default_args;
pub mod entrypoints;
