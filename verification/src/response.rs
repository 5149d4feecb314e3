//! Values that the RPC service answers with.

use vstd::prelude::*;
use std::collections::HashMap;
use crate::socket::SocketAddr;
use crate::text::{decimal, decimal_string, first_word, first_word_of};

verus! {

#[verifier::external_type_specification]
#[verifier::external_body]
pub struct ExVersion(semver::Version);

/// `Clone` of `semver::Version` (derived there); nothing is stated of the
/// copy.
pub assume_specification[ <semver::Version as Clone>::clone ](v: &semver::Version) -> semver::Version;

/// The version of the RPC API that answered.
#[derive(Debug, Clone, PartialEq, Eq)]
pub struct RpcApiVersion(pub semver::Version);

impl RpcApiVersion {
    /// The semantic version.
    pub fn version(&self) -> (r: &semver::Version)
        ensures
            *r == self.0,
    {
        &self.0
    }
}

/// The context of an answer: the slot it was computed at, and the API
/// version.
#[derive(Debug, Clone, PartialEq, Eq)]
pub struct RpcResponseContext {
    pub slot: u64,
    pub api_version: Option<RpcApiVersion>,
}

/// An answer with its context.
#[derive(Debug, Clone, PartialEq, Eq)]
pub struct Response<T> {
    pub context: RpcResponseContext,
    pub value: T,
}

/// An answer that may or may not carry its context.
#[derive(Debug, Clone, PartialEq, Eq)]
pub enum OptionalContext<T> {
    Context(Response<T>),
    NoContext(T),
}

impl<T> OptionalContext<T> {
    /// The value, with or without context.
    pub fn parse_value(self) -> (r: T)
        ensures
            r == (match self {
                OptionalContext::Context(response) => response.value,
                OptionalContext::NoContext(value) => value,
            }),
    {
        match self {
            OptionalContext::Context(response) => response.value,
            OptionalContext::NoContext(value) => value,
        }
    }
}

/// The commitment of a block and the total active stake.
#[derive(Debug, PartialEq, Eq, Clone)]
pub struct RpcBlockCommitment<T> {
    pub commitment: Option<T>,
    pub total_stake: u64,
}

/// A recent blockhash and the last block height at which it is valid.
#[derive(Clone, Debug, PartialEq, Eq)]
pub struct RpcBlockhash {
    pub blockhash: String,
    pub last_valid_block_height: u64,
}

/// The fee charged per signature.
#[derive(Clone, Copy, Debug, Default, PartialEq, Eq)]
pub struct FeeCalculator {
    pub lamports_per_signature: u64,
}

/// A recent blockhash and the fee charged for signatures with it.
#[derive(Clone, Debug, PartialEq, Eq)]
pub struct RpcBlockhashFeeCalculator {
    pub blockhash: String,
    pub fee_calculator: FeeCalculator,
}

/// The fee charged for signatures.
#[derive(Clone, Copy, Debug, PartialEq, Eq)]
pub struct RpcFeeCalculator {
    pub fee_calculator: FeeCalculator,
}

/// A slot with its parent and the current root.
#[derive(Clone, Copy, Debug, PartialEq, Eq)]
pub struct SlotInfo {
    pub slot: u64,
    pub parent: u64,
    pub root: u64,
}

/// Transaction counts of a frozen slot.
#[derive(Clone, Copy, Debug, PartialEq, Eq)]
pub struct SlotTransactionStats {
    pub num_transaction_entries: u64,
    pub num_successful_transactions: u64,
    pub num_failed_transactions: u64,
    pub max_transactions_per_entry: u64,
}

/// A change in the state of a slot.
#[derive(Debug, PartialEq, Eq, Clone)]
pub enum SlotUpdate {
    FirstShredReceived { slot: u64, timestamp: u64 },
    Completed { slot: u64, timestamp: u64 },
    CreatedBank { slot: u64, parent: u64, timestamp: u64 },
    Frozen { slot: u64, timestamp: u64, stats: SlotTransactionStats },
    Dead { slot: u64, timestamp: u64, err: String },
    OptimisticConfirmation { slot: u64, timestamp: u64 },
    Root { slot: u64, timestamp: u64 },
}

impl SlotUpdate {
    /// The slot that the update is about.
    pub open spec fn spec_slot(&self) -> u64 {
        match self {
            SlotUpdate::FirstShredReceived { slot, .. } => *slot,
            SlotUpdate::Completed { slot, .. } => *slot,
            SlotUpdate::CreatedBank { slot, .. } => *slot,
            SlotUpdate::Frozen { slot, .. } => *slot,
            SlotUpdate::Dead { slot, .. } => *slot,
            SlotUpdate::OptimisticConfirmation { slot, .. } => *slot,
            SlotUpdate::Root { slot, .. } => *slot,
        }
    }

    /// The slot that the update is about.
    pub fn slot(&self) -> (r: u64)
        ensures
            r == self.spec_slot(),
    {
        match self {
            SlotUpdate::FirstShredReceived { slot, .. } => *slot,
            SlotUpdate::Completed { slot, .. } => *slot,
            SlotUpdate::CreatedBank { slot, .. } => *slot,
            SlotUpdate::Frozen { slot, .. } => *slot,
            SlotUpdate::Dead { slot, .. } => *slot,
            SlotUpdate::OptimisticConfirmation { slot, .. } => *slot,
            SlotUpdate::Root { slot, .. } => *slot,
        }
    }
}

/// A signature that was received but not yet processed.
#[derive(Clone, Copy, Debug, PartialEq, Eq)]
pub enum ReceivedSignatureResult {
    ReceivedSignature,
}

/// The first and last slot of a block production range.
#[derive(Debug, Default, Clone, Copy, PartialEq, Eq)]
pub struct RpcBlockProductionRange {
    pub first_slot: u64,
    pub last_slot: u64,
}

/// Block production by leader over a range of slots.
#[derive(Debug, Clone, PartialEq, Eq)]
pub struct RpcBlockProduction {
    /// For each leader, by its key in base 58: the number of leader slots
    /// and the number of blocks produced.
    pub by_identity: HashMap<String, (usize, usize)>,
    pub range: RpcBlockProductionRange,
}

/// The software version of a node, and its feature set.
#[derive(Clone, PartialEq, Eq)]
pub struct RpcVersionInfo {
    /// The software version of solana-core.
    pub solana_core: String,
    /// The unique identifier of the current software's feature set.
    pub feature_set: Option<u32>,
}

impl RpcVersionInfo {
    /// How the version is displayed: its first whitespace-separated word,
    /// or the whole text when it has none.
    pub fn display(&self) -> (r: String)
        ensures
            r@ == (match first_word(self.solana_core@) {
                Some(w) => w,
                None => self.solana_core@,
            }),
    {
        match first_word_of(self.solana_core.as_str()) {
            Some(w) => w,
            None => self.solana_core.clone(),
        }
    }
}

/// The identity public key of a node, in base 58.
#[derive(Clone, Debug, PartialEq, Eq)]
pub struct RpcIdentity {
    pub identity: String,
}

/// A vote seen by the node.
#[derive(Clone, Debug, PartialEq, Eq)]
pub struct RpcVote {
    /// The vote account address, in base 58.
    pub vote_pubkey: String,
    pub slots: Vec<u64>,
    pub hash: String,
    pub timestamp: Option<i64>,
    pub signature: String,
}

/// A vote account and its state.
#[derive(Clone, Debug, PartialEq, Eq)]
pub struct RpcVoteAccountInfo {
    /// Vote account address, in base 58.
    pub vote_pubkey: String,
    /// The validator identity, in base 58.
    pub node_pubkey: String,
    /// The current stake, in lamports, delegated to this vote account.
    pub activated_stake: u64,
    /// An 8-bit integer used as a fraction (commission/u8::MAX) for rewards
    /// payout.
    pub commission: u8,
    /// Whether this account is staked for the current epoch.
    pub epoch_vote_account: bool,
    /// Latest history of earned credits for up to the last few epochs, as
    /// (epoch, credits, previous credits).
    pub epoch_credits: Vec<(u64, u64, u64)>,
    /// The most recent slot voted on by this vote account (0 if none).
    pub last_vote: u64,
    /// The current root slot for this vote account (0 if none).
    pub root_slot: u64,
}

/// The vote accounts, current and delinquent.
#[derive(Clone, Debug, PartialEq, Eq)]
pub struct RpcVoteAccountStatus {
    pub current: Vec<RpcVoteAccountInfo>,
    pub delinquent: Vec<RpcVoteAccountInfo>,
}

/// A storage turn: its blockhash and slot.
#[derive(Clone, Debug, PartialEq, Eq)]
pub struct RpcStorageTurn {
    pub blockhash: String,
    pub slot: u64,
}

/// The balance of an account.
#[derive(Clone, Debug, PartialEq, Eq)]
pub struct RpcAccountBalance {
    pub address: String,
    pub lamports: u64,
}

/// The supply of lamports.
#[derive(Clone, Debug, PartialEq, Eq)]
pub struct RpcSupply {
    pub total: u64,
    pub circulating: u64,
    pub non_circulating: u64,
    pub non_circulating_accounts: Vec<String>,
}

/// Where a stake account is in its activation.
#[derive(Clone, Copy, Debug, PartialEq, Eq)]
pub enum StakeActivationState {
    Activating,
    Active,
    Deactivating,
    Inactive,
}

/// A performance sample of the cluster.
#[derive(Clone, Debug, PartialEq, Eq)]
pub struct RpcPerfSample {
    pub slot: u64,
    pub num_transactions: u64,
    pub num_non_vote_transactions: Option<u64>,
    pub num_slots: u64,
    pub sample_period_secs: u16,
}

/// A reward credited in an epoch.
#[derive(Clone, Debug, PartialEq, Eq)]
pub struct RpcInflationReward {
    pub epoch: u64,
    pub effective_slot: u64,
    /// In lamports.
    pub amount: u64,
    /// In lamports.
    pub post_balance: u64,
    /// The vote account commission when the reward was credited.
    pub commission: Option<u8>,
}

/// Why a block update could not be produced.
#[derive(Clone, Copy, Debug, Eq, PartialEq)]
pub enum RpcBlockUpdateError {
    BlockStoreError,
    UnsupportedTransactionVersion(u8),
}

impl RpcBlockUpdateError {
    /// The text of the error.
    pub open spec fn spec_message(&self) -> Seq<char> {
        match self {
            RpcBlockUpdateError::BlockStoreError => "block store error"@,
            RpcBlockUpdateError::UnsupportedTransactionVersion(v) => "unsupported transaction version ("@
                + decimal(*v as nat) + ")"@,
        }
    }

    /// The text of the error.
    pub fn message(&self) -> (r: String)
        ensures
            r@ == self.spec_message(),
    {
        match self {
            RpcBlockUpdateError::BlockStoreError => String::from_str("block store error"),
            RpcBlockUpdateError::UnsupportedTransactionVersion(v) => {
                let mut s = String::from_str("unsupported transaction version (");
                let d = decimal_string(*v as u64);
                s.append(d.as_str());
                s.append(")");
                s
            },
        }
    }
}

/// The slots of the latest full and incremental snapshots.
#[derive(Clone, Copy, Debug, PartialEq, Eq)]
pub struct RpcSnapshotSlotInfo {
    pub full: u64,
    pub incremental: Option<u64>,
}

/// The contact information of a node in the cluster.
#[derive(Clone, Debug, PartialEq, Eq)]
pub struct RpcContactInfo {
    /// The key of the node, in base 58.
    pub pubkey: String,
    pub gossip: Option<SocketAddr>,
    pub tvu: Option<SocketAddr>,
    pub tpu: Option<SocketAddr>,
    pub tpu_quic: Option<SocketAddr>,
    pub tpu_forwards: Option<SocketAddr>,
    pub tpu_forwards_quic: Option<SocketAddr>,
    pub tpu_vote: Option<SocketAddr>,
    pub serve_repair: Option<SocketAddr>,
    /// The JSON RPC address.
    pub rpc: Option<SocketAddr>,
    /// The WebSocket PubSub address.
    pub pubsub: Option<SocketAddr>,
    /// The software version.
    pub version: Option<String>,
    /// The first four bytes of the feature set identifier.
    pub feature_set: Option<u32>,
    pub shred_version: Option<u16>,
}

impl RpcContactInfo {
    /// A copy of the contact information.
    pub fn duplicate(&self) -> (r: Self)
        ensures
            r == *self,
    {
        RpcContactInfo {
            pubkey: self.pubkey.clone(),
            version: match &self.version {
                Some(v) => Some(v.clone()),
                None => None,
            },
            ..*self
        }
    }
}

/// The prioritization fee paid in a slot.
#[derive(Clone, Copy, Debug, PartialEq, Eq)]
pub struct RpcPrioritizationFee {
    pub slot: u64,
    pub prioritization_fee: u64,
}

} // verus!
