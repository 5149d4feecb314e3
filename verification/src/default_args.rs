//! The default values of the validator's command-line arguments, as the
//! command line shows them.

use vstd::prelude::*;
use crate::socket::SocketAddr;
use crate::snapshot_config::{
    SnapshotVersion, DEFAULT_FULL_SNAPSHOT_ARCHIVE_INTERVAL_SLOTS, DEFAULT_INCREMENTAL_SNAPSHOT_ARCHIVE_INTERVAL_SLOTS,
    DEFAULT_MAX_FULL_SNAPSHOT_ARCHIVES_TO_RETAIN, DEFAULT_MAX_INCREMENTAL_SNAPSHOT_ARCHIVES_TO_RETAIN,
};
use crate::text::{decimal, decimal_string};
use crate::thread_args::{DefaultThreadArgs, ThreadCountDefaults};
use crate::blockstore_options::num_cpus_get;
use crate::cli::{port_range_of, law_port_range_text_reads_back};

verus! {

/// How the service that sends transactions retries and batches them.
pub struct SendTransactionServiceConfig {
    pub retry_rate_ms: u64,
    pub leader_forward_count: u64,
    pub default_max_retries: Option<usize>,
    pub service_max_retries: usize,
    pub batch_size: usize,
    pub batch_send_rate_ms: u64,
    pub retry_pool_max_size: usize,
    pub tpu_peers: Option<Vec<SocketAddr>>,
}

/// The defaults that come from the crates the validator is built with.
pub struct LibraryDefaults {
    /// The range of ports the validator binds by default.
    pub validator_port_range: (u16, u16),
    pub max_genesis_archive_unpacked_size: u64,
    pub max_multiple_accounts: usize,
    pub delinquent_validator_slot_distance: u64,
    pub pubsub_max_active_subscriptions: usize,
    pub pubsub_queue_capacity_items: usize,
    pub pubsub_queue_capacity_bytes: usize,
    pub send_transaction_service: SendTransactionServiceConfig,
    pub bigtable_instance_name: String,
    pub bigtable_app_profile_id: String,
    pub bigtable_max_message_size: usize,
    /// The number of threads of a default thread pool.
    pub thread_count: usize,
    pub min_snapshot_download_speed: u64,
    pub max_snapshot_download_abort: u64,
    /// The name of the default snapshot archive format.
    pub archive_compression: String,
    pub accounts_shrink_optimize_total_space: bool,
    /// The default shrink ratio of accounts storage, in decimal.
    pub accounts_shrink_ratio: String,
    pub tpu_connection_pool_size: usize,
    pub max_connections_per_ipaddr_per_minute: u64,
    pub vote_use_quic: bool,
    pub quic_endpoints: usize,
    pub max_request_body_size: usize,
    pub banking_trace_dir_byte_limit: u64,
}

/// The default values of the command-line arguments, as text.
pub struct DefaultArgs {
    pub bind_address: String,
    pub dynamic_port_range: String,
    pub ledger_path: String,
    pub genesis_archive_unpacked_size: String,
    pub health_check_slot_distance: String,
    pub tower_storage: String,
    pub etcd_domain_name: String,
    pub send_transaction_service_config: SendTransactionServiceConfig,
    pub rpc_max_multiple_accounts: String,
    pub rpc_pubsub_max_active_subscriptions: String,
    pub rpc_pubsub_queue_capacity_items: String,
    pub rpc_pubsub_queue_capacity_bytes: String,
    pub rpc_send_transaction_retry_ms: String,
    pub rpc_send_transaction_batch_ms: String,
    pub rpc_send_transaction_leader_forward_count: String,
    pub rpc_send_transaction_service_max_retries: String,
    pub rpc_send_transaction_batch_size: String,
    pub rpc_send_transaction_retry_pool_max_size: String,
    pub rpc_threads: String,
    pub rpc_blocking_threads: String,
    pub rpc_niceness_adjustment: String,
    pub rpc_bigtable_timeout: String,
    pub rpc_bigtable_instance_name: String,
    pub rpc_bigtable_app_profile_id: String,
    pub rpc_bigtable_max_message_size: String,
    pub rpc_max_request_body_size: String,
    pub rpc_pubsub_worker_threads: String,
    pub rpc_pubsub_notification_threads: String,
    pub maximum_local_snapshot_age: String,
    pub maximum_full_snapshot_archives_to_retain: String,
    pub maximum_incremental_snapshot_archives_to_retain: String,
    pub snapshot_packager_niceness_adjustment: String,
    pub full_snapshot_archive_interval_slots: String,
    pub incremental_snapshot_archive_interval_slots: String,
    pub min_snapshot_download_speed: String,
    pub max_snapshot_download_abort: String,
    pub contact_debug_interval: String,
    pub snapshot_version: SnapshotVersion,
    pub snapshot_archive_format: String,
    pub rocksdb_shred_compaction: String,
    pub rocksdb_ledger_compression: String,
    pub rocksdb_perf_sample_interval: String,
    pub accounts_shrink_optimize_total_space: String,
    pub accounts_shrink_ratio: String,
    pub tpu_connection_pool_size: String,
    pub tpu_max_connections_per_ipaddr_per_minute: String,
    pub num_quic_endpoints: String,
    pub vote_use_quic: String,
    pub exit_min_idle_time: String,
    pub exit_max_delinquent_stake: String,
    pub wait_for_restart_window_min_idle_time: String,
    pub wait_for_restart_window_max_delinquent_stake: String,
    pub banking_trace_dir_byte_limit: String,
    pub wen_restart_path: String,
    pub thread_args: DefaultThreadArgs,
}

/// `b` as text.
pub open spec fn bool_text(b: bool) -> Seq<char> {
    if b { "true"@ } else { "false"@ }
}

/// `b` as text.
fn bool_string(b: bool) -> (r: String)
    ensures
        r@ == bool_text(b),
{
    if b { String::from_str("true") } else { String::from_str("false") }
}

/// The text of a range of ports: its first and last port, in decimal, with
/// a hyphen between.
pub open spec fn port_range_text(range: (u16, u16)) -> Seq<char> {
    decimal(range.0 as nat) + "-"@ + decimal(range.1 as nat)
}

/// The text of a range of ports.
fn port_range_string(range: (u16, u16)) -> (r: String)
    ensures
        r@ == port_range_text(range),
{
    let mut s = decimal_string(range.0 as u64);
    s.append("-");
    let hi = decimal_string(range.1 as u64);
    s.append(hi.as_str());
    s
}

/// The number of RPC threads that block, for `cpus` CPUs: a quarter of them,
/// and at least one.
pub open spec fn blocking_threads_for(cpus: nat) -> nat {
    if cpus / 4 >= 1 { cpus / 4 } else { 1 }
}

impl DefaultArgs {
    /// The defaults of the command line: those that come from the crates the
    /// validator is built with, `libs` and `threads`, written out, and
    /// the validator's own. RPC threads default to one per CPU, and those
    /// that block to a quarter of the CPUs, at least one.
    pub fn new(libs: LibraryDefaults, threads: &ThreadCountDefaults) -> (r: Self)
        ensures
            r.bind_address@ == "0.0.0.0"@,
            r.ledger_path@ == "ledger"@,
            r.dynamic_port_range@ == port_range_text(libs.validator_port_range),
            r.maximum_local_snapshot_age@ == "2500"@,
            r.genesis_archive_unpacked_size@ == decimal(libs.max_genesis_archive_unpacked_size as nat),
            r.rpc_max_multiple_accounts@ == decimal(libs.max_multiple_accounts as nat),
            r.health_check_slot_distance@ == decimal(libs.delinquent_validator_slot_distance as nat),
            r.tower_storage@ == "file"@,
            r.etcd_domain_name@ == "localhost"@,
            r.rpc_pubsub_max_active_subscriptions@ == decimal(libs.pubsub_max_active_subscriptions as nat),
            r.rpc_pubsub_queue_capacity_items@ == decimal(libs.pubsub_queue_capacity_items as nat),
            r.rpc_pubsub_queue_capacity_bytes@ == decimal(libs.pubsub_queue_capacity_bytes as nat),
            r.send_transaction_service_config == libs.send_transaction_service,
            r.rpc_send_transaction_retry_ms@ == decimal(libs.send_transaction_service.retry_rate_ms as nat),
            r.rpc_send_transaction_batch_ms@ == decimal(libs.send_transaction_service.batch_send_rate_ms as nat),
            r.rpc_send_transaction_leader_forward_count@ == decimal(libs.send_transaction_service.leader_forward_count as nat),
            r.rpc_send_transaction_service_max_retries@ == decimal(libs.send_transaction_service.service_max_retries as nat),
            r.rpc_send_transaction_batch_size@ == decimal(libs.send_transaction_service.batch_size as nat),
            r.rpc_send_transaction_retry_pool_max_size@ == decimal(libs.send_transaction_service.retry_pool_max_size as nat),
            exists|cpus: nat| cpus >= 1 && r.rpc_threads@ == decimal(cpus),
            exists|cpus: nat| cpus >= 1 && r.rpc_blocking_threads@ == decimal(blocking_threads_for(cpus)),
            r.rpc_niceness_adjustment@ == "0"@,
            r.rpc_bigtable_timeout@ == "30"@,
            r.rpc_bigtable_instance_name@ == libs.bigtable_instance_name@,
            r.rpc_bigtable_app_profile_id@ == libs.bigtable_app_profile_id@,
            r.rpc_bigtable_max_message_size@ == decimal(libs.bigtable_max_message_size as nat),
            r.rpc_pubsub_worker_threads@ == "4"@,
            r.rpc_pubsub_notification_threads@ == decimal(libs.thread_count as nat),
            r.maximum_full_snapshot_archives_to_retain@ == decimal(DEFAULT_MAX_FULL_SNAPSHOT_ARCHIVES_TO_RETAIN as nat),
            r.maximum_incremental_snapshot_archives_to_retain@ == decimal(DEFAULT_MAX_INCREMENTAL_SNAPSHOT_ARCHIVES_TO_RETAIN as nat),
            r.snapshot_packager_niceness_adjustment@ == "0"@,
            r.full_snapshot_archive_interval_slots@ == decimal(DEFAULT_FULL_SNAPSHOT_ARCHIVE_INTERVAL_SLOTS as nat),
            r.incremental_snapshot_archive_interval_slots@ == decimal(DEFAULT_INCREMENTAL_SNAPSHOT_ARCHIVE_INTERVAL_SLOTS as nat),
            r.min_snapshot_download_speed@ == decimal(libs.min_snapshot_download_speed as nat),
            r.max_snapshot_download_abort@ == decimal(libs.max_snapshot_download_abort as nat),
            r.snapshot_archive_format@ == libs.archive_compression@,
            r.contact_debug_interval@ == "120000"@,
            r.snapshot_version == SnapshotVersion::V1_2_0,
            r.rocksdb_shred_compaction@ == "level"@,
            r.rocksdb_ledger_compression@ == "none"@,
            r.rocksdb_perf_sample_interval@ == "0"@,
            r.accounts_shrink_optimize_total_space@ == bool_text(libs.accounts_shrink_optimize_total_space),
            r.accounts_shrink_ratio@ == libs.accounts_shrink_ratio@,
            r.tpu_connection_pool_size@ == decimal(libs.tpu_connection_pool_size as nat),
            r.tpu_max_connections_per_ipaddr_per_minute@ == decimal(libs.max_connections_per_ipaddr_per_minute as nat),
            r.vote_use_quic@ == bool_text(libs.vote_use_quic),
            r.num_quic_endpoints@ == decimal(libs.quic_endpoints as nat),
            r.rpc_max_request_body_size@ == decimal(libs.max_request_body_size as nat),
            r.exit_min_idle_time@ == "10"@,
            r.exit_max_delinquent_stake@ == "5"@,
            r.wait_for_restart_window_min_idle_time@ == "10"@,
            r.wait_for_restart_window_max_delinquent_stake@ == "5"@,
            r.banking_trace_dir_byte_limit@ == decimal(libs.banking_trace_dir_byte_limit as nat),
            r.wen_restart_path@ == "wen_restart_progress.proto"@,
            r.thread_args.defaults_of(*threads),
    {
        let sts = &libs.send_transaction_service;
        let rpc_send_transaction_retry_ms = decimal_string(sts.retry_rate_ms);
        let rpc_send_transaction_batch_ms = decimal_string(sts.batch_send_rate_ms);
        let rpc_send_transaction_leader_forward_count = decimal_string(sts.leader_forward_count);
        let rpc_send_transaction_service_max_retries = decimal_string(sts.service_max_retries as u64);
        let rpc_send_transaction_batch_size = decimal_string(sts.batch_size as u64);
        let rpc_send_transaction_retry_pool_max_size = decimal_string(sts.retry_pool_max_size as u64);
        let cpus = num_cpus_get();
        let rpc_threads = decimal_string(cpus as u64);
        let cpus = num_cpus_get();
        let quarter = cpus / 4;
        let blocking = if quarter >= 1 { quarter } else { 1 };
        assert(blocking == blocking_threads_for(cpus as nat));
        let rpc_blocking_threads = decimal_string(blocking as u64);
        DefaultArgs {
            bind_address: String::from_str("0.0.0.0"),
            ledger_path: String::from_str("ledger"),
            dynamic_port_range: port_range_string(libs.validator_port_range),
            maximum_local_snapshot_age: String::from_str("2500"),
            genesis_archive_unpacked_size: decimal_string(libs.max_genesis_archive_unpacked_size),
            rpc_max_multiple_accounts: decimal_string(libs.max_multiple_accounts as u64),
            health_check_slot_distance: decimal_string(libs.delinquent_validator_slot_distance),
            tower_storage: String::from_str("file"),
            etcd_domain_name: String::from_str("localhost"),
            rpc_pubsub_max_active_subscriptions: decimal_string(libs.pubsub_max_active_subscriptions as u64),
            rpc_pubsub_queue_capacity_items: decimal_string(libs.pubsub_queue_capacity_items as u64),
            rpc_pubsub_queue_capacity_bytes: decimal_string(libs.pubsub_queue_capacity_bytes as u64),
            send_transaction_service_config: libs.send_transaction_service,
            rpc_send_transaction_retry_ms,
            rpc_send_transaction_batch_ms,
            rpc_send_transaction_leader_forward_count,
            rpc_send_transaction_service_max_retries,
            rpc_send_transaction_batch_size,
            rpc_send_transaction_retry_pool_max_size,
            rpc_threads,
            rpc_blocking_threads,
            rpc_niceness_adjustment: String::from_str("0"),
            rpc_bigtable_timeout: String::from_str("30"),
            rpc_bigtable_instance_name: libs.bigtable_instance_name,
            rpc_bigtable_app_profile_id: libs.bigtable_app_profile_id,
            rpc_bigtable_max_message_size: decimal_string(libs.bigtable_max_message_size as u64),
            rpc_pubsub_worker_threads: String::from_str("4"),
            rpc_pubsub_notification_threads: decimal_string(libs.thread_count as u64),
            maximum_full_snapshot_archives_to_retain: decimal_string(DEFAULT_MAX_FULL_SNAPSHOT_ARCHIVES_TO_RETAIN as u64),
            maximum_incremental_snapshot_archives_to_retain: decimal_string(DEFAULT_MAX_INCREMENTAL_SNAPSHOT_ARCHIVES_TO_RETAIN as u64),
            snapshot_packager_niceness_adjustment: String::from_str("0"),
            full_snapshot_archive_interval_slots: decimal_string(DEFAULT_FULL_SNAPSHOT_ARCHIVE_INTERVAL_SLOTS),
            incremental_snapshot_archive_interval_slots: decimal_string(DEFAULT_INCREMENTAL_SNAPSHOT_ARCHIVE_INTERVAL_SLOTS),
            min_snapshot_download_speed: decimal_string(libs.min_snapshot_download_speed),
            max_snapshot_download_abort: decimal_string(libs.max_snapshot_download_abort),
            snapshot_archive_format: libs.archive_compression,
            contact_debug_interval: String::from_str("120000"),
            snapshot_version: SnapshotVersion::V1_2_0,
            rocksdb_shred_compaction: String::from_str("level"),
            rocksdb_ledger_compression: String::from_str("none"),
            rocksdb_perf_sample_interval: String::from_str("0"),
            accounts_shrink_optimize_total_space: bool_string(libs.accounts_shrink_optimize_total_space),
            accounts_shrink_ratio: libs.accounts_shrink_ratio,
            tpu_connection_pool_size: decimal_string(libs.tpu_connection_pool_size as u64),
            tpu_max_connections_per_ipaddr_per_minute: decimal_string(libs.max_connections_per_ipaddr_per_minute),
            vote_use_quic: bool_string(libs.vote_use_quic),
            num_quic_endpoints: decimal_string(libs.quic_endpoints as u64),
            rpc_max_request_body_size: decimal_string(libs.max_request_body_size as u64),
            exit_min_idle_time: String::from_str("10"),
            exit_max_delinquent_stake: String::from_str("5"),
            wait_for_restart_window_min_idle_time: String::from_str("10"),
            wait_for_restart_window_max_delinquent_stake: String::from_str("5"),
            banking_trace_dir_byte_limit: decimal_string(libs.banking_trace_dir_byte_limit),
            wen_restart_path: String::from_str("wen_restart_progress.proto"),
            thread_args: DefaultThreadArgs::new(threads),
        }
    }
}

/// The default dynamic port range, as written, reads back as the range it
/// was written from, when its first port is not above its last.
pub proof fn law_default_port_range_reads_back(range: (u16, u16))
    requires
        range.0 <= range.1,
    ensures
        port_range_of(port_range_text(range)) == Some(range),
{
    law_port_range_text_reads_back(range.0, range.1);
}

} // verus!
