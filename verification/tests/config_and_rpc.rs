use agave::default_args::{DefaultArgs, SendTransactionServiceConfig, LibraryDefaults};
use agave::entrypoints::{entrypoint_order, shred_version_from_reply};
use agave::thread_args::{DefaultThreadArgs, ThreadCountDefaults};
use agave::thread_args::{bounded_default, parse_num_threads_args, read_thread_count, ThreadArg, ThreadArgError, ThreadArgValues};
use agave::snapshot_config::{ArchiveFormat, SnapshotConfig, SnapshotUsage};
use agave::blockstore_options::{
    default_num_compaction_threads, default_num_flush_threads, str_equal, AccessType, BlockstoreCompressionType,
    BlockstoreOptions, BlockstoreRecoveryMode, LedgerColumnOptions,
};
use agave::cli::{deprecated_arguments, deprecation_warning, parse_port, parse_port_range, port_range_validator, port_validator, DefaultTestArgs, IntErrorKind};
use agave::epoch_info::EpochInfo;
use agave::partitioned_rewards::PartitionedEpochRewardsConfig;
use agave::push_active_set::{get_stake_bucket, LAMPORTS_PER_SOL, NUM_PUSH_ACTIVE_SET_ENTRIES};
use agave::response::{
    OptionalContext, Response, RpcBlockUpdateError, RpcResponseContext, RpcVersionInfo, SlotTransactionStats,
    SlotUpdate,
};
use agave::socket::{IpAddr, SocketAddr, SocketAddrSpace};
use agave::text::{decimal_string, first_word_of};

#[test]
fn test_get_stake_bucket() {
    assert_eq!(get_stake_bucket(None), 0);
    let buckets = [0, 1, 2, 2, 3, 3, 3, 3, 4, 4, 4, 4, 4, 4, 4, 4, 5, 5];
    for (k, bucket) in buckets.into_iter().enumerate() {
        let stake = (k as u64) * LAMPORTS_PER_SOL;
        assert_eq!(get_stake_bucket(Some(&stake)), bucket);
    }
    for (stake, bucket) in [
        (4_194_303, 22),
        (4_194_304, 23),
        (8_388_607, 23),
        (8_388_608, 24),
    ] {
        let stake = stake * LAMPORTS_PER_SOL;
        assert_eq!(get_stake_bucket(Some(&stake)), bucket);
    }
    assert_eq!(get_stake_bucket(Some(&u64::MAX)), NUM_PUSH_ACTIVE_SET_ENTRIES - 1);
}

#[test]
fn stake_bucket_below_one_sol_is_zero() {
    assert_eq!(get_stake_bucket(Some(&(LAMPORTS_PER_SOL - 1))), 0);
    assert_eq!(get_stake_bucket(Some(&LAMPORTS_PER_SOL)), 1);
}

#[test]
fn port_validator_accepts_ports() {
    assert_eq!(port_validator("8000".to_string()), Ok(()));
    assert_eq!(port_validator("0".to_string()), Ok(()));
    assert_eq!(port_validator("65535".to_string()), Ok(()));
    assert_eq!(port_validator("+80".to_string()), Ok(()));
}

#[test]
fn port_validator_errors_match_std() {
    for s in ["", "+", "-", "-1", "1a", "65536", "99999a", "7000x", "٣", " 80", "100000"] {
        let expected = s.parse::<u16>().map(|_| ()).map_err(|e| format!("{e:?}"));
        assert_eq!(port_validator(s.to_string()), expected, "input {s:?}");
    }
    assert_eq!(port_validator("".to_string()), Err("ParseIntError { kind: Empty }".to_string()));
    assert_eq!(port_validator("65536".to_string()), Err("ParseIntError { kind: PosOverflow }".to_string()));
    assert_eq!(port_validator("x".to_string()), Err("ParseIntError { kind: InvalidDigit }".to_string()));
}

#[test]
fn parse_port_values() {
    assert_eq!(parse_port("8899"), Ok(8899));
    assert_eq!(parse_port("00012"), Ok(12));
    assert_eq!(parse_port("70000"), Err(IntErrorKind::PosOverflow));
}

#[test]
fn port_range_validator_cases() {
    assert_eq!(port_range_validator("8000".to_string(), 17, 6), Err("Invalid port range".to_string()));
    assert_eq!(port_range_validator("9000-8000".to_string(), 17, 6), Err("Invalid port range".to_string()));
    assert_eq!(
        port_range_validator("8000-8010".to_string(), 17, 6),
        Err("Port range is too small.  Try --dynamic-port-range 8000-8017".to_string())
    );
    assert_eq!(
        port_range_validator("65000-65533".to_string(), 17, 6),
        Err("Invalid dynamic_port_range.".to_string())
    );
    assert_eq!(port_range_validator("8000-10000".to_string(), 17, 6), Ok(()));
}

#[test]
fn port_ranges_parse() {
    assert_eq!(parse_port_range("8000-8020"), Some((8000, 8020)));
    assert_eq!(parse_port_range("8000-8000"), Some((8000, 8000)));
    assert_eq!(parse_port_range("+1-2"), Some((1, 2)));
    assert_eq!(parse_port_range("8020-8000"), None);
    assert_eq!(parse_port_range("8000"), None);
    assert_eq!(parse_port_range("1-2-3"), None);
    assert_eq!(parse_port_range("-5"), None);
    assert_eq!(parse_port_range("1-"), None);
    assert_eq!(parse_port_range("1-70000"), None);
    assert_eq!(parse_port_range("a-b"), None);
}

#[test]
fn default_test_args_values() {
    let args = DefaultTestArgs::new();
    assert_eq!(args.rpc_port, "8899");
    assert_eq!(args.faucet_port, "9900");
    assert_eq!(args.limit_ledger_size, "10000");
    assert_eq!(args.faucet_sol, "1000000");
    assert_eq!(args.faucet_time_slice_secs, "60");
}

#[test]
fn decimal_strings() {
    for n in [0u64, 7, 10, 99, 100, 12345, u64::MAX] {
        assert_eq!(decimal_string(n), n.to_string());
    }
}

#[test]
fn first_word_matches_split_whitespace() {
    for s in ["", "   ", "1.18.0 (src:abc; feat:123)", "  2.0.1\tx", "abc", "\u{3000}x y"] {
        assert_eq!(first_word_of(s), s.split_whitespace().next().map(|w| w.to_string()));
    }
}

#[test]
fn rpc_version_info_display() {
    let info = RpcVersionInfo { solana_core: "1.18.2 (src:devbuild; feat:3352961542)".to_string(), feature_set: None };
    assert_eq!(info.display(), "1.18.2");
    let blank = RpcVersionInfo { solana_core: "   ".to_string(), feature_set: Some(1) };
    assert_eq!(blank.display(), "   ");
}

#[test]
fn rpc_block_update_error_messages() {
    assert_eq!(RpcBlockUpdateError::BlockStoreError.message(), "block store error");
    assert_eq!(
        RpcBlockUpdateError::UnsupportedTransactionVersion(3).message(),
        "unsupported transaction version (3)"
    );
}

#[test]
fn slot_update_slot() {
    let stats = SlotTransactionStats {
        num_transaction_entries: 1,
        num_successful_transactions: 2,
        num_failed_transactions: 3,
        max_transactions_per_entry: 4,
    };
    assert_eq!(SlotUpdate::Frozen { slot: 9, timestamp: 1, stats }.slot(), 9);
    assert_eq!(SlotUpdate::Dead { slot: 4, timestamp: 1, err: "e".to_string() }.slot(), 4);
    assert_eq!(SlotUpdate::CreatedBank { slot: 5, parent: 4, timestamp: 1 }.slot(), 5);
    assert_eq!(SlotUpdate::Root { slot: 6, timestamp: 1 }.slot(), 6);
}

#[test]
fn optional_context_parse_value() {
    let with = OptionalContext::Context(Response {
        context: RpcResponseContext { slot: 3, api_version: None },
        value: 42u64,
    });
    assert_eq!(with.parse_value(), 42);
    assert_eq!(OptionalContext::NoContext(7u64).parse_value(), 7);
}

#[test]
fn socket_addr_space_checks() {
    let addr = |o: [u8; 4]| SocketAddr { ip: IpAddr::V4(o), port: 8000 };
    let global = SocketAddrSpace::new(false);
    assert_eq!(global, SocketAddrSpace::Global);
    assert!(global.check(&addr([8, 8, 8, 8])));
    assert!(!global.check(&addr([10, 0, 0, 1])));
    assert!(!global.check(&addr([172, 16, 0, 1])));
    assert!(!global.check(&addr([172, 31, 255, 1])));
    assert!(global.check(&addr([172, 32, 0, 1])));
    assert!(!global.check(&addr([192, 168, 1, 1])));
    assert!(!global.check(&addr([127, 0, 0, 1])));
    assert!(!global.check(&SocketAddr { ip: IpAddr::V6([0, 0, 0, 0, 0, 0, 0, 1]), port: 1 }));
    assert!(global.check(&SocketAddr { ip: IpAddr::V6([0x2001, 0, 0, 0, 0, 0, 0, 1]), port: 1 }));
    let any = SocketAddrSpace::new(true);
    assert_eq!(any, SocketAddrSpace::Unspecified);
    assert!(any.check(&addr([10, 0, 0, 1])));
}

#[test]
fn blockstore_options_defaults() {
    let options = BlockstoreOptions::default_for_tests();
    assert!(!options.enforce_ulimit_nofile);
    assert_eq!(options.access_type, AccessType::Primary);
    assert!(options.recovery_mode.is_none());
    assert_eq!(options.column_options.compression_type, BlockstoreCompressionType::NoCompression);
    assert!(options.num_rocksdb_compaction_threads >= 1);
    assert!(options.num_rocksdb_flush_threads >= 1);
    assert!(BlockstoreOptions::default().enforce_ulimit_nofile);
    assert!(default_num_compaction_threads() >= default_num_flush_threads());
}

#[test]
fn compression_type_names() {
    let mut options = LedgerColumnOptions::default();
    assert_eq!(options.get_compression_type_string(), "None");
    options.compression_type = BlockstoreCompressionType::Snappy;
    assert_eq!(options.get_compression_type_string(), "Snappy");
    options.compression_type = BlockstoreCompressionType::Lz4;
    assert_eq!(options.get_compression_type_string(), "Lz4");
    options.compression_type = BlockstoreCompressionType::Zlib;
    assert_eq!(options.get_compression_type_string(), "Zlib");
}

#[test]
fn recovery_mode_names() {
    assert_eq!(
        BlockstoreRecoveryMode::from_name("tolerate_corrupted_tail_records"),
        Some(BlockstoreRecoveryMode::TolerateCorruptedTailRecords)
    );
    assert_eq!(
        BlockstoreRecoveryMode::from_name("absolute_consistency"),
        Some(BlockstoreRecoveryMode::AbsoluteConsistency)
    );
    assert_eq!(BlockstoreRecoveryMode::from_name("point_in_time"), Some(BlockstoreRecoveryMode::PointInTime));
    assert_eq!(
        BlockstoreRecoveryMode::from_name("skip_any_corrupted_record"),
        Some(BlockstoreRecoveryMode::SkipAnyCorruptedRecord)
    );
    assert_eq!(BlockstoreRecoveryMode::from_name("bogus"), None);
    assert!(str_equal("abc", "abc"));
    assert!(!str_equal("abc", "abd"));
}

#[test]
fn partitioned_rewards_config() {
    assert_eq!(PartitionedEpochRewardsConfig::default().stake_account_stores_per_block, 4096);
    assert_eq!(PartitionedEpochRewardsConfig::new_for_test(12).stake_account_stores_per_block, 12);
}

#[test]
fn epoch_info_equality() {
    let a = EpochInfo {
        epoch: 1,
        slot_index: 2,
        slots_in_epoch: 3,
        absolute_slot: 4,
        block_height: 5,
        transaction_count: None,
    };
    assert_eq!(a.clone(), a);
}

fn thread_values(all: &str) -> ThreadArgValues {
    ThreadArgValues {
        accounts_db_clean_threads: all.to_string(),
        accounts_db_foreground_threads: all.to_string(),
        accounts_db_hash_threads: all.to_string(),
        accounts_index_flush_threads: all.to_string(),
        ip_echo_server_threads: all.to_string(),
        rayon_global_threads: all.to_string(),
        replay_forks_threads: all.to_string(),
        replay_transactions_threads: all.to_string(),
        rocksdb_compaction_threads: all.to_string(),
        rocksdb_flush_threads: all.to_string(),
        tvu_receive_threads: all.to_string(),
        tvu_sigverify_threads: all.to_string(),
    }
}

#[test]
fn thread_counts_read_as_nonzero_numbers() {
    assert_eq!(read_thread_count("8"), Ok(8));
    assert_eq!(read_thread_count("+12"), Ok(12));
    assert_eq!(read_thread_count("0"), Err(IntErrorKind::Zero));
    assert_eq!(read_thread_count(""), Err(IntErrorKind::Empty));
    assert_eq!(read_thread_count("-3"), Err(IntErrorKind::InvalidDigit));
    assert_eq!(read_thread_count("3x"), Err(IntErrorKind::InvalidDigit));
    assert_eq!(read_thread_count("99999999999999999999999"), Err(IntErrorKind::PosOverflow));
    assert_eq!(read_thread_count(&usize::MAX.to_string()), Ok(usize::MAX));
}

#[test]
fn thread_config_from_values() {
    let c = parse_num_threads_args(&thread_values("3"), false).unwrap();
    assert_eq!(c.accounts_db_clean_threads, 3);
    assert_eq!(c.replay_forks_threads, 3);
    assert_eq!(c.tvu_sigverify_threads, 3);
    let c = parse_num_threads_args(&thread_values("3"), true).unwrap();
    assert_eq!(c.replay_forks_threads, 4);
    assert_eq!(c.replay_transactions_threads, 3);
    let mut v = thread_values("2");
    v.replay_forks_threads = "0".to_string();
    assert!(parse_num_threads_args(&v, true).is_ok());
    assert_eq!(
        parse_num_threads_args(&v, false),
        Err(ThreadArgError { arg: ThreadArg::ReplayForksThreads, kind: IntErrorKind::Zero })
    );
    v.accounts_db_hash_threads = "many".to_string();
    assert_eq!(
        parse_num_threads_args(&v, true),
        Err(ThreadArgError { arg: ThreadArg::AccountsDbHashThreads, kind: IntErrorKind::InvalidDigit })
    );
}

#[test]
fn thread_arg_names() {
    assert_eq!(ThreadArg::TvuShredSigverifyThreads.name(), "tvu_shred_sigverify_threads");
    assert_eq!(ThreadArg::ReplayForksThreads.long_name(), "replay-forks-threads");
    assert_eq!(ThreadArg::RayonGlobalThreads.help(), "Number of threads to use for the global rayon thread pool");
    assert_eq!(bounded_default(8, 4), 4);
    assert_eq!(bounded_default(2, 4), 2);
}

#[test]
fn snapshot_config_defaults() {
    let c = SnapshotConfig::default();
    assert_eq!(c.usage, SnapshotUsage::LoadAndGenerate);
    assert!(c.should_generate_snapshots());
    assert_eq!(c.full_snapshot_archive_interval_slots, 25_000);
    assert_eq!(c.incremental_snapshot_archive_interval_slots, 100);
    assert_eq!(c.maximum_full_snapshot_archives_to_retain, 2);
    assert_eq!(c.maximum_incremental_snapshot_archives_to_retain, 4);
    assert_eq!(c.archive_format, ArchiveFormat::TarZstd);
    let l = SnapshotConfig::new_load_only();
    assert_eq!(l.usage, SnapshotUsage::LoadOnly);
    assert!(!l.should_generate_snapshots());
    assert_eq!(l.full_snapshot_archive_interval_slots, 25_000);
}

#[test]
fn zero_parse_error_is_printed() {
    assert_eq!(IntErrorKind::Zero.debug_string(), "ParseIntError { kind: Zero }");
}

fn sample_thread_defaults() -> ThreadCountDefaults {
    ThreadCountDefaults {
        accounts_db_clean_threads: 4,
        accounts_db_foreground_threads: 16,
        accounts_db_hash_threads: 2,
        accounts_index_flush_threads: 4,
        ip_echo_server_threads: 8,
        rocksdb_compaction_threads: 32,
        rocksdb_flush_threads: 8,
        tvu_receive_threads: 8,
        tvu_sigverify_threads: 8,
        max_thread_count: 16,
    }
}

#[test]
fn default_thread_args_are_bounded_by_the_maximum() {
    let args = DefaultThreadArgs::new(&sample_thread_defaults());
    assert_eq!(args.accounts_db_clean_threads, "4");
    assert_eq!(args.accounts_db_foreground_threads, "16");
    // More than the maximum is cut down to it.
    assert_eq!(args.rocksdb_compaction_threads, "16");
    assert_eq!(args.rayon_global_threads, "16");
    assert_eq!(args.replay_transactions_threads, "16");
    // Forks are replayed on one thread by default.
    assert_eq!(args.replay_forks_threads, "1");
    assert_eq!(args.tvu_sigverify_threads, "8");
}

#[test]
fn default_args_write_out_the_defaults() {
    let libs = LibraryDefaults {
        validator_port_range: (8000, 10_000),
        max_genesis_archive_unpacked_size: 10_485_760,
        max_multiple_accounts: 100,
        delinquent_validator_slot_distance: 128,
        pubsub_max_active_subscriptions: 1_000_000,
        pubsub_queue_capacity_items: 10_000_000,
        pubsub_queue_capacity_bytes: 268_435_456,
        send_transaction_service: SendTransactionServiceConfig {
            retry_rate_ms: 2000,
            leader_forward_count: 2,
            default_max_retries: None,
            service_max_retries: usize::MAX,
            batch_size: 1,
            batch_send_rate_ms: 1,
            retry_pool_max_size: 10_000,
            tpu_peers: None,
        },
        bigtable_instance_name: "solana-ledger".to_string(),
        bigtable_app_profile_id: "default".to_string(),
        bigtable_max_message_size: 67_108_864,
        thread_count: 8,
        min_snapshot_download_speed: 10_485_760,
        max_snapshot_download_abort: 5,
        archive_compression: "zstd".to_string(),
        accounts_shrink_optimize_total_space: true,
        accounts_shrink_ratio: "0.8".to_string(),
        tpu_connection_pool_size: 4,
        max_connections_per_ipaddr_per_minute: 8,
        vote_use_quic: false,
        quic_endpoints: 1,
        max_request_body_size: 51_200,
        banking_trace_dir_byte_limit: 1_073_741_824,
    };
    let args = DefaultArgs::new(libs, &sample_thread_defaults());
    assert_eq!(args.bind_address, "0.0.0.0");
    assert_eq!(args.dynamic_port_range, "8000-10000");
    assert_eq!(args.ledger_path, "ledger");
    assert_eq!(args.genesis_archive_unpacked_size, "10485760");
    assert_eq!(args.rpc_send_transaction_service_max_retries, usize::MAX.to_string());
    assert_eq!(args.rpc_send_transaction_retry_ms, "2000");
    assert_eq!(args.rpc_threads, num_cpus::get().to_string());
    assert_eq!(args.rpc_blocking_threads, 1.max(num_cpus::get() / 4).to_string());
    assert_eq!(args.rpc_bigtable_instance_name, "solana-ledger");
    assert_eq!(args.maximum_full_snapshot_archives_to_retain, "2");
    assert_eq!(args.maximum_incremental_snapshot_archives_to_retain, "4");
    assert_eq!(args.accounts_shrink_optimize_total_space, "true");
    assert_eq!(args.vote_use_quic, "false");
    assert_eq!(args.rpc_max_request_body_size, "51200");
    assert_eq!(args.wen_restart_path, "wen_restart_progress.proto");
    assert_eq!(args.thread_args.replay_forks_threads, "1");
}

#[test]
fn entrypoints_are_each_asked_once() {
    let mut rng = rand::thread_rng();
    for n in [0usize, 1, 2, 7, 50] {
        let mut order = entrypoint_order(&mut rng, n);
        assert_eq!(order.len(), n);
        order.sort();
        assert_eq!(order, (0..n).collect::<Vec<_>>());
    }
    // The order is left to chance: fifty entrypoints do not keep their
    // order every time.
    let identity: Vec<usize> = (0..50).collect();
    assert!((0..5).any(|_| entrypoint_order(&mut rng, 50) != identity));
}

#[test]
fn a_zero_shred_version_is_not_taken() {
    assert_eq!(shred_version_from_reply(Some(0)), None);
    assert_eq!(shred_version_from_reply(None), None);
    assert_eq!(shred_version_from_reply(Some(4096)), Some(4096));
}

#[test]
fn written_ports_read_back() {
    for p in [0u16, 7, 10, 99, 8899, 65535] {
        assert_eq!(parse_port(&decimal_string(p as u64)), Ok(p));
    }
    for (a, b) in [(0u16, 0u16), (8000, 10_000), (1, 65535)] {
        let text = format!("{}-{}", decimal_string(a as u64), decimal_string(b as u64));
        assert_eq!(parse_port_range(&text), Some((a, b)));
    }
}

#[test]
fn deprecation_warnings() {

    assert_eq!(
        deprecation_warning("accounts_db_skip_shrink", None, Some("Enabled by default")),
        "--accounts-db-skip-shrink is deprecated.  Enabled by default."
    );
    assert_eq!(
        deprecation_warning("no_check_vote_account", Some("no-skip-initial-accounts-db-clean"), None),
        "--no-check-vote-account is deprecated, please use --no-skip-initial-accounts-db-clean."
    );
    assert_eq!(
        deprecation_warning("minimal_rpc_api", None, Some("All RPC APIs are enabled.")),
        "--minimal-rpc-api is deprecated.  All RPC APIs are enabled."
    );
}

#[test]
fn make_sure_deprecated_arguments_are_sorted_alphabetically() {
    let deprecated = deprecated_arguments();

    for i in 0..deprecated.len().saturating_sub(1) {
        let curr_name = deprecated[i].name;
        let next_name = deprecated[i + 1].name;

        assert!(
            curr_name != next_name,
            "Arguments in `deprecated_arguments()` should be distinct.\nArguments {} and {} \
             use the same name: {}",
            i,
            i + 1,
            curr_name,
        );

        assert!(
            curr_name < next_name,
            "To generate better diffs and for readability purposes, `deprecated_arguments()` \
             should list arguments in alphabetical order.\nArguments {} and {} are \
             not.\nArgument {} name: {}\nArgument {} name: {}",
            i,
            i + 1,
            i,
            curr_name,
            i + 1,
            next_name,
        );
    }
}
