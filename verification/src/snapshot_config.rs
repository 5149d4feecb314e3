//! How a node loads and makes snapshots of the bank.

use vstd::prelude::*;

verus! {

/// How often full snapshot archives are made, in slots, by default.
pub const DEFAULT_FULL_SNAPSHOT_ARCHIVE_INTERVAL_SLOTS: u64 = 25_000;

/// How often incremental snapshot archives are made, in slots, by default.
pub const DEFAULT_INCREMENTAL_SNAPSHOT_ARCHIVE_INTERVAL_SLOTS: u64 = 100;

/// How many full snapshot archives are kept, by default.
pub const DEFAULT_MAX_FULL_SNAPSHOT_ARCHIVES_TO_RETAIN: usize = 2;

/// How many incremental snapshot archives are kept, by default.
pub const DEFAULT_MAX_INCREMENTAL_SNAPSHOT_ARCHIVES_TO_RETAIN: usize = 4;

/// Whether snapshots are only loaded, or also made.
#[derive(Debug, Clone, Copy, PartialEq, Eq, Structural)]
pub enum SnapshotUsage {
    /// Snapshots are loaded at startup only.
    LoadOnly,
    /// Snapshots are loaded at startup and made as the node runs.
    LoadAndGenerate,
}

/// How snapshot archives are compressed.
#[derive(Debug, Clone, Copy, PartialEq, Eq)]
pub enum ArchiveFormat {
    TarBzip2,
    TarGzip,
    TarZstd,
    TarLz4,
    Tar,
}

/// The layout version of snapshots.
#[derive(Debug, Clone, Copy, PartialEq, Eq)]
pub enum SnapshotVersion {
    V1_2_0,
}

/// Snapshot configuration.
#[derive(Clone, Debug)]
pub struct SnapshotConfig {
    /// Whether snapshots are only loaded, or also made.
    pub usage: SnapshotUsage,
    /// How often full snapshot archives are made, in slots.
    pub full_snapshot_archive_interval_slots: u64,
    /// How often incremental snapshot archives are made, in slots.
    pub incremental_snapshot_archive_interval_slots: u64,
    /// Where full snapshot archives go.
    pub full_snapshot_archives_dir: String,
    /// Where incremental snapshot archives go.
    pub incremental_snapshot_archives_dir: String,
    /// Where bank snapshots go.
    pub bank_snapshots_dir: String,
    /// How archives are compressed.
    pub archive_format: ArchiveFormat,
    /// The layout version of snapshots.
    pub snapshot_version: SnapshotVersion,
    /// How many full snapshot archives are kept (at least one).
    pub maximum_full_snapshot_archives_to_retain: usize,
    /// How many incremental snapshot archives are kept (at least one).
    pub maximum_incremental_snapshot_archives_to_retain: usize,
    /// Whether the accounts hash is checked again, for debugging.
    pub accounts_hash_debug_verify: bool,
    /// The niceness adjustment of the thread that packages snapshots.
    pub packager_thread_niceness_adj: i8,
}

/// The default configuration, made with `usage`.
pub open spec fn default_snapshot_config(c: SnapshotConfig, usage: SnapshotUsage) -> bool {
    &&& c.usage == usage
    &&& c.full_snapshot_archive_interval_slots == DEFAULT_FULL_SNAPSHOT_ARCHIVE_INTERVAL_SLOTS
    &&& c.incremental_snapshot_archive_interval_slots == DEFAULT_INCREMENTAL_SNAPSHOT_ARCHIVE_INTERVAL_SLOTS
    &&& c.full_snapshot_archives_dir@ == Seq::<char>::empty()
    &&& c.incremental_snapshot_archives_dir@ == Seq::<char>::empty()
    &&& c.bank_snapshots_dir@ == Seq::<char>::empty()
    &&& c.archive_format == ArchiveFormat::TarZstd
    &&& c.snapshot_version == SnapshotVersion::V1_2_0
    &&& c.maximum_full_snapshot_archives_to_retain == DEFAULT_MAX_FULL_SNAPSHOT_ARCHIVES_TO_RETAIN
    &&& c.maximum_incremental_snapshot_archives_to_retain == DEFAULT_MAX_INCREMENTAL_SNAPSHOT_ARCHIVES_TO_RETAIN
    &&& !c.accounts_hash_debug_verify
    &&& c.packager_thread_niceness_adj == 0
}

impl Default for SnapshotConfig {
    /// Snapshots loaded and made at the default intervals, kept in the
    /// default numbers, in Zstandard-compressed archives.
    fn default() -> (r: Self)
        ensures
            default_snapshot_config(r, SnapshotUsage::LoadAndGenerate),
    {
        SnapshotConfig {
            usage: SnapshotUsage::LoadAndGenerate,
            full_snapshot_archive_interval_slots: DEFAULT_FULL_SNAPSHOT_ARCHIVE_INTERVAL_SLOTS,
            incremental_snapshot_archive_interval_slots: DEFAULT_INCREMENTAL_SNAPSHOT_ARCHIVE_INTERVAL_SLOTS,
            full_snapshot_archives_dir: String::new(),
            incremental_snapshot_archives_dir: String::new(),
            bank_snapshots_dir: String::new(),
            archive_format: ArchiveFormat::TarZstd,
            snapshot_version: SnapshotVersion::V1_2_0,
            maximum_full_snapshot_archives_to_retain: DEFAULT_MAX_FULL_SNAPSHOT_ARCHIVES_TO_RETAIN,
            maximum_incremental_snapshot_archives_to_retain: DEFAULT_MAX_INCREMENTAL_SNAPSHOT_ARCHIVES_TO_RETAIN,
            accounts_hash_debug_verify: false,
            packager_thread_niceness_adj: 0,
        }
    }
}

impl SnapshotConfig {
    /// The default configuration, but snapshots are only loaded.
    pub fn new_load_only() -> (r: Self)
        ensures
            default_snapshot_config(r, SnapshotUsage::LoadOnly),
    {
        SnapshotConfig { usage: SnapshotUsage::LoadOnly, ..Self::default() }
    }

    /// Whether snapshots are made as the node runs.
    pub fn should_generate_snapshots(&self) -> (r: bool)
        ensures
            r == (self.usage == SnapshotUsage::LoadAndGenerate),
    {
        self.usage == SnapshotUsage::LoadAndGenerate
    }
}

} // verus!
