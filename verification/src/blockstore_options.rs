//! Options for opening the blockstore.

use vstd::prelude::*;

verus! {

/// The subdirectory of the ledger directory where the blockstore lives.
pub const BLOCKSTORE_DIRECTORY_ROCKS_LEVEL: &'static str = "rocksdb";

/// `num_cpus::get`: the number of logical CPUs available to this process;
/// the crate documents that it is always at least one. It depends on the
/// machine, so nothing more is stated.
#[verifier::external_body]
pub(crate) fn num_cpus_get() -> (r: usize)
    ensures
        r >= 1,
{
    num_cpus::get()
}

/// The default number of compaction threads: one per available CPU.
pub fn default_num_compaction_threads() -> (r: usize)
    ensures
        r >= 1,
{
    num_cpus_get()
}

/// The number of flush threads for `cpus` available CPUs: a quarter of them,
/// and at least one.
pub open spec fn flush_threads_for(cpus: nat) -> nat {
    if cpus / 4 >= 1 { cpus / 4 } else { 1 }
}

/// The default number of flush threads: a quarter of the available CPUs,
/// and at least one.
pub fn default_num_flush_threads() -> (r: usize)
    ensures
        exists|cpus: nat| cpus >= 1 && r == flush_threads_for(cpus),
{
    let cpus = num_cpus_get();
    let quarter = cpus / 4;
    let r = if quarter >= 1 { quarter } else { 1 };
    assert(r == flush_threads_for(cpus as nat));
    r
}

/// Options for opening the blockstore.
#[derive(Debug, Clone, Copy)]
pub struct BlockstoreOptions {
    /// The access type of the blockstore. Default: `Primary`.
    pub access_type: AccessType,
    /// The recovery mode to open the blockstore under, if any. Default: none.
    pub recovery_mode: Option<BlockstoreRecoveryMode>,
    /// Whether opening fails when the desired limit of open file descriptors
    /// cannot be configured. Default: true.
    pub enforce_ulimit_nofile: bool,
    /// Compression and performance sampling of the columns.
    pub column_options: LedgerColumnOptions,
    /// Threads used for compaction; never zero.
    pub num_rocksdb_compaction_threads: usize,
    /// Threads used for memtable flushes; never zero.
    pub num_rocksdb_flush_threads: usize,
}

/// The option values that `default` gives, but for the thread counts.
pub open spec fn is_default_options(o: BlockstoreOptions) -> bool {
    &&& o.access_type == AccessType::Primary
    &&& o.recovery_mode is None
    &&& o.column_options.compression_type == BlockstoreCompressionType::NoCompression
    &&& o.column_options.rocks_perf_sample_interval == 0
    &&& o.num_rocksdb_compaction_threads >= 1
    &&& exists|cpus: nat| cpus >= 1 && o.num_rocksdb_flush_threads == flush_threads_for(cpus)
}

impl Default for BlockstoreOptions {
    /// The options that opening a blockstore uses by default.
    fn default() -> (r: Self)
        ensures
            is_default_options(r),
            r.enforce_ulimit_nofile,
    {
        BlockstoreOptions {
            access_type: AccessType::Primary,
            recovery_mode: None,
            enforce_ulimit_nofile: true,
            column_options: LedgerColumnOptions::default(),
            num_rocksdb_compaction_threads: default_num_compaction_threads(),
            num_rocksdb_flush_threads: default_num_flush_threads(),
        }
    }
}

impl BlockstoreOptions {
    /// The default options, except that the limit of open file descriptors
    /// is not enforced.
    pub fn default_for_tests() -> (r: Self)
        ensures
            is_default_options(r),
            !r.enforce_ulimit_nofile,
    {
        BlockstoreOptions { enforce_ulimit_nofile: false, ..BlockstoreOptions::default() }
    }
}

/// How the blockstore is accessed.
#[derive(Clone, Copy, Debug, PartialEq, Eq, Structural)]
pub enum AccessType {
    /// Read and write access; only one process can have it.
    Primary,
    /// Read and write access with automatic compaction disabled.
    PrimaryForMaintenance,
    /// Read access; many processes can have it, also while another one has
    /// primary access.
    Secondary,
}

/// What to do with corrupted records when the blockstore is recovered.
#[derive(Debug, Clone, Copy, PartialEq, Eq, Structural)]
pub enum BlockstoreRecoveryMode {
    TolerateCorruptedTailRecords,
    AbsoluteConsistency,
    PointInTime,
    SkipAnyCorruptedRecord,
}

/// Whether two strings hold the same characters.
pub fn str_equal(a: &str, b: &str) -> (r: bool)
    ensures
        r == (a@ == b@),
{
    let n = a.unicode_len();
    if n != b.unicode_len() {
        return false;
    }
    let mut i: usize = 0;
    while i < n
        invariant
            n == a@.len(),
            n == b@.len(),
            i <= n,
            forall|j: int| 0 <= j < i ==> a@[j] == b@[j],
        decreases n - i,
    {
        if a.get_char(i) != b.get_char(i) {
            return false;
        }
        i += 1;
    }
    assert(a@ =~= b@);
    true
}

/// The recovery mode named by `s`, if `s` names one.
pub open spec fn recovery_mode_named(s: Seq<char>) -> Option<BlockstoreRecoveryMode> {
    if s == "tolerate_corrupted_tail_records"@ {
        Some(BlockstoreRecoveryMode::TolerateCorruptedTailRecords)
    } else if s == "absolute_consistency"@ {
        Some(BlockstoreRecoveryMode::AbsoluteConsistency)
    } else if s == "point_in_time"@ {
        Some(BlockstoreRecoveryMode::PointInTime)
    } else if s == "skip_any_corrupted_record"@ {
        Some(BlockstoreRecoveryMode::SkipAnyCorruptedRecord)
    } else {
        None
    }
}

impl BlockstoreRecoveryMode {
    /// The recovery mode named by `s`: `tolerate_corrupted_tail_records`,
    /// `absolute_consistency`, `point_in_time` or
    /// `skip_any_corrupted_record`; `None` for any other name.
    pub fn from_name(s: &str) -> (r: Option<Self>)
        ensures
            r == recovery_mode_named(s@),
    {
        if str_equal(s, "tolerate_corrupted_tail_records") {
            Some(BlockstoreRecoveryMode::TolerateCorruptedTailRecords)
        } else if str_equal(s, "absolute_consistency") {
            Some(BlockstoreRecoveryMode::AbsoluteConsistency)
        } else if str_equal(s, "point_in_time") {
            Some(BlockstoreRecoveryMode::PointInTime)
        } else if str_equal(s, "skip_any_corrupted_record") {
            Some(BlockstoreRecoveryMode::SkipAnyCorruptedRecord)
        } else {
            None
        }
    }
}

/// Options of the ledger's columns. Each field can also serve as a tag to
/// group metrics by.
#[derive(Debug, Clone, Copy)]
pub struct LedgerColumnOptions {
    /// How the columns that can be compressed are compressed.
    pub compression_type: BlockstoreCompressionType,
    /// When above zero, a read/write performance sample is taken once every
    /// this many operations.
    pub rocks_perf_sample_interval: usize,
}

impl Default for LedgerColumnOptions {
    fn default() -> (r: Self)
        ensures
            r.compression_type == BlockstoreCompressionType::NoCompression,
            r.rocks_perf_sample_interval == 0,
    {
        LedgerColumnOptions { compression_type: BlockstoreCompressionType::default(), rocks_perf_sample_interval: 0 }
    }
}

/// The name of a compression type.
pub open spec fn compression_type_name(c: BlockstoreCompressionType) -> Seq<char> {
    match c {
        BlockstoreCompressionType::NoCompression => "None"@,
        BlockstoreCompressionType::Snappy => "Snappy"@,
        BlockstoreCompressionType::Lz4 => "Lz4"@,
        BlockstoreCompressionType::Zlib => "Zlib"@,
    }
}

impl LedgerColumnOptions {
    /// The name of the compression type: `None`, `Snappy`, `Lz4` or `Zlib`.
    pub fn get_compression_type_string(&self) -> (r: &'static str)
        ensures
            r@ == compression_type_name(self.compression_type),
    {
        match self.compression_type {
            BlockstoreCompressionType::NoCompression => "None",
            BlockstoreCompressionType::Snappy => "Snappy",
            BlockstoreCompressionType::Lz4 => "Lz4",
            BlockstoreCompressionType::Zlib => "Zlib",
        }
    }
}

/// How columns are compressed.
#[derive(Debug, Clone, Copy, PartialEq, Eq, Structural)]
pub enum BlockstoreCompressionType {
    NoCompression,
    Snappy,
    Lz4,
    Zlib,
}

impl Default for BlockstoreCompressionType {
    fn default() -> (r: Self)
        ensures
            r == BlockstoreCompressionType::NoCompression,
    {
        BlockstoreCompressionType::NoCompression
    }
}

} // verus!
