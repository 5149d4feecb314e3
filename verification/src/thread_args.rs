//! The arguments that set how many threads the validator gives to each of
//! its tasks, and how their values are read.

use vstd::prelude::*;
use crate::cli::{is_digit, digit_value, IntErrorKind};
use crate::text::{decimal, decimal_string};

verus! {

/// The default values of the thread arguments, as the command line shows
/// them.
pub struct DefaultThreadArgs {
    pub accounts_db_clean_threads: String,
    pub accounts_db_foreground_threads: String,
    pub accounts_db_hash_threads: String,
    pub accounts_index_flush_threads: String,
    pub ip_echo_server_threads: String,
    pub rayon_global_threads: String,
    pub replay_forks_threads: String,
    pub replay_transactions_threads: String,
    pub rocksdb_compaction_threads: String,
    pub rocksdb_flush_threads: String,
    pub tvu_receive_threads: String,
    pub tvu_sigverify_threads: String,
}

/// The number of threads for each task; none is zero.
#[derive(Clone, Copy, Debug, PartialEq, Eq)]
pub struct NumThreadConfig {
    pub accounts_db_clean_threads: usize,
    pub accounts_db_foreground_threads: usize,
    pub accounts_db_hash_threads: usize,
    pub accounts_index_flush_threads: usize,
    pub ip_echo_server_threads: usize,
    pub rayon_global_threads: usize,
    pub replay_forks_threads: usize,
    pub replay_transactions_threads: usize,
    pub rocksdb_compaction_threads: usize,
    pub rocksdb_flush_threads: usize,
    pub tvu_receive_threads: usize,
    pub tvu_sigverify_threads: usize,
}

/// The values given for the thread arguments, as text.
pub struct ThreadArgValues {
    pub accounts_db_clean_threads: String,
    pub accounts_db_foreground_threads: String,
    pub accounts_db_hash_threads: String,
    pub accounts_index_flush_threads: String,
    pub ip_echo_server_threads: String,
    pub rayon_global_threads: String,
    pub replay_forks_threads: String,
    pub replay_transactions_threads: String,
    pub rocksdb_compaction_threads: String,
    pub rocksdb_flush_threads: String,
    pub tvu_receive_threads: String,
    pub tvu_sigverify_threads: String,
}

/// The thread arguments.
#[derive(Clone, Copy, Debug, PartialEq, Eq)]
pub enum ThreadArg {
    AccountsDbCleanThreads,
    AccountsDbForegroundThreads,
    AccountsDbHashThreads,
    AccountsIndexFlushThreads,
    IpEchoServerThreads,
    RayonGlobalThreads,
    ReplayForksThreads,
    ReplayTransactionsThreads,
    RocksdbCompactionThreads,
    RocksdbFlushThreads,
    TvuReceiveThreads,
    TvuShredSigverifyThreads,
}

impl ThreadArg {
    /// The argument's name.
    pub open spec fn spec_name(&self) -> Seq<char> {
        match self {
            ThreadArg::AccountsDbCleanThreads => "accounts_db_clean_threads"@,
            ThreadArg::AccountsDbForegroundThreads => "accounts_db_foreground_threads"@,
            ThreadArg::AccountsDbHashThreads => "accounts_db_hash_threads"@,
            ThreadArg::AccountsIndexFlushThreads => "accounts_index_flush_threads"@,
            ThreadArg::IpEchoServerThreads => "ip_echo_server_threads"@,
            ThreadArg::RayonGlobalThreads => "rayon_global_threads"@,
            ThreadArg::ReplayForksThreads => "replay_forks_threads"@,
            ThreadArg::ReplayTransactionsThreads => "replay_transactions_threads"@,
            ThreadArg::RocksdbCompactionThreads => "rocksdb_compaction_threads"@,
            ThreadArg::RocksdbFlushThreads => "rocksdb_flush_threads"@,
            ThreadArg::TvuReceiveThreads => "tvu_receive_threads"@,
            ThreadArg::TvuShredSigverifyThreads => "tvu_shred_sigverify_threads"@,
        }
    }

    /// The argument's name.
    pub fn name(&self) -> (r: &'static str)
        ensures
            r@ == self.spec_name(),
    {
        match self {
            ThreadArg::AccountsDbCleanThreads => "accounts_db_clean_threads",
            ThreadArg::AccountsDbForegroundThreads => "accounts_db_foreground_threads",
            ThreadArg::AccountsDbHashThreads => "accounts_db_hash_threads",
            ThreadArg::AccountsIndexFlushThreads => "accounts_index_flush_threads",
            ThreadArg::IpEchoServerThreads => "ip_echo_server_threads",
            ThreadArg::RayonGlobalThreads => "rayon_global_threads",
            ThreadArg::ReplayForksThreads => "replay_forks_threads",
            ThreadArg::ReplayTransactionsThreads => "replay_transactions_threads",
            ThreadArg::RocksdbCompactionThreads => "rocksdb_compaction_threads",
            ThreadArg::RocksdbFlushThreads => "rocksdb_flush_threads",
            ThreadArg::TvuReceiveThreads => "tvu_receive_threads",
            ThreadArg::TvuShredSigverifyThreads => "tvu_shred_sigverify_threads",
        }
    }

    /// The argument's long name on the command line.
    pub open spec fn spec_long_name(&self) -> Seq<char> {
        match self {
            ThreadArg::AccountsDbCleanThreads => "accounts-db-clean-threads"@,
            ThreadArg::AccountsDbForegroundThreads => "accounts-db-foreground-threads"@,
            ThreadArg::AccountsDbHashThreads => "accounts-db-hash-threads"@,
            ThreadArg::AccountsIndexFlushThreads => "accounts-index-flush-threads"@,
            ThreadArg::IpEchoServerThreads => "ip-echo-server-threads"@,
            ThreadArg::RayonGlobalThreads => "rayon-global-threads"@,
            ThreadArg::ReplayForksThreads => "replay-forks-threads"@,
            ThreadArg::ReplayTransactionsThreads => "replay-transactions-threads"@,
            ThreadArg::RocksdbCompactionThreads => "rocksdb-compaction-threads"@,
            ThreadArg::RocksdbFlushThreads => "rocksdb-flush-threads"@,
            ThreadArg::TvuReceiveThreads => "tvu-receive-threads"@,
            ThreadArg::TvuShredSigverifyThreads => "tvu-shred-sigverify-threads"@,
        }
    }

    /// The argument's long name on the command line.
    pub fn long_name(&self) -> (r: &'static str)
        ensures
            r@ == self.spec_long_name(),
    {
        match self {
            ThreadArg::AccountsDbCleanThreads => "accounts-db-clean-threads",
            ThreadArg::AccountsDbForegroundThreads => "accounts-db-foreground-threads",
            ThreadArg::AccountsDbHashThreads => "accounts-db-hash-threads",
            ThreadArg::AccountsIndexFlushThreads => "accounts-index-flush-threads",
            ThreadArg::IpEchoServerThreads => "ip-echo-server-threads",
            ThreadArg::RayonGlobalThreads => "rayon-global-threads",
            ThreadArg::ReplayForksThreads => "replay-forks-threads",
            ThreadArg::ReplayTransactionsThreads => "replay-transactions-threads",
            ThreadArg::RocksdbCompactionThreads => "rocksdb-compaction-threads",
            ThreadArg::RocksdbFlushThreads => "rocksdb-flush-threads",
            ThreadArg::TvuReceiveThreads => "tvu-receive-threads",
            ThreadArg::TvuShredSigverifyThreads => "tvu-shred-sigverify-threads",
        }
    }

    /// The argument's help text.
    pub open spec fn spec_help(&self) -> Seq<char> {
        match self {
            ThreadArg::AccountsDbCleanThreads => "Number of threads to use for cleaning AccountsDb"@,
            ThreadArg::AccountsDbForegroundThreads => "Number of threads to use for AccountsDb block processing"@,
            ThreadArg::AccountsDbHashThreads => "Number of threads to use for background accounts hashing"@,
            ThreadArg::AccountsIndexFlushThreads => "Number of threads to use for flushing the accounts index"@,
            ThreadArg::IpEchoServerThreads => "Number of threads to use for the IP echo server"@,
            ThreadArg::RayonGlobalThreads => "Number of threads to use for the global rayon thread pool"@,
            ThreadArg::ReplayForksThreads => "Number of threads to use for replay of blocks on different forks"@,
            ThreadArg::ReplayTransactionsThreads => "Number of threads to use for transaction replay"@,
            ThreadArg::RocksdbCompactionThreads => "Number of threads to use for rocksdb (Blockstore) compactions"@,
            ThreadArg::RocksdbFlushThreads => "Number of threads to use for rocksdb (Blockstore) memtable flushes"@,
            ThreadArg::TvuReceiveThreads => "Number of threads (and sockets) to use for receiving shreds on the TVU port"@,
            ThreadArg::TvuShredSigverifyThreads => "Number of threads to use for performing signature verification of received shreds"@,
        }
    }

    /// The argument's help text.
    pub fn help(&self) -> (r: &'static str)
        ensures
            r@ == self.spec_help(),
    {
        match self {
            ThreadArg::AccountsDbCleanThreads => "Number of threads to use for cleaning AccountsDb",
            ThreadArg::AccountsDbForegroundThreads => "Number of threads to use for AccountsDb block processing",
            ThreadArg::AccountsDbHashThreads => "Number of threads to use for background accounts hashing",
            ThreadArg::AccountsIndexFlushThreads => "Number of threads to use for flushing the accounts index",
            ThreadArg::IpEchoServerThreads => "Number of threads to use for the IP echo server",
            ThreadArg::RayonGlobalThreads => "Number of threads to use for the global rayon thread pool",
            ThreadArg::ReplayForksThreads => "Number of threads to use for replay of blocks on different forks",
            ThreadArg::ReplayTransactionsThreads => "Number of threads to use for transaction replay",
            ThreadArg::RocksdbCompactionThreads => "Number of threads to use for rocksdb (Blockstore) compactions",
            ThreadArg::RocksdbFlushThreads => "Number of threads to use for rocksdb (Blockstore) memtable flushes",
            ThreadArg::TvuReceiveThreads => "Number of threads (and sockets) to use for receiving shreds on the TVU port",
            ThreadArg::TvuShredSigverifyThreads => "Number of threads to use for performing signature verification of received shreds",
        }
    }
}

/// The default number of threads of an argument, bounded by its maximum.
pub fn bounded_default(default: usize, max: usize) -> (r: usize)
    ensures
        r == (if default <= max { default } else { max }),
{
    if default <= max { default } else { max }
}

/// The default thread counts that come from the crates the validator is
/// built with: each argument's own default, and the most threads an
/// argument may have by default.
#[derive(Clone, Copy, Debug)]
pub struct ThreadCountDefaults {
    pub accounts_db_clean_threads: usize,
    pub accounts_db_foreground_threads: usize,
    pub accounts_db_hash_threads: usize,
    pub accounts_index_flush_threads: usize,
    pub ip_echo_server_threads: usize,
    pub rocksdb_compaction_threads: usize,
    pub rocksdb_flush_threads: usize,
    pub tvu_receive_threads: usize,
    pub tvu_sigverify_threads: usize,
    pub max_thread_count: usize,
}

/// The smaller of `a` and `b`.
pub open spec fn min_count(a: usize, b: usize) -> nat {
    if a <= b { a as nat } else { b as nat }
}

/// The most threads that forks are replayed with by default.
pub const MAX_REPLAY_FORKS_THREADS: usize = 4;

impl DefaultThreadArgs {
    /// Whether these are the defaults for the thread counts `d`: each
    /// argument's default bounded by its maximum, in decimal. The maximum is
    /// `d.max_thread_count` but for the replay of forks, which is single
    /// threaded by default and has at most four; the global rayon pool and
    /// transaction replay default to the maximum.
    pub open spec fn defaults_of(&self, d: ThreadCountDefaults) -> bool {
        &&& self.accounts_db_clean_threads@ == decimal(min_count(d.accounts_db_clean_threads, d.max_thread_count))
        &&& self.accounts_db_foreground_threads@ == decimal(min_count(d.accounts_db_foreground_threads, d.max_thread_count))
        &&& self.accounts_db_hash_threads@ == decimal(min_count(d.accounts_db_hash_threads, d.max_thread_count))
        &&& self.accounts_index_flush_threads@ == decimal(min_count(d.accounts_index_flush_threads, d.max_thread_count))
        &&& self.ip_echo_server_threads@ == decimal(min_count(d.ip_echo_server_threads, d.max_thread_count))
        &&& self.rayon_global_threads@ == decimal(d.max_thread_count as nat)
        &&& self.replay_forks_threads@ == decimal(1)
        &&& self.replay_transactions_threads@ == decimal(d.max_thread_count as nat)
        &&& self.rocksdb_compaction_threads@ == decimal(min_count(d.rocksdb_compaction_threads, d.max_thread_count))
        &&& self.rocksdb_flush_threads@ == decimal(min_count(d.rocksdb_flush_threads, d.max_thread_count))
        &&& self.tvu_receive_threads@ == decimal(min_count(d.tvu_receive_threads, d.max_thread_count))
        &&& self.tvu_sigverify_threads@ == decimal(min_count(d.tvu_sigverify_threads, d.max_thread_count))
    }

    /// The default of each thread argument for the thread counts `d` (see
    /// [`DefaultThreadArgs::defaults_of`]).
    pub fn new(d: &ThreadCountDefaults) -> (r: Self)
        ensures
            r.defaults_of(*d),
    {
        let max = d.max_thread_count;
        DefaultThreadArgs {
            accounts_db_clean_threads: decimal_string(bounded_default(d.accounts_db_clean_threads, max) as u64),
            accounts_db_foreground_threads: decimal_string(bounded_default(d.accounts_db_foreground_threads, max) as u64),
            accounts_db_hash_threads: decimal_string(bounded_default(d.accounts_db_hash_threads, max) as u64),
            accounts_index_flush_threads: decimal_string(bounded_default(d.accounts_index_flush_threads, max) as u64),
            ip_echo_server_threads: decimal_string(bounded_default(d.ip_echo_server_threads, max) as u64),
            rayon_global_threads: decimal_string(bounded_default(max, max) as u64),
            replay_forks_threads: decimal_string(bounded_default(1, MAX_REPLAY_FORKS_THREADS) as u64),
            replay_transactions_threads: decimal_string(bounded_default(max, max) as u64),
            rocksdb_compaction_threads: decimal_string(bounded_default(d.rocksdb_compaction_threads, max) as u64),
            rocksdb_flush_threads: decimal_string(bounded_default(d.rocksdb_flush_threads, max) as u64),
            tvu_receive_threads: decimal_string(bounded_default(d.tvu_receive_threads, max) as u64),
            tvu_sigverify_threads: decimal_string(bounded_default(d.tvu_sigverify_threads, max) as u64),
        }
    }
}

/// How many threads are used to replay forks when slots are replayed
/// concurrently.
pub const CONCURRENT_REPLAY_FORKS_THREADS: usize = 4;

/// Reads the digits of `s` from index `i` on, onto `acc`, as a `usize`.
pub open spec fn count_digits(s: Seq<char>, i: int, acc: int) -> Result<int, IntErrorKind>
    decreases s.len() - i,
{
    if i >= s.len() {
        Ok(acc)
    } else if !is_digit(s[i]) {
        Err(IntErrorKind::InvalidDigit)
    } else if acc * 10 + digit_value(s[i]) > usize::MAX {
        Err(IntErrorKind::PosOverflow)
    } else {
        count_digits(s, i + 1, acc * 10 + digit_value(s[i]))
    }
}

/// The nonzero `usize` that `s` writes in decimal, with an optional
/// leading `+`, as `str::parse::<NonZeroUsize>` reads it.
pub open spec fn parse_thread_count(s: Seq<char>) -> Result<usize, IntErrorKind> {
    let n = if s.len() == 0 {
        Err(IntErrorKind::Empty)
    } else if s.len() == 1 && (s[0] == '+' || s[0] == '-') {
        Err(IntErrorKind::InvalidDigit)
    } else if s[0] == '+' {
        count_digits(s, 1, 0)
    } else {
        count_digits(s, 0, 0)
    };
    nonzero_count(n)
}

/// A number read, refused when zero.
pub open spec fn nonzero_count(n: Result<int, IntErrorKind>) -> Result<usize, IntErrorKind> {
    match n {
        Ok(v) => if v == 0 { Err(IntErrorKind::Zero) } else { Ok(v as usize) },
        Err(e) => Err(e),
    }
}

/// Reads a number of threads: a nonzero decimal `usize`.
pub fn read_thread_count(s: &str) -> (r: Result<usize, IntErrorKind>)
    ensures
        r == parse_thread_count(s@),
{
    let n = s.unicode_len();
    if n == 0 {
        return Err(IntErrorKind::Empty);
    }
    let c0 = s.get_char(0);
    if n == 1 && (c0 == '+' || c0 == '-') {
        return Err(IntErrorKind::InvalidDigit);
    }
    let start: usize = if c0 == '+' { 1 } else { 0 };
    let mut i: usize = start;
    let mut acc: u128 = 0;
    while i < n
        invariant
            n == s@.len(),
            i <= n,
            acc <= usize::MAX,
            parse_thread_count(s@) == nonzero_count(count_digits(s@, start as int, 0)),
            count_digits(s@, i as int, acc as int) == count_digits(s@, start as int, 0),
        decreases n - i,
    {
        let c = s.get_char(i);
        if !('0' <= c && c <= '9') {
            return Err(IntErrorKind::InvalidDigit);
        }
        let d = (c as u128) - ('0' as u128);
        let next = acc * 10 + d;
        if next > usize::MAX as u128 {
            return Err(IntErrorKind::PosOverflow);
        }
        acc = next;
        i += 1;
    }
    if acc == 0 {
        Err(IntErrorKind::Zero)
    } else {
        Ok(acc as usize)
    }
}

/// A thread argument whose value is not a nonzero number.
#[derive(Clone, Copy, Debug, PartialEq, Eq)]
pub struct ThreadArgError {
    pub arg: ThreadArg,
    pub kind: IntErrorKind,
}

/// The number of threads that `s` gives for `arg`, or why it gives none.
fn read_arg(arg: ThreadArg, s: &String) -> (r: Result<usize, ThreadArgError>)
    ensures
        match parse_thread_count(s@) {
            Ok(v) => r == Ok::<usize, ThreadArgError>(v),
            Err(kind) => r == Err::<usize, ThreadArgError>(ThreadArgError { arg, kind }),
        },
{
    match read_thread_count(s.as_str()) {
        Ok(v) => Ok(v),
        Err(kind) => Err(ThreadArgError { arg, kind }),
    }
}

/// Whether every value is a number of threads, except the one for the
/// replay of forks when slots are replayed concurrently.
pub open spec fn all_counts_read(v: ThreadArgValues, replay_slots_concurrently: bool) -> bool {
    &&& parse_thread_count(v.accounts_db_clean_threads@) is Ok
    &&& parse_thread_count(v.accounts_db_foreground_threads@) is Ok
    &&& parse_thread_count(v.accounts_db_hash_threads@) is Ok
    &&& parse_thread_count(v.accounts_index_flush_threads@) is Ok
    &&& parse_thread_count(v.ip_echo_server_threads@) is Ok
    &&& parse_thread_count(v.rayon_global_threads@) is Ok
    &&& (replay_slots_concurrently || parse_thread_count(v.replay_forks_threads@) is Ok)
    &&& parse_thread_count(v.replay_transactions_threads@) is Ok
    &&& parse_thread_count(v.rocksdb_compaction_threads@) is Ok
    &&& parse_thread_count(v.rocksdb_flush_threads@) is Ok
    &&& parse_thread_count(v.tvu_receive_threads@) is Ok
    &&& parse_thread_count(v.tvu_sigverify_threads@) is Ok
}

/// The numbers of threads that the values give; the replay of forks gets
/// four threads when slots are replayed concurrently, whatever its value.
pub open spec fn thread_config_of(v: ThreadArgValues, replay_slots_concurrently: bool) -> NumThreadConfig {
    NumThreadConfig {
        accounts_db_clean_threads: parse_thread_count(v.accounts_db_clean_threads@)->Ok_0,
        accounts_db_foreground_threads: parse_thread_count(v.accounts_db_foreground_threads@)->Ok_0,
        accounts_db_hash_threads: parse_thread_count(v.accounts_db_hash_threads@)->Ok_0,
        accounts_index_flush_threads: parse_thread_count(v.accounts_index_flush_threads@)->Ok_0,
        ip_echo_server_threads: parse_thread_count(v.ip_echo_server_threads@)->Ok_0,
        rayon_global_threads: parse_thread_count(v.rayon_global_threads@)->Ok_0,
        replay_forks_threads: if replay_slots_concurrently {
            CONCURRENT_REPLAY_FORKS_THREADS
        } else {
            parse_thread_count(v.replay_forks_threads@)->Ok_0
        },
        replay_transactions_threads: parse_thread_count(v.replay_transactions_threads@)->Ok_0,
        rocksdb_compaction_threads: parse_thread_count(v.rocksdb_compaction_threads@)->Ok_0,
        rocksdb_flush_threads: parse_thread_count(v.rocksdb_flush_threads@)->Ok_0,
        tvu_receive_threads: parse_thread_count(v.tvu_receive_threads@)->Ok_0,
        tvu_sigverify_threads: parse_thread_count(v.tvu_sigverify_threads@)->Ok_0,
    }
}

/// Reads the numbers of threads from the values given; the replay of forks
/// gets four threads when slots are replayed concurrently. Fails on the
/// first value, in argument order, that is not a nonzero number.
pub fn parse_num_threads_args(values: &ThreadArgValues, replay_slots_concurrently: bool) -> (r: Result<NumThreadConfig, ThreadArgError>)
    ensures
        all_counts_read(*values, replay_slots_concurrently) <==> r is Ok,
        r matches Ok(c) ==> c == thread_config_of(*values, replay_slots_concurrently),
        r matches Err(e) ==> parse_thread_count(
            match e.arg {
                ThreadArg::AccountsDbCleanThreads => values.accounts_db_clean_threads@,
                ThreadArg::AccountsDbForegroundThreads => values.accounts_db_foreground_threads@,
                ThreadArg::AccountsDbHashThreads => values.accounts_db_hash_threads@,
                ThreadArg::AccountsIndexFlushThreads => values.accounts_index_flush_threads@,
                ThreadArg::IpEchoServerThreads => values.ip_echo_server_threads@,
                ThreadArg::RayonGlobalThreads => values.rayon_global_threads@,
                ThreadArg::ReplayForksThreads => values.replay_forks_threads@,
                ThreadArg::ReplayTransactionsThreads => values.replay_transactions_threads@,
                ThreadArg::RocksdbCompactionThreads => values.rocksdb_compaction_threads@,
                ThreadArg::RocksdbFlushThreads => values.rocksdb_flush_threads@,
                ThreadArg::TvuReceiveThreads => values.tvu_receive_threads@,
                ThreadArg::TvuShredSigverifyThreads => values.tvu_sigverify_threads@,
            },
        ) == Err::<usize, IntErrorKind>(e.kind),
{
    let accounts_db_clean_threads = match read_arg(ThreadArg::AccountsDbCleanThreads, &values.accounts_db_clean_threads) {
        Ok(v) => v,
        Err(e) => return Err(e),
    };
    let accounts_db_foreground_threads = match read_arg(ThreadArg::AccountsDbForegroundThreads, &values.accounts_db_foreground_threads) {
        Ok(v) => v,
        Err(e) => return Err(e),
    };
    let accounts_db_hash_threads = match read_arg(ThreadArg::AccountsDbHashThreads, &values.accounts_db_hash_threads) {
        Ok(v) => v,
        Err(e) => return Err(e),
    };
    let accounts_index_flush_threads = match read_arg(ThreadArg::AccountsIndexFlushThreads, &values.accounts_index_flush_threads) {
        Ok(v) => v,
        Err(e) => return Err(e),
    };
    let ip_echo_server_threads = match read_arg(ThreadArg::IpEchoServerThreads, &values.ip_echo_server_threads) {
        Ok(v) => v,
        Err(e) => return Err(e),
    };
    let rayon_global_threads = match read_arg(ThreadArg::RayonGlobalThreads, &values.rayon_global_threads) {
        Ok(v) => v,
        Err(e) => return Err(e),
    };
    let replay_forks_threads = if replay_slots_concurrently {
        CONCURRENT_REPLAY_FORKS_THREADS
    } else {
        match read_arg(ThreadArg::ReplayForksThreads, &values.replay_forks_threads) {
            Ok(v) => v,
            Err(e) => return Err(e),
        }
    };
    let replay_transactions_threads = match read_arg(ThreadArg::ReplayTransactionsThreads, &values.replay_transactions_threads) {
        Ok(v) => v,
        Err(e) => return Err(e),
    };
    let rocksdb_compaction_threads = match read_arg(ThreadArg::RocksdbCompactionThreads, &values.rocksdb_compaction_threads) {
        Ok(v) => v,
        Err(e) => return Err(e),
    };
    let rocksdb_flush_threads = match read_arg(ThreadArg::RocksdbFlushThreads, &values.rocksdb_flush_threads) {
        Ok(v) => v,
        Err(e) => return Err(e),
    };
    let tvu_receive_threads = match read_arg(ThreadArg::TvuReceiveThreads, &values.tvu_receive_threads) {
        Ok(v) => v,
        Err(e) => return Err(e),
    };
    let tvu_sigverify_threads = match read_arg(ThreadArg::TvuShredSigverifyThreads, &values.tvu_sigverify_threads) {
        Ok(v) => v,
        Err(e) => return Err(e),
    };
    Ok(NumThreadConfig {
        accounts_db_clean_threads,
        accounts_db_foreground_threads,
        accounts_db_hash_threads,
        accounts_index_flush_threads,
        ip_echo_server_threads,
        rayon_global_threads,
        replay_forks_threads,
        replay_transactions_threads,
        rocksdb_compaction_threads,
        rocksdb_flush_threads,
        tvu_receive_threads,
        tvu_sigverify_threads,
    })
}

} // verus!
