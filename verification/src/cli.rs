//! Validation of command-line values, and default argument values.

use vstd::prelude::*;
use crate::text::{decimal, decimal_string};

verus! {

/// Why text is not a number.
#[derive(Clone, Copy, Debug, PartialEq, Eq)]
pub enum IntErrorKind {
    /// The text is empty.
    Empty,
    /// The text holds a character that is not a digit.
    InvalidDigit,
    /// The number is too large for its type.
    PosOverflow,
    /// The number is zero where it may not be.
    Zero,
}

impl IntErrorKind {
    /// How the parse error is printed for debugging.
    pub open spec fn spec_debug(&self) -> Seq<char> {
        match self {
            IntErrorKind::Empty => "ParseIntError { kind: Empty }"@,
            IntErrorKind::InvalidDigit => "ParseIntError { kind: InvalidDigit }"@,
            IntErrorKind::PosOverflow => "ParseIntError { kind: PosOverflow }"@,
            IntErrorKind::Zero => "ParseIntError { kind: Zero }"@,
        }
    }

    /// How the parse error is printed for debugging.
    pub fn debug_string(&self) -> (r: String)
        ensures
            r@ == self.spec_debug(),
    {
        match self {
            IntErrorKind::Empty => String::from_str("ParseIntError { kind: Empty }"),
            IntErrorKind::InvalidDigit => String::from_str("ParseIntError { kind: InvalidDigit }"),
            IntErrorKind::PosOverflow => String::from_str("ParseIntError { kind: PosOverflow }"),
            IntErrorKind::Zero => String::from_str("ParseIntError { kind: Zero }"),
        }
    }
}

/// Whether `c` is an ASCII decimal digit.
pub open spec fn is_digit(c: char) -> bool {
    '0' <= c <= '9'
}

/// The value of digit `c`.
pub open spec fn digit_value(c: char) -> int {
    c as int - '0' as int
}

/// Reads the digits of `s` from index `i` on, onto `acc`, from left to
/// right; the first character that is not a digit, or the first digit that
/// takes the number past `u16::MAX`, ends the reading with an error.
pub open spec fn parse_digits(s: Seq<char>, i: int, acc: int) -> Result<u16, IntErrorKind>
    decreases s.len() - i,
{
    if i >= s.len() {
        Ok(acc as u16)
    } else if !is_digit(s[i]) {
        Err(IntErrorKind::InvalidDigit)
    } else if acc * 10 + digit_value(s[i]) > u16::MAX {
        Err(IntErrorKind::PosOverflow)
    } else {
        parse_digits(s, i + 1, acc * 10 + digit_value(s[i]))
    }
}

/// The `u16` that `s` writes in decimal, with an optional leading `+`, as
/// `str::parse::<u16>` reads it.
pub open spec fn parse_u16(s: Seq<char>) -> Result<u16, IntErrorKind> {
    if s.len() == 0 {
        Err(IntErrorKind::Empty)
    } else if s.len() == 1 && (s[0] == '+' || s[0] == '-') {
        Err(IntErrorKind::InvalidDigit)
    } else if s[0] == '+' {
        parse_digits(s, 1, 0)
    } else {
        parse_digits(s, 0, 0)
    }
}

/// Reads `s` as a decimal `u16`, with an optional leading `+`.
pub fn parse_port(s: &str) -> (r: Result<u16, IntErrorKind>)
    ensures
        r == parse_u16(s@),
{
    let n = s.unicode_len();
    if n == 0 {
        return Err(IntErrorKind::Empty);
    }
    let c0 = s.get_char(0);
    if n == 1 && (c0 == '+' || c0 == '-') {
        return Err(IntErrorKind::InvalidDigit);
    }
    let mut i: usize = if c0 == '+' { 1 } else { 0 };
    let mut acc: u32 = 0;
    while i < n
        invariant
            n == s@.len(),
            i <= n,
            acc <= u16::MAX,
            parse_digits(s@, i as int, acc as int) == parse_u16(s@),
        decreases n - i,
    {
        let c = s.get_char(i);
        if !('0' <= c && c <= '9') {
            return Err(IntErrorKind::InvalidDigit);
        }
        let d = (c as u32) - ('0' as u32);
        let next = acc * 10 + d;
        if next > 65535 {
            return Err(IntErrorKind::PosOverflow);
        }
        acc = next;
        i += 1;
    }
    Ok(acc as u16)
}

/// Accepts a port number: a decimal `u16`; otherwise the error is the
/// parse error as printed for debugging.
pub fn port_validator(port: String) -> (r: Result<(), String>)
    ensures
        match parse_u16(port@) {
            Ok(_) => r is Ok,
            Err(kind) => r matches Err(msg) && msg@ == kind.spec_debug(),
        },
{
    match parse_port(port.as_str()) {
        Ok(_) => Ok(()),
        Err(kind) => Err(kind.debug_string()),
    }
}

/// The index of the first `-` in `s` at or after `i`, or -1 if there is
/// none.
pub open spec fn dash_from(s: Seq<char>, i: int) -> int
    decreases s.len() - i,
{
    if i < 0 || i >= s.len() {
        -1
    } else if s[i] == '-' {
        i
    } else {
        dash_from(s, i + 1)
    }
}

/// The port range that `s` writes as `START-END`: exactly one `-`, two
/// ports, the first not above the second.
pub open spec fn port_range_of(s: Seq<char>) -> Option<(u16, u16)> {
    let d = dash_from(s, 0);
    if d < 0 || dash_from(s, d + 1) >= 0 {
        None
    } else {
        match (parse_u16(s.subrange(0, d)), parse_u16(s.subrange(d + 1, s.len() as int))) {
            (Ok(start), Ok(end)) => if end < start { None } else { Some((start, end)) },
            _ => None,
        }
    }
}

/// The first `-` of `s` at or after `from`, if any.
fn find_dash(s: &str, from: usize) -> (r: Option<usize>)
    requires
        from <= s@.len(),
    ensures
        match r {
            Some(d) => d as int == dash_from(s@, from as int) && from <= d < s@.len(),
            None => dash_from(s@, from as int) == -1,
        },
{
    let n = s.unicode_len();
    let mut i = from;
    while i < n
        invariant
            n == s@.len(),
            from <= i <= n,
            dash_from(s@, i as int) == dash_from(s@, from as int),
        decreases n - i,
    {
        if s.get_char(i) == '-' {
            return Some(i);
        }
        i += 1;
    }
    None
}

/// Reads a port range written `START-END`, the first port not above the
/// second.
pub fn parse_port_range(s: &str) -> (r: Option<(u16, u16)>)
    ensures
        r == port_range_of(s@),
{
    let n = s.unicode_len();
    let d = match find_dash(s, 0) {
        Some(d) => d,
        None => {
            return None;
        },
    };
    if find_dash(s, d + 1).is_some() {
        return None;
    }
    let start = parse_port(s.substring_char(0, d));
    let end = parse_port(s.substring_char(d + 1, n));
    match (start, end) {
        (Ok(a), Ok(b)) => if b < a {
            None
        } else {
            Some((a, b))
        },
        _ => None,
    }
}

/// The text of the error for a port range narrower than `min_width`.
pub open spec fn port_range_too_small(start: u16, min_width: u16) -> Seq<char> {
    "Port range is too small.  Try --dynamic-port-range "@ + decimal(start as nat) + "-"@ + decimal(
        (start + min_width) as nat,
    )
}

/// Accepts a dynamic port range written `START-END`: it must be at least
/// `min_width` wide, and its last port plus `quic_port_offset` must still
/// be a port.
pub fn port_range_validator(port_range: String, min_width: u16, quic_port_offset: u16) -> (r: Result<(), String>)
    requires
        port_range_of(port_range@) matches Some((start, end)) ==> (end - start < min_width ==> start + min_width
            <= u16::MAX),
    ensures
        match port_range_of(port_range@) {
            None => r matches Err(msg) && msg@ == "Invalid port range"@,
            Some((start, end)) => if end - start < min_width {
                r matches Err(msg) && msg@ == port_range_too_small(start, min_width)
            } else if end + quic_port_offset > u16::MAX {
                r matches Err(msg) && msg@ == "Invalid dynamic_port_range."@
            } else {
                r is Ok
            },
        },
{
    match parse_port_range(port_range.as_str()) {
        Some((start, end)) => {
            if end - start < min_width {
                let mut msg = String::from_str("Port range is too small.  Try --dynamic-port-range ");
                let a = decimal_string(start as u64);
                msg.append(a.as_str());
                msg.append("-");
                let b = decimal_string((start + min_width) as u64);
                msg.append(b.as_str());
                Err(msg)
            } else if end.checked_add(quic_port_offset).is_none() {
                Err(String::from_str("Invalid dynamic_port_range."))
            } else {
                Ok(())
            }
        },
        None => Err(String::from_str("Invalid port range")),
    }
}

/// Every character of `decimal(n)` is a digit, and there is at least one.
proof fn lemma_decimal_digits(n: nat)
    ensures
        decimal(n).len() >= 1,
        forall|j: int| 0 <= j < decimal(n).len() ==> is_digit(#[trigger] decimal(n)[j]),
    decreases n,
{
    if n >= 10 {
        lemma_decimal_digits(n / 10);
        let d = n % 10;
        assert(is_digit(crate::text::digit_char(d)));
    } else {
        assert(is_digit(crate::text::digit_char(n)));
    }
}

/// The value of the digit written for `d`.
proof fn lemma_digit_char_value(d: nat)
    requires
        d < 10,
    ensures
        is_digit(crate::text::digit_char(d)),
        digit_value(crate::text::digit_char(d)) == d,
{
}

/// Reading one more digit at the end multiplies what was read by ten and
/// adds the digit, unless that is past `u16::MAX`.
proof fn lemma_parse_digits_push(s: Seq<char>, i: int, acc: int, c: char, v: u16)
    requires
        0 <= i <= s.len(),
        0 <= acc <= u16::MAX,
        is_digit(c),
        parse_digits(s, i, acc) == Ok::<u16, IntErrorKind>(v),
    ensures
        parse_digits(s.push(c), i, acc) == (if v * 10 + digit_value(c) > u16::MAX {
            Err::<u16, IntErrorKind>(IntErrorKind::PosOverflow)
        } else {
            Ok((v * 10 + digit_value(c)) as u16)
        }),
    decreases s.len() - i,
{
    let t = s.push(c);
    if i == s.len() {
        assert(t[i] == c);
        assert(v == acc);
        if acc * 10 + digit_value(c) <= u16::MAX {
            assert(parse_digits(t, i + 1, acc * 10 + digit_value(c)) == Ok::<u16, IntErrorKind>((acc * 10 + digit_value(c)) as u16));
        }
    } else {
        assert(t[i] == s[i]);
        lemma_parse_digits_push(s, i + 1, acc * 10 + digit_value(s[i]), c, v);
    }
}

/// The decimal digits of a `u16` read back as it.
proof fn lemma_parse_decimal(n: nat)
    requires
        n <= u16::MAX,
    ensures
        parse_digits(decimal(n), 0, 0) == Ok::<u16, IntErrorKind>(n as u16),
    decreases n,
{
    if n < 10 {
        lemma_digit_char_value(n);
        let s = decimal(n);
        assert(s[0] == crate::text::digit_char(n));
        assert(parse_digits(s, 1, n as int) == Ok::<u16, IntErrorKind>(n as u16));
    } else {
        lemma_parse_decimal(n / 10);
        lemma_decimal_digits(n / 10);
        lemma_digit_char_value(n % 10);
        lemma_parse_digits_push(decimal(n / 10), 0, 0, crate::text::digit_char(n % 10), (n / 10) as u16);
    }
}

/// A port written in decimal reads back as that port.
pub proof fn law_port_text_reads_back(p: u16)
    ensures
        parse_u16(decimal(p as nat)) == Ok::<u16, IntErrorKind>(p),
{
    lemma_decimal_digits(p as nat);
    lemma_parse_decimal(p as nat);
    assert(is_digit(decimal(p as nat)[0]));
}

/// No `-` at or after `i` up to `k`, and one at `k`: the first one from `i`
/// is at `k`; with none up to the end, there is none.
proof fn lemma_dash_from(s: Seq<char>, i: int, k: int)
    requires
        0 <= i <= k <= s.len(),
        forall|j: int| i <= j < k ==> s[j] != '-',
    ensures
        k < s.len() && s[k] == '-' ==> dash_from(s, i) == k,
        k == s.len() ==> dash_from(s, i) == -1,
    decreases k - i,
{
    if i < k {
        lemma_dash_from(s, i + 1, k);
    }
}

/// A port range written as its two ports in decimal, with a hyphen between,
/// reads back as that range.
pub proof fn law_port_range_text_reads_back(start: u16, end: u16)
    requires
        start <= end,
    ensures
        port_range_of(decimal(start as nat) + "-"@ + decimal(end as nat)) == Some((start, end)),
{
    let a = decimal(start as nat);
    let b = decimal(end as nat);
    reveal_strlit("-");
    let dash: Seq<char> = "-"@;
    let s = a + dash + b;
    lemma_decimal_digits(start as nat);
    lemma_decimal_digits(end as nat);
    let d = a.len() as int;
    assert(s[d] == '-');
    assert forall|j: int| 0 <= j < d implies s[j] != '-' by {
        assert(s[j] == a[j]);
        assert(is_digit(a[j]));
    }
    lemma_dash_from(s, 0, d);
    assert forall|j: int| d + 1 <= j < s.len() implies s[j] != '-' by {
        assert(s[j] == b[j - d - 1]);
        assert(is_digit(b[j - d - 1]));
    }
    lemma_dash_from(s, d + 1, s.len() as int);
    assert(s.subrange(0, d) =~= a);
    assert(s.subrange(d + 1, s.len() as int) =~= b);
    law_port_text_reads_back(start);
    law_port_text_reads_back(end);
}

/// `name` with each `_` written `-`, as an argument's long name.
pub open spec fn dashed(name: Seq<char>) -> Seq<char> {
    Seq::new(name.len(), |i: int| if name[i] == '_' { '-' } else { name[i] })
}

/// The warning for a deprecated argument `name` that was given: that it is
/// deprecated, the argument to use instead if there is one, and the usage
/// warning if there is one, the whole ending with a period.
pub open spec fn deprecation_text(name: Seq<char>, replaced_by: Option<Seq<char>>, usage_warning: Option<Seq<char>>) -> Seq<char> {
    let base = "--"@ + dashed(name) + " is deprecated"@ + match replaced_by {
        Some(r) => ", please use --"@ + r,
        None => Seq::empty(),
    } + "."@;
    match usage_warning {
        Some(u) => {
            let m = base + "  "@ + u;
            if m.last() == '.' { m } else { m + "."@ }
        },
        None => base,
    }
}

/// The warning shown for a deprecated argument `name` that was given (see
/// [`deprecation_text`]).
pub fn deprecation_warning(name: &str, replaced_by: Option<&str>, usage_warning: Option<&str>) -> (r: String)
    ensures
        r@ == deprecation_text(name@, match replaced_by { Some(x) => Some(x@), None => None }, match usage_warning {
            Some(x) => Some(x@),
            None => None,
        }),
{
    let mut msg = String::from_str("--");
    let n = name.unicode_len();
    let mut i: usize = 0;
    while i < n
        invariant
            n == name@.len(),
            i <= n,
            msg@ == "--"@ + dashed(name@).take(i as int),
        decreases n - i,
    {
        let c = name.get_char(i);
        let ghost before = msg@;
        if c == '_' {
            msg.append("-");
            proof {
                reveal_strlit("-");
            }
        } else {
            let one = name.substring_char(i, i + 1);
            msg.append(one);
        }
        proof {
            assert(dashed(name@).take(i + 1) =~= dashed(name@).take(i as int).push(dashed(name@)[i as int]));
            assert(msg@ =~= "--"@ + dashed(name@).take(i + 1));
        }
        i += 1;
    }
    proof {
        assert(dashed(name@).take(n as int) =~= dashed(name@));
    }
    msg.append(" is deprecated");
    match replaced_by {
        Some(r) => {
            msg.append(", please use --");
            msg.append(r);
        },
        None => {},
    }
    msg.append(".");
    match usage_warning {
        Some(u) => {
            msg.append("  ");
            msg.append(u);
            proof {
                reveal_strlit("  ");
            }
            let len = msg.as_str().unicode_len();
            let last = msg.as_str().get_char(len - 1);
            if last != '.' {
                msg.append(".");
            }
        },
        None => {},
    }
    msg
}

/// An argument that is no longer used but still accepted: its name, the
/// argument that replaces it if any, and a warning on its use if any.
#[derive(Clone, Copy, Debug, PartialEq, Eq)]
pub struct DeprecatedArg {
    pub name: &'static str,
    pub replaced_by: Option<&'static str>,
    pub usage_warning: Option<&'static str>,
}

/// The deprecated arguments, in alphabetical order of their names.
pub open spec fn deprecated_table() -> Seq<(Seq<char>, Option<Seq<char>>, Option<Seq<char>>)> {
    seq![
        ("accounts_db_skip_shrink"@, None, Some("Enabled by default"@)),
        ("accounts_hash_interval_slots"@, None, None),
        ("accounts_index_memory_limit_mb"@, None, Some("index memory limit has been deprecated. The limit arg has no effect now."@)),
        ("accountsdb_repl_bind_address"@, None, None),
        ("accountsdb_repl_port"@, None, None),
        ("accountsdb_repl_threads"@, None, None),
        ("disable_accounts_disk_index"@, None, None),
        ("disable_quic_servers"@, None, Some("The quic server cannot be disabled."@)),
        ("enable_accountsdb_repl"@, None, None),
        ("enable_cpi_and_log_storage"@, Some("enable-extended-tx-metadata-storage"@), None),
        ("enable_quic_servers"@, None, Some("The quic server is now enabled by default."@)),
        ("minimal_rpc_api"@, None, None),
        ("no_check_vote_account"@, None, Some("Vote account sanity checks are no longer performed by default."@)),
        ("no_rocksdb_compaction"@, None, None),
        ("replay_slots_concurrently"@, Some("replay_forks_threads"@), Some("Equivalent behavior to this flag would be --replay-forks-threads 4"@)),
        ("rocksdb_compaction_interval"@, None, None),
        ("rocksdb_fifo_shred_storage_size"@, None, None),
        ("rocksdb_max_compaction_jitter"@, None, None),
        ("rpc_pubsub_max_connections"@, None, None),
        ("rpc_pubsub_max_fragment_size"@, None, None),
        ("rpc_pubsub_max_in_buffer_capacity"@, None, None),
        ("rpc_pubsub_max_out_buffer_capacity"@, None, None),
        ("skip_poh_verify"@, Some("skip-startup-ledger-verification"@), None)
    ]
}

/// Whether `a` holds the entry `t` of the table.
pub open spec fn holds_entry(a: DeprecatedArg, t: (Seq<char>, Option<Seq<char>>, Option<Seq<char>>)) -> bool {
    &&& a.name@ == t.0
    &&& match a.replaced_by { Some(x) => t.1 == Some(x@), None => t.1 is None }
    &&& match a.usage_warning { Some(x) => t.2 == Some(x@), None => t.2 is None }
}

/// The deprecated arguments (see [`deprecated_table`]).
pub fn deprecated_arguments() -> (r: Vec<DeprecatedArg>)
    ensures
        r@.len() == deprecated_table().len(),
        forall|i: int| 0 <= i < r@.len() ==> holds_entry(#[trigger] r@[i], deprecated_table()[i]),
{
    let mut table: Vec<DeprecatedArg> = Vec::new();
    table.push(DeprecatedArg { name: "accounts_db_skip_shrink", replaced_by: None, usage_warning: Some("Enabled by default") });
    table.push(DeprecatedArg { name: "accounts_hash_interval_slots", replaced_by: None, usage_warning: None });
    table.push(DeprecatedArg { name: "accounts_index_memory_limit_mb", replaced_by: None, usage_warning: Some("index memory limit has been deprecated. The limit arg has no effect now.") });
    table.push(DeprecatedArg { name: "accountsdb_repl_bind_address", replaced_by: None, usage_warning: None });
    table.push(DeprecatedArg { name: "accountsdb_repl_port", replaced_by: None, usage_warning: None });
    table.push(DeprecatedArg { name: "accountsdb_repl_threads", replaced_by: None, usage_warning: None });
    table.push(DeprecatedArg { name: "disable_accounts_disk_index", replaced_by: None, usage_warning: None });
    table.push(DeprecatedArg { name: "disable_quic_servers", replaced_by: None, usage_warning: Some("The quic server cannot be disabled.") });
    table.push(DeprecatedArg { name: "enable_accountsdb_repl", replaced_by: None, usage_warning: None });
    table.push(DeprecatedArg { name: "enable_cpi_and_log_storage", replaced_by: Some("enable-extended-tx-metadata-storage"), usage_warning: None });
    table.push(DeprecatedArg { name: "enable_quic_servers", replaced_by: None, usage_warning: Some("The quic server is now enabled by default.") });
    table.push(DeprecatedArg { name: "minimal_rpc_api", replaced_by: None, usage_warning: None });
    table.push(DeprecatedArg { name: "no_check_vote_account", replaced_by: None, usage_warning: Some("Vote account sanity checks are no longer performed by default.") });
    table.push(DeprecatedArg { name: "no_rocksdb_compaction", replaced_by: None, usage_warning: None });
    table.push(DeprecatedArg { name: "replay_slots_concurrently", replaced_by: Some("replay_forks_threads"), usage_warning: Some("Equivalent behavior to this flag would be --replay-forks-threads 4") });
    table.push(DeprecatedArg { name: "rocksdb_compaction_interval", replaced_by: None, usage_warning: None });
    table.push(DeprecatedArg { name: "rocksdb_fifo_shred_storage_size", replaced_by: None, usage_warning: None });
    table.push(DeprecatedArg { name: "rocksdb_max_compaction_jitter", replaced_by: None, usage_warning: None });
    table.push(DeprecatedArg { name: "rpc_pubsub_max_connections", replaced_by: None, usage_warning: None });
    table.push(DeprecatedArg { name: "rpc_pubsub_max_fragment_size", replaced_by: None, usage_warning: None });
    table.push(DeprecatedArg { name: "rpc_pubsub_max_in_buffer_capacity", replaced_by: None, usage_warning: None });
    table.push(DeprecatedArg { name: "rpc_pubsub_max_out_buffer_capacity", replaced_by: None, usage_warning: None });
    table.push(DeprecatedArg { name: "skip_poh_verify", replaced_by: Some("skip-startup-ledger-verification"), usage_warning: None });
    assert forall|i: int| 0 <= i < table@.len() implies holds_entry(#[trigger] table@[i], deprecated_table()[i]) by {}
    table
}

/// Default argument values of the test validator.
pub struct DefaultTestArgs {
    pub rpc_port: String,
    pub faucet_port: String,
    pub limit_ledger_size: String,
    pub faucet_sol: String,
    pub faucet_time_slice_secs: String,
}

/// The default RPC port.
pub const DEFAULT_RPC_PORT: u16 = 8899;

/// The default faucet port.
pub const FAUCET_PORT: u16 = 9900;

/// The faucet's time slice, in seconds.
pub const FAUCET_TIME_SLICE: u64 = 60;

impl DefaultTestArgs {
    /// The defaults: RPC port 8899, faucet port 9900, a ledger limit of
    /// 10,000 shreds (empirically, a rocksdb directory of 40MB to 150MB), a
    /// million SOL in the faucet and a 60 second faucet time slice.
    pub fn new() -> (r: Self)
        ensures
            r.rpc_port@ == decimal(DEFAULT_RPC_PORT as nat),
            r.faucet_port@ == decimal(FAUCET_PORT as nat),
            r.limit_ledger_size@ == decimal(10_000),
            r.faucet_sol@ == decimal(1_000_000),
            r.faucet_time_slice_secs@ == decimal(FAUCET_TIME_SLICE as nat),
    {
        DefaultTestArgs {
            rpc_port: decimal_string(DEFAULT_RPC_PORT as u64),
            faucet_port: decimal_string(FAUCET_PORT as u64),
            limit_ledger_size: decimal_string(10_000),
            faucet_sol: decimal_string(1_000_000),
            faucet_time_slice_secs: decimal_string(FAUCET_TIME_SLICE),
        }
    }
}

impl Default for DefaultTestArgs {
    fn default() -> (r: Self)
        ensures
            r.rpc_port@ == decimal(DEFAULT_RPC_PORT as nat),
            r.faucet_port@ == decimal(FAUCET_PORT as nat),
            r.limit_ledger_size@ == decimal(10_000),
            r.faucet_sol@ == decimal(1_000_000),
            r.faucet_time_slice_secs@ == decimal(FAUCET_TIME_SLICE as nat),
    {
        Self::new()
    }
}

} // verus!
