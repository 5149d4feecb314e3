//! What the validator dashboard shows: the node's health, how long it has
//! been up, and the one-line status it refreshes.

use vstd::prelude::*;
use crate::response::{RpcContactInfo, RpcSnapshotSlotInfo};
use crate::socket::SocketAddr;
use crate::text::{decimal, decimal_string};

verus! {

/// What the node answered to a health check.
#[derive(Clone, Copy, Debug, PartialEq, Eq)]
pub enum NodeHealth {
    /// Healthy.
    Healthy,
    /// Unhealthy, this many slots behind.
    Behind(u64),
    /// Unhealthy, or no answer that says how far behind.
    Unknown,
}

impl NodeHealth {
    /// How the health is written.
    pub open spec fn spec_text(&self) -> Seq<char> {
        match self {
            NodeHealth::Healthy => "ok"@,
            NodeHealth::Behind(n) => decimal(*n as nat) + " slots behind"@,
            NodeHealth::Unknown => "health unknown"@,
        }
    }

    /// How the health is written: `ok`, `N slots behind` or
    /// `health unknown`.
    pub fn text(&self) -> (r: String)
        ensures
            r@ == self.spec_text(),
    {
        match self {
            NodeHealth::Healthy => String::from_str("ok"),
            NodeHealth::Behind(n) => {
                let mut s = decimal_string(*n);
                s.append(" slots behind");
                s
            },
            NodeHealth::Unknown => String::from_str("health unknown"),
        }
    }
}

/// `n` in decimal, with a leading zero below ten.
pub open spec fn two_digits(n: nat) -> Seq<char> {
    if n < 10 {
        seq!['0'] + decimal(n)
    } else {
        decimal(n)
    }
}

/// `n` in decimal, with a leading zero below ten.
fn two_digits_string(n: u64) -> (r: String)
    ensures
        r@ == two_digits(n as nat),
{
    if n < 10 {
        let mut s = String::from_str("0");
        let d = decimal_string(n);
        s.append(d.as_str());
        proof {
            reveal_strlit("0");
        }
        s
    } else {
        decimal_string(n)
    }
}

/// How an uptime of `secs` seconds is written: hours, minutes and seconds,
/// each with at least two digits, then a space.
pub open spec fn uptime(secs: nat) -> Seq<char> {
    two_digits(secs / 3600) + ":"@ + two_digits((secs / 60) % 60) + ":"@ + two_digits(secs % 60) + " "@
}

/// How an uptime of `secs` seconds is written, as `HH:MM:SS `.
pub fn uptime_text(secs: u64) -> (r: String)
    ensures
        r@ == uptime(secs as nat),
{
    let mut s = two_digits_string(secs / 3600);
    s.append(":");
    let m = two_digits_string((secs / 60) % 60);
    s.append(m.as_str());
    s.append(":");
    let c = two_digits_string(secs % 60);
    s.append(c.as_str());
    s.append(" ");
    s
}

/// How an optional slot is written: the number, or `-`.
pub open spec fn slot_or_dash(slot: Option<u64>) -> Seq<char> {
    match slot {
        Some(n) => decimal(n as nat),
        None => "-"@,
    }
}

/// How an optional slot is written: the number, or `-`.
pub fn slot_or_dash_text(slot: Option<u64>) -> (r: String)
    ensures
        r@ == slot_or_dash(slot),
{
    match slot {
        Some(n) => decimal_string(n),
        None => String::from_str("-"),
    }
}

/// What the dashboard learns from the node at each refresh.
#[derive(Clone, Debug, PartialEq, Eq)]
pub struct ValidatorStats {
    pub processed_slot: u64,
    pub confirmed_slot: u64,
    pub finalized_slot: u64,
    pub transaction_count: u64,
    /// The balance of the identity account, as it is shown.
    pub identity_balance: String,
    pub health: NodeHealth,
}

/// The status line: the uptime, the health when it is not `ok` (as
/// `shown_health` writes it), the slots, the snapshot slots, the
/// transaction count and the balance.
pub open spec fn status_line(
    uptime_secs: nat,
    stats: ValidatorStats,
    shown_health: Seq<char>,
    full_snapshot: Option<u64>,
    incremental_snapshot: Option<u64>,
) -> Seq<char> {
    uptime(uptime_secs)
        + (if stats.health is Healthy { Seq::<char>::empty() } else { "| "@ + shown_health + " "@ })
        + "| Processed Slot: "@ + decimal(stats.processed_slot as nat)
        + " | Confirmed Slot: "@ + decimal(stats.confirmed_slot as nat)
        + " | Finalized Slot: "@ + decimal(stats.finalized_slot as nat)
        + " | Full Snapshot Slot: "@ + slot_or_dash(full_snapshot)
        + " | Incremental Snapshot Slot: "@ + slot_or_dash(incremental_snapshot)
        + " | Transactions: "@ + decimal(stats.transaction_count as nat)
        + " | "@ + stats.identity_balance@
}

/// The status line the dashboard shows after each refresh; `shown_health`
/// is the health text as it is to be shown (a terminal may style it).
pub fn status_message(
    uptime_secs: u64,
    stats: &ValidatorStats,
    shown_health: &str,
    full_snapshot: Option<u64>,
    incremental_snapshot: Option<u64>,
) -> (r: String)
    ensures
        r@ == status_line(uptime_secs as nat, *stats, shown_health@, full_snapshot, incremental_snapshot),
{
    let mut s = uptime_text(uptime_secs);
    match stats.health {
        NodeHealth::Healthy => {},
        _ => {
            s.append("| ");
            s.append(shown_health);
            s.append(" ");
        },
    }
    s.append("| Processed Slot: ");
    let a = decimal_string(stats.processed_slot);
    s.append(a.as_str());
    s.append(" | Confirmed Slot: ");
    let b = decimal_string(stats.confirmed_slot);
    s.append(b.as_str());
    s.append(" | Finalized Slot: ");
    let c = decimal_string(stats.finalized_slot);
    s.append(c.as_str());
    s.append(" | Full Snapshot Slot: ");
    let d = slot_or_dash_text(full_snapshot);
    s.append(d.as_str());
    s.append(" | Incremental Snapshot Slot: ");
    let e = slot_or_dash_text(incremental_snapshot);
    s.append(e.as_str());
    s.append(" | Transactions: ");
    let f = decimal_string(stats.transaction_count);
    s.append(f.as_str());
    s.append(" | ");
    s.append(stats.identity_balance.as_str());
    s
}

/// The snapshot slots are fetched again on every tenth refresh, the first
/// one included.
pub fn refreshes_snapshot(refresh: u64) -> (r: bool)
    ensures
        r == (refresh % 10 == 0),
{
    refresh % 10 == 0
}

/// The contact information of the node whose key, in base 58, is
/// `identity`: the first such entry of `nodes`.
pub fn find_contact_info(nodes: &Vec<RpcContactInfo>, identity: &String) -> (r: Option<RpcContactInfo>)
    ensures
        match r {
            Some(c) => exists|i: int| {
                &&& 0 <= i < nodes@.len()
                &&& nodes@[i] == c
                &&& c.pubkey@ == identity@
                &&& forall|j: int| 0 <= j < i ==> (#[trigger] nodes@[j]).pubkey@ != identity@
            },
            None => forall|j: int| 0 <= j < nodes@.len() ==> (#[trigger] nodes@[j]).pubkey@ != identity@,
        },
{
    let mut i: usize = 0;
    while i < nodes.len()
        invariant
            i <= nodes@.len(),
            forall|j: int| 0 <= j < i ==> (#[trigger] nodes@[j]).pubkey@ != identity@,
        decreases nodes@.len() - i,
    {
        if nodes[i].pubkey == *identity {
            let c = nodes[i].duplicate();
            return Some(c);
        }
        i += 1;
    }
    None
}

/// What the dashboard heard, in one round, while it waits for the validator
/// to start.
pub enum StartupReply {
    /// Connecting to the node's admin service failed, with this error.
    ConnectFailed(String),
    /// Asking for the start progress failed, with this error.
    ProgressFailed(String),
    /// The node is still starting; the progress, as text.
    Starting(String),
    /// The node runs, but offers no RPC service.
    RpcUnavailable,
    /// The node runs, but asking for its RPC address or start time failed,
    /// with this error.
    InfoFailed(String),
    /// The node runs: its RPC address and its start time, in seconds.
    Started(SocketAddr, u64),
}

/// What the dashboard does next while it waits for the validator to start.
pub enum StartupAction {
    /// Show `message`, wait a refresh interval, and ask again, over the
    /// admin connection when `keep_connection` holds, else over a new one.
    Wait { message: String, keep_connection: bool },
    /// Stop waiting: the node runs and serves RPC at this address; it started
    /// at this time.
    Done(SocketAddr, u64),
}

/// What the dashboard does on `reply` while it waits for the validator to
/// start: on failure it shows the error and connects anew; while the node
/// starts it shows the progress over the same connection; once the node
/// runs, the connection has been used up, and the dashboard is done if the
/// node gave its RPC address.
pub open spec fn startup_action_of(reply: StartupReply) -> (Seq<char>, bool, Option<(SocketAddr, u64)>) {
    match reply {
        StartupReply::ConnectFailed(e) => ("Unable to connect to validator: "@ + e@, false, None),
        StartupReply::ProgressFailed(e) => ("Failed to get validator start progress: "@ + e@, false, None),
        StartupReply::Starting(p) => ("Validator startup: "@ + p@ + "..."@, true, None),
        StartupReply::RpcUnavailable => ("RPC service not available"@, false, None),
        StartupReply::InfoFailed(e) => ("Failed to get validator info: "@ + e@, false, None),
        StartupReply::Started(addr, t) => (Seq::empty(), false, Some((addr, t))),
    }
}

/// What the dashboard does next on `reply` (see [`startup_action_of`]).
pub fn startup_action(reply: StartupReply) -> (r: StartupAction)
    ensures
        match r {
            StartupAction::Wait { message, keep_connection } => {
                &&& startup_action_of(reply).2 is None
                &&& message@ == startup_action_of(reply).0
                &&& keep_connection == startup_action_of(reply).1
            },
            StartupAction::Done(addr, t) => startup_action_of(reply).2 == Some((addr, t)),
        },
{
    match reply {
        StartupReply::ConnectFailed(e) => {
            let mut m = String::from_str("Unable to connect to validator: ");
            m.append(e.as_str());
            StartupAction::Wait { message: m, keep_connection: false }
        },
        StartupReply::ProgressFailed(e) => {
            let mut m = String::from_str("Failed to get validator start progress: ");
            m.append(e.as_str());
            StartupAction::Wait { message: m, keep_connection: false }
        },
        StartupReply::Starting(p) => {
            let mut m = String::from_str("Validator startup: ");
            m.append(p.as_str());
            m.append("...");
            StartupAction::Wait { message: m, keep_connection: true }
        },
        StartupReply::RpcUnavailable => {
            StartupAction::Wait { message: String::from_str("RPC service not available"), keep_connection: false }
        },
        StartupReply::InfoFailed(e) => {
            let mut m = String::from_str("Failed to get validator info: ");
            m.append(e.as_str());
            StartupAction::Wait { message: m, keep_connection: false }
        },
        StartupReply::Started(addr, t) => StartupAction::Done(addr, t),
    }
}

/// Where the dashboard stands.
pub enum DashboardState {
    /// Waiting for the validator to start and serve RPC.
    Connecting,
    /// Connected over RPC; the validator's identity is asked for.
    Identifying,
    /// Watching the validator known by `identity` (its key in base 58):
    /// `refresh` counts refreshes modulo ten (from zero to nine), and `snapshot` holds the
    /// snapshot slots last fetched.
    Watching { identity: String, refresh: u8, snapshot: Option<RpcSnapshotSlotInfo> },
    /// The node exits; the dashboard has stopped.
    Stopped,
}

/// What the dashboard heard.
pub enum DashboardEvent {
    /// The node is exiting.
    Exit,
    /// The wait for the validator to start ended: with its RPC service
    /// (`true`), or given up (`false`).
    Startup(bool),
    /// The validator's identity, or the error asking for it.
    Identity(Result<String, String>),
    /// One refresh: the identity as asked again (`None` when that failed),
    /// the snapshot slots (fetched on every tenth refresh, the first one
    /// included, and looked at only then), the validator's statistics or
    /// the error getting them, the uptime in seconds, and the health text as
    /// it is to be shown.
    Refresh {
        identity: Option<String>,
        snapshot: Option<RpcSnapshotSlotInfo>,
        stats: Result<ValidatorStats, String>,
        uptime_secs: u64,
        shown_health: String,
    },
}

/// What the dashboard does next.
pub enum DashboardAction {
    /// Stop.
    Stop,
    /// Show "Connecting..." and wait for the validator to start.
    WaitForStartup,
    /// Ask the validator for its identity over RPC.
    AskIdentity,
    /// Print this line, then wait for the validator to start again.
    Report(String),
    /// Print the node's identity and details, then start refreshing.
    ShowNode,
    /// Print the new identity, if it changed, and show the status line;
    /// then wait a refresh interval.
    Refreshed { new_identity: Option<String>, status: String },
    /// Print the new identity, if it changed, leave the progress line with
    /// this message, and wait for the validator to start again.
    Lost { new_identity: Option<String>, message: String },
    /// Nothing: the event does not fit where the dashboard stands.
    Ignore,
}

/// Whether `r` is the step of the dashboard from `s` on `e`: the node
/// exiting stops it; the validator started is asked for its identity; a
/// failure to get the identity is reported and the dashboard waits for
/// the validator again; with the identity, the node is shown and watched;
/// each refresh takes the identity as asked again (keeping the old one
/// when that failed) and, on every tenth refresh, the snapshot slots, and
/// shows the status line, or, when the statistics could not be had, leaves
/// the line with the error and waits for the validator again.
pub open spec fn dashboard_step_spec(s: DashboardState, e: DashboardEvent, r: (DashboardState, DashboardAction)) -> bool {
    match (s, e) {
        (DashboardState::Stopped, _) => r.0 is Stopped && r.1 is Stop,
        (_, DashboardEvent::Exit) => r.0 is Stopped && r.1 is Stop,
        (DashboardState::Connecting, DashboardEvent::Startup(true)) => r.0 is Identifying && r.1 is AskIdentity,
        (DashboardState::Connecting, DashboardEvent::Startup(false)) => r.0 is Connecting && r.1 is WaitForStartup,
        (DashboardState::Identifying, DashboardEvent::Identity(Ok(id))) => {
            &&& r.0 matches DashboardState::Watching { identity, refresh, snapshot } && identity@ == id@ && refresh == 0
                && snapshot is None
            &&& r.1 is ShowNode
        },
        (DashboardState::Identifying, DashboardEvent::Identity(Err(err))) => {
            &&& r.0 is Connecting
            &&& r.1 matches DashboardAction::Report(line) && line@ == "Failed to get validator identity over RPC: "@ + err@
        },
        (
            DashboardState::Watching { identity, refresh, snapshot },
            DashboardEvent::Refresh { identity: asked, snapshot: fetched, stats, uptime_secs, shown_health },
        ) => {
            let id = match asked { Some(a) => a@, None => identity@ };
            let snap = if refresh == 0 { fetched } else { snapshot };
            let changed = if id != identity@ { Some(id) } else { None };
            let new_identity_ok = |n: Option<String>| match n {
                Some(x) => changed == Some(x@),
                None => changed is None,
            };
            match stats {
                Ok(st) => {
                    &&& r.0 matches DashboardState::Watching { identity: i2, refresh: f2, snapshot: s2 } && i2@ == id
                        && f2 == (if refresh >= 9 { 0 } else { refresh + 1 }) && s2 == snap
                    &&& r.1 matches DashboardAction::Refreshed { new_identity, status } && new_identity_ok(new_identity)
                        && status@ == status_line(
                        uptime_secs as nat,
                        st,
                        shown_health@,
                        match snap { Some(x) => Some(x.full), None => None },
                        match snap { Some(x) => x.incremental, None => None },
                    )
                },
                Err(err) => {
                    &&& r.0 is Connecting
                    &&& r.1 matches DashboardAction::Lost { new_identity, message } && new_identity_ok(new_identity)
                        && message@ == "RPC connection failure: "@ + err@
                },
            }
        },
        _ => r.1 is Ignore && r.0 == s,
    }
}

/// One step of the dashboard (see [`dashboard_step_spec`]); the caller
/// performs the action and brings back what came of it.
pub fn dashboard_step(state: DashboardState, event: DashboardEvent) -> (r: (DashboardState, DashboardAction))
    ensures
        dashboard_step_spec(state, event, r),
{
    match state {
        DashboardState::Stopped => (DashboardState::Stopped, DashboardAction::Stop),
        _ => match event {
            DashboardEvent::Exit => (DashboardState::Stopped, DashboardAction::Stop),
            DashboardEvent::Startup(started) => match state {
                DashboardState::Connecting => if started {
                    (DashboardState::Identifying, DashboardAction::AskIdentity)
                } else {
                    (DashboardState::Connecting, DashboardAction::WaitForStartup)
                },
                other => (other, DashboardAction::Ignore),
            },
            DashboardEvent::Identity(reply) => match state {
                DashboardState::Identifying => match reply {
                    Ok(id) => (DashboardState::Watching { identity: id, refresh: 0, snapshot: None }, DashboardAction::ShowNode),
                    Err(err) => {
                        let mut line = String::from_str("Failed to get validator identity over RPC: ");
                        line.append(err.as_str());
                        (DashboardState::Connecting, DashboardAction::Report(line))
                    },
                },
                other => (other, DashboardAction::Ignore),
            },
            DashboardEvent::Refresh { identity: asked, snapshot: fetched, stats, uptime_secs, shown_health } => match state {
                DashboardState::Watching { identity, refresh, snapshot } => {
                    let snap = if refresh == 0 { fetched } else { snapshot };
                    let id = match asked {
                        Some(a) => a,
                        None => identity.clone(),
                    };
                    let new_identity = if id != identity { Some(id.clone()) } else { None };
                    match stats {
                        Ok(st) => {
                            let full = match snap { Some(x) => Some(x.full), None => None };
                            let incremental = match snap { Some(x) => x.incremental, None => None };
                            let status = status_message(uptime_secs, &st, shown_health.as_str(), full, incremental);
                            (
                                DashboardState::Watching { identity: id, refresh: if refresh >= 9 { 0 } else { refresh + 1 }, snapshot: snap },
                                DashboardAction::Refreshed { new_identity, status },
                            )
                        },
                        Err(err) => {
                            let mut message = String::from_str("RPC connection failure: ");
                            message.append(err.as_str());
                            (DashboardState::Connecting, DashboardAction::Lost { new_identity, message })
                        },
                    }
                },
                other => (other, DashboardAction::Ignore),
            },
        },
    }
}

} // verus!
