use agave::dashboard::{dashboard_step, DashboardAction, DashboardEvent, DashboardState};
use agave::response::RpcSnapshotSlotInfo;
use agave::dashboard::{startup_action, StartupAction, StartupReply};
use agave::dashboard::{find_contact_info, refreshes_snapshot, slot_or_dash_text, status_message, uptime_text, NodeHealth, ValidatorStats};
use agave::response::RpcContactInfo;
use agave::socket::{IpAddr, SocketAddr};

fn contact(pubkey: &str, shred_version: Option<u16>) -> RpcContactInfo {
    RpcContactInfo {
        pubkey: pubkey.to_string(),
        gossip: Some(SocketAddr { ip: IpAddr::V4([10, 0, 0, 1]), port: 8001 }),
        tvu: None,
        tpu: None,
        tpu_quic: None,
        tpu_forwards: None,
        tpu_forwards_quic: None,
        tpu_vote: None,
        serve_repair: None,
        rpc: None,
        pubsub: None,
        version: Some("2.1.0".to_string()),
        feature_set: None,
        shred_version,
    }
}

#[test]
fn health_is_written_as_the_node_reports_it() {
    assert_eq!(NodeHealth::Healthy.text(), "ok");
    assert_eq!(NodeHealth::Behind(42).text(), "42 slots behind");
    assert_eq!(NodeHealth::Behind(0).text(), "0 slots behind");
    assert_eq!(NodeHealth::Unknown.text(), "health unknown");
}

#[test]
fn uptime_has_two_digit_fields() {
    assert_eq!(uptime_text(0), "00:00:00 ");
    assert_eq!(uptime_text(3723), "01:02:03 ");
    assert_eq!(uptime_text(59), "00:00:59 ");
    assert_eq!(uptime_text(36_000), "10:00:00 ");
    assert_eq!(uptime_text(360_059), "100:00:59 ");
}

#[test]
fn missing_snapshot_slot_is_a_dash() {
    assert_eq!(slot_or_dash_text(None), "-");
    assert_eq!(slot_or_dash_text(Some(1234)), "1234");
}

#[test]
fn status_line_of_a_healthy_node() {
    let stats = ValidatorStats {
        processed_slot: 105,
        confirmed_slot: 103,
        finalized_slot: 72,
        transaction_count: 9000,
        identity_balance: "◎1.5".to_string(),
        health: NodeHealth::Healthy,
    };
    assert_eq!(
        status_message(3661, &stats, "ok", Some(64), None),
        "01:01:01 | Processed Slot: 105 | Confirmed Slot: 103 | Finalized Slot: 72 | \
         Full Snapshot Slot: 64 | Incremental Snapshot Slot: - | Transactions: 9000 | ◎1.5"
    );
}

#[test]
fn status_line_of_a_lagging_node_shows_its_health() {
    let stats = ValidatorStats {
        processed_slot: 5,
        confirmed_slot: 4,
        finalized_slot: 3,
        transaction_count: 2,
        identity_balance: "◎0".to_string(),
        health: NodeHealth::Behind(7),
    };
    assert_eq!(
        status_message(5, &stats, "7 slots behind", Some(1), Some(2)),
        "00:00:05 | 7 slots behind | Processed Slot: 5 | Confirmed Slot: 4 | Finalized Slot: 3 | \
         Full Snapshot Slot: 1 | Incremental Snapshot Slot: 2 | Transactions: 2 | ◎0"
    );
}

#[test]
fn snapshot_slots_are_fetched_every_tenth_refresh() {
    assert!(refreshes_snapshot(0));
    assert!(!refreshes_snapshot(1));
    assert!(!refreshes_snapshot(9));
    assert!(refreshes_snapshot(10));
    assert!(refreshes_snapshot(30));
}

#[test]
fn contact_info_is_found_by_identity() {
    let nodes = vec![contact("A1", Some(1)), contact("B2", Some(2)), contact("B2", Some(3))];
    assert_eq!(find_contact_info(&nodes, &"B2".to_string()), Some(contact("B2", Some(2))));
    assert_eq!(find_contact_info(&nodes, &"A1".to_string()).map(|c| c.shred_version), Some(Some(1)));
    assert_eq!(find_contact_info(&nodes, &"C3".to_string()), None);
    assert_eq!(find_contact_info(&Vec::new(), &"A1".to_string()), None);
}

#[test]
fn startup_wait_messages() {
    match startup_action(StartupReply::ConnectFailed("refused".to_string())) {
        StartupAction::Wait { message, keep_connection } => {
            assert_eq!(message, "Unable to connect to validator: refused");
            assert!(!keep_connection);
        },
        StartupAction::Done(..) => panic!("not started"),
    }
    match startup_action(StartupReply::Starting("DownloadingSnapshot".to_string())) {
        StartupAction::Wait { message, keep_connection } => {
            assert_eq!(message, "Validator startup: DownloadingSnapshot...");
            assert!(keep_connection);
        },
        StartupAction::Done(..) => panic!("not started"),
    }
    match startup_action(StartupReply::RpcUnavailable) {
        StartupAction::Wait { message, keep_connection } => {
            assert_eq!(message, "RPC service not available");
            assert!(!keep_connection);
        },
        StartupAction::Done(..) => panic!("not started"),
    }
    let addr = SocketAddr { ip: IpAddr::V4([127, 0, 0, 1]), port: 8899 };
    match startup_action(StartupReply::Started(addr, 1_700_000_000)) {
        StartupAction::Done(a, t) => {
            assert_eq!(a, addr);
            assert_eq!(t, 1_700_000_000);
        },
        StartupAction::Wait { .. } => panic!("started"),
    }
}

fn sample_stats() -> ValidatorStats {
    ValidatorStats {
        processed_slot: 12,
        confirmed_slot: 11,
        finalized_slot: 10,
        transaction_count: 99,
        identity_balance: "◎1.5".to_string(),
        health: NodeHealth::Healthy,
    }
}

#[test]
fn dashboard_steps_through_a_session() {
    let (s, a) = dashboard_step(DashboardState::Connecting, DashboardEvent::Startup(false));
    assert!(matches!(s, DashboardState::Connecting) && matches!(a, DashboardAction::WaitForStartup));
    let (s, a) = dashboard_step(s, DashboardEvent::Startup(true));
    assert!(matches!(s, DashboardState::Identifying) && matches!(a, DashboardAction::AskIdentity));
    let (s2, a) = dashboard_step(DashboardState::Identifying, DashboardEvent::Identity(Err("timed out".to_string())));
    assert!(matches!(s2, DashboardState::Connecting));
    match a {
        DashboardAction::Report(line) => assert_eq!(line, "Failed to get validator identity over RPC: timed out"),
        _ => panic!("a report"),
    }
    let (s, a) = dashboard_step(s, DashboardEvent::Identity(Ok("Node1".to_string())));
    assert!(matches!(a, DashboardAction::ShowNode));
    // The first refresh takes the snapshot slots.
    let snap = Some(RpcSnapshotSlotInfo { full: 8, incremental: Some(9) });
    let (s, a) = dashboard_step(
        s,
        DashboardEvent::Refresh { identity: None, snapshot: snap, stats: Ok(sample_stats()), uptime_secs: 61, shown_health: "ok".to_string() },
    );
    match a {
        DashboardAction::Refreshed { new_identity, status } => {
            assert_eq!(new_identity, None);
            assert_eq!(status, status_message(61, &sample_stats(), "ok", Some(8), Some(9)));
        },
        _ => panic!("a refresh"),
    }
    // The second one does not look at the slots fetched, and sees a new identity.
    let (s, a) = dashboard_step(
        s,
        DashboardEvent::Refresh {
            identity: Some("Node2".to_string()),
            snapshot: None,
            stats: Ok(sample_stats()),
            uptime_secs: 62,
            shown_health: "ok".to_string(),
        },
    );
    match a {
        DashboardAction::Refreshed { new_identity, status } => {
            assert_eq!(new_identity, Some("Node2".to_string()));
            assert_eq!(status, status_message(62, &sample_stats(), "ok", Some(8), Some(9)));
        },
        _ => panic!("a refresh"),
    }
    match &s {
        DashboardState::Watching { identity, refresh, .. } => {
            assert_eq!(identity, "Node2");
            assert_eq!(*refresh, 2);
        },
        _ => panic!("watching"),
    }
    let (s3, a) = dashboard_step(
        s,
        DashboardEvent::Refresh { identity: None, snapshot: None, stats: Err("connection refused".to_string()), uptime_secs: 63, shown_health: "ok".to_string() },
    );
    assert!(matches!(s3, DashboardState::Connecting));
    match a {
        DashboardAction::Lost { new_identity, message } => {
            assert_eq!(new_identity, None);
            assert_eq!(message, "RPC connection failure: connection refused");
        },
        _ => panic!("lost"),
    }
    let (s, a) = dashboard_step(s3, DashboardEvent::Exit);
    assert!(matches!(s, DashboardState::Stopped) && matches!(a, DashboardAction::Stop));
}
