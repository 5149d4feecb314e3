use agave::epoch_info::EpochInfo;
use agave::response::RpcSnapshotSlotInfo;
use agave::restart_window::{RestartCheck, RestartWindow, WaitReason};

fn epoch_at(absolute_slot: u64) -> EpochInfo {
    EpochInfo {
        epoch: 3,
        slot_index: absolute_slot % 1000,
        slots_in_epoch: 1000,
        absolute_slot,
        block_height: absolute_slot,
        transaction_count: None,
    }
}

#[test]
fn started_idle_windows_are_dropped_from_the_front() {
    let mut w = RestartWindow::new();
    w.leader_schedule = vec![3120, 3200];
    w.upcoming_idle_windows = vec![(3010, 50), (3130, 60), (3300, 700)];
    let snapshot = Some(RpcSnapshotSlotInfo { full: 3000, incremental: None });
    let r = w.check(true, &epoch_at(3100), 40, false, snapshot, false, false);
    // Only the window that has started goes; the next one is reported.
    assert_eq!(w.upcoming_idle_windows, vec![(3130, 60), (3300, 700)]);
    assert_eq!(r, RestartCheck::Wait(WaitReason::NextIdleWindow { in_slots: 30, length: 60 }));
    assert_eq!(w.leader_schedule, vec![3120, 3200]);
}

#[test]
fn restart_in_a_hole_after_a_new_snapshot() {
    let mut w = RestartWindow::new();
    w.leader_schedule = vec![3500];
    let r = w.check(true, &epoch_at(3100), 40, false, Some(RpcSnapshotSlotInfo { full: 3000, incremental: None }), false, false);
    assert_eq!(r, RestartCheck::Wait(WaitReason::WaitingForNewSnapshot));
    let r = w.check(true, &epoch_at(3101), 40, false, Some(RpcSnapshotSlotInfo { full: 3100, incremental: None }), false, false);
    assert_eq!(r, RestartCheck::Restart);
    let r = w.check(false, &epoch_at(3102), 40, false, None, false, false);
    assert_eq!(r, RestartCheck::Wait(WaitReason::Unhealthy));
}
