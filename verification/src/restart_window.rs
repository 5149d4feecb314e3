//! Deciding when a validator can be restarted: in an idle window of its
//! leader schedule long enough for the restart, once a new snapshot is
//! available and the cluster is not too delinquent.
//!
//! The caller polls the node and the cluster; this module keeps the leader
//! schedule and the idle windows, and says whether to restart or why not.

use vstd::prelude::*;
use crate::epoch_info::EpochInfo;
use crate::response::RpcSnapshotSlotInfo;
use crate::text::{decimal, decimal_string};

verus! {

/// `a + b`, or `u64::MAX` when that overflows.
pub open spec fn sat_add(a: u64, b: u64) -> u64 {
    if a + b > u64::MAX { u64::MAX } else { (a + b) as u64 }
}

/// `a - b`, or zero when that underflows.
pub open spec fn sat_sub(a: u64, b: u64) -> u64 {
    if a < b { 0 } else { (a - b) as u64 }
}

/// The leader slots of an epoch starting at `first_slot`, given as slot
/// indices within the epoch, that come after `absolute_slot`.
pub open spec fn leader_slots_after(first_slot: u64, indices: Seq<usize>, absolute_slot: u64) -> Seq<u64>
    decreases indices.len(),
{
    if indices.len() == 0 {
        Seq::empty()
    } else {
        let rest = leader_slots_after(first_slot, indices.drop_last(), absolute_slot);
        let slot = sat_add(first_slot, indices.last() as u64);
        if slot > absolute_slot { rest.push(slot) } else { rest }
    }
}

/// The idle windows longer than `min_idle_slots` between consecutive
/// leader slots, starting from `start`: (first slot, length in slots).
pub open spec fn idle_windows_spec(s: Seq<u64>, start: u64, min_idle_slots: u64) -> Seq<(u64, u64)>
    decreases s.len(),
{
    if s.len() == 0 {
        Seq::empty()
    } else {
        let w = (s[0] - start) as u64;
        let rest = idle_windows_spec(s.drop_first(), s[0], min_idle_slots);
        if w > min_idle_slots { seq![(start, w)] + rest } else { rest }
    }
}

/// The longest idle window between consecutive leader slots, starting from
/// `start`.
pub open spec fn max_idle_window_spec(s: Seq<u64>, start: u64) -> u64
    decreases s.len(),
{
    if s.len() == 0 {
        0
    } else {
        let w = (s[0] - start) as u64;
        let rest = max_idle_window_spec(s.drop_first(), s[0]);
        if w > rest { w } else { rest }
    }
}

/// The leader slots do not go back, and none precedes `start`.
pub open spec fn ascending_from(s: Seq<u64>, start: u64) -> bool {
    &&& forall|i: int| 0 <= i < s.len() ==> start <= #[trigger] s[i]
    &&& forall|i: int, j: int| 0 <= i <= j < s.len() ==> s[i] <= s[j]
}

/// Why the validator should not restart yet.
#[derive(Clone, Copy, Debug, PartialEq, Eq)]
pub enum WaitReason {
    /// The node reports that it is unhealthy.
    Unhealthy,
    /// Too few slots are left in the epoch for an idle window.
    EpochAlmostComplete,
    /// The next idle window starts in this many slots and lasts this many.
    NextIdleWindow { in_slots: u64, length: u64 },
    /// The validator leads soon, at this slot, and no idle window follows.
    LeaderSoon { next_leader_slot: u64 },
    /// No snapshot newer than the one seen at the start has been made.
    WaitingForNewSnapshot,
    /// Too much stake is delinquent.
    DelinquencyTooHigh,
    /// A new full snapshot exists, but not yet its incremental snapshot.
    WaitingForIncrementalSnapshot,
}

impl WaitReason {
    /// The text shown for the reason.
    pub open spec fn spec_message(&self) -> Seq<char> {
        match self {
            WaitReason::Unhealthy => "Node is unhealthy"@,
            WaitReason::EpochAlmostComplete => "Current epoch is almost complete"@,
            WaitReason::NextIdleWindow { in_slots, length } => "Next idle window in "@ + decimal(*in_slots as nat)
                + " slots, for "@ + decimal(*length as nat) + " slots"@,
            WaitReason::LeaderSoon { next_leader_slot } => "Validator will be leader soon. Next leader slot is "@
                + decimal(*next_leader_slot as nat),
            WaitReason::WaitingForNewSnapshot => "Waiting for a new snapshot"@,
            WaitReason::DelinquencyTooHigh => "Delinquency too high"@,
            WaitReason::WaitingForIncrementalSnapshot => "Waiting for incremental snapshot"@,
        }
    }

    /// The text shown for the reason.
    pub fn message(&self) -> (r: String)
        ensures
            r@ == self.spec_message(),
    {
        match self {
            WaitReason::Unhealthy => String::from_str("Node is unhealthy"),
            WaitReason::EpochAlmostComplete => String::from_str("Current epoch is almost complete"),
            WaitReason::NextIdleWindow { in_slots, length } => {
                let mut s = String::from_str("Next idle window in ");
                let a = decimal_string(*in_slots);
                s.append(a.as_str());
                s.append(" slots, for ");
                let b = decimal_string(*length);
                s.append(b.as_str());
                s.append(" slots");
                s
            },
            WaitReason::LeaderSoon { next_leader_slot } => {
                let mut s = String::from_str("Validator will be leader soon. Next leader slot is ");
                let a = decimal_string(*next_leader_slot);
                s.append(a.as_str());
                s
            },
            WaitReason::WaitingForNewSnapshot => String::from_str("Waiting for a new snapshot"),
            WaitReason::DelinquencyTooHigh => String::from_str("Delinquency too high"),
            WaitReason::WaitingForIncrementalSnapshot => String::from_str("Waiting for incremental snapshot"),
        }
    }
}

/// Whether to restart now.
#[derive(Clone, Copy, Debug, PartialEq, Eq)]
pub enum RestartCheck {
    Restart,
    Wait(WaitReason),
}

/// The validator leads in the epoch but never idles long enough.
#[derive(Clone, Copy, Debug, PartialEq, Eq)]
pub struct NoIdleWindow {
    pub min_idle_slots: u64,
    pub epoch: u64,
    pub max_idle_window: u64,
}

impl NoIdleWindow {
    /// The text of the error.
    pub open spec fn spec_message(&self) -> Seq<char> {
        "Validator has no idle window of at least "@ + decimal(self.min_idle_slots as nat)
            + " slots. Largest idle window for epoch "@ + decimal(self.epoch as nat) + " is "@ + decimal(
            self.max_idle_window as nat,
        ) + " slots"@
    }

    /// The text of the error.
    pub fn message(&self) -> (r: String)
        ensures
            r@ == self.spec_message(),
    {
        let mut s = String::from_str("Validator has no idle window of at least ");
        let a = decimal_string(self.min_idle_slots);
        s.append(a.as_str());
        s.append(" slots. Largest idle window for epoch ");
        let b = decimal_string(self.epoch);
        s.append(b.as_str());
        s.append(" is ");
        let c = decimal_string(self.max_idle_window);
        s.append(c.as_str());
        s.append(" slots");
        s
    }
}

/// What the watch keeps between polls.
pub struct RestartWindow {
    /// The epoch whose leader schedule is held.
    pub current_epoch: Option<u64>,
    /// The upcoming leader slots of the validator, in order.
    pub leader_schedule: Vec<u64>,
    /// The upcoming idle windows long enough for a restart, in order.
    pub upcoming_idle_windows: Vec<(u64, u64)>,
    /// The snapshot slot seen when the validator first could restart.
    pub restart_snapshot: Option<u64>,
    /// Whether an incremental snapshot has been seen.
    pub seen_incremental_snapshot: bool,
}

impl RestartWindow {
    /// Nothing known yet.
    pub fn new() -> (r: Self)
        ensures
            r.current_epoch is None,
            r.leader_schedule@ == Seq::<u64>::empty(),
            r.upcoming_idle_windows@ == Seq::<(u64, u64)>::empty(),
            r.restart_snapshot is None,
            !r.seen_incremental_snapshot,
    {
        RestartWindow {
            current_epoch: None,
            leader_schedule: Vec::new(),
            upcoming_idle_windows: Vec::new(),
            restart_snapshot: None,
            seen_incremental_snapshot: false,
        }
    }

    /// Whether the leader schedule of `epoch` has to be fetched: it is not
    /// the epoch whose schedule is held.
    pub fn needs_leader_schedule(&self, epoch: u64) -> (r: bool)
        ensures
            r == (self.current_epoch != Some(epoch)),
    {
        match self.current_epoch {
            None => true,
            Some(current) => current != epoch,
        }
    }
}

/// The leader slots of an epoch starting at `first_slot`, given as slot
/// indices within the epoch, that come after `absolute_slot`, in order.
pub fn leader_slots(first_slot: u64, indices: &Vec<usize>, absolute_slot: u64) -> (r: Vec<u64>)
    ensures
        r@ == leader_slots_after(first_slot, indices@, absolute_slot),
{
    let mut out: Vec<u64> = Vec::new();
    let mut i: usize = 0;
    while i < indices.len()
        invariant
            i <= indices@.len(),
            out@ == leader_slots_after(first_slot, indices@.take(i as int), absolute_slot),
        decreases indices@.len() - i,
    {
        let slot = first_slot.saturating_add(indices[i] as u64);
        if slot > absolute_slot {
            out.push(slot);
        }
        proof {
            let t = indices@.take(i + 1);
            assert(t.drop_last() =~= indices@.take(i as int));
            assert(t.last() == indices@[i as int]);
        }
        i += 1;
    }
    assert(indices@.take(indices@.len() as int) =~= indices@);
    out
}

proof fn lemma_windows_step(s: Seq<u64>, i: int, start: u64, min_idle_slots: u64)
    requires
        0 <= i < s.len(),
    ensures
        ({
            let st = if i == 0 { start } else { s[i - 1] };
            let w = (s[i] - st) as u64;
            &&& idle_windows_spec(s.skip(i), st, min_idle_slots) == (if w > min_idle_slots {
                seq![(st, w)] + idle_windows_spec(s.skip(i + 1), s[i], min_idle_slots)
            } else {
                idle_windows_spec(s.skip(i + 1), s[i], min_idle_slots)
            })
            &&& max_idle_window_spec(s.skip(i), st) == (if w > max_idle_window_spec(s.skip(i + 1), s[i]) {
                w
            } else {
                max_idle_window_spec(s.skip(i + 1), s[i])
            })
        }),
{
    assert(s.skip(i).drop_first() =~= s.skip(i + 1));
    assert(s.skip(i)[0] == s[i]);
}

/// The idle windows longer than `min_idle_slots` between the leader slots
/// from `start` on, and the longest idle window.
pub fn idle_windows(leader_schedule: &Vec<u64>, start: u64, min_idle_slots: u64) -> (r: (Vec<(u64, u64)>, u64))
    requires
        ascending_from(leader_schedule@, start),
    ensures
        r.0@ == idle_windows_spec(leader_schedule@, start, min_idle_slots),
        r.1 == max_idle_window_spec(leader_schedule@, start),
{
    let ghost s = leader_schedule@;
    let n = leader_schedule.len();
    // The windows are built back to front.
    let mut rev: Vec<(u64, u64)> = Vec::new();
    let mut max_idle: u64 = 0;
    let mut i: usize = n;
    assert(s.skip(n as int) =~= Seq::<u64>::empty());
    while i > 0
        invariant
            n == s.len(),
            s == leader_schedule@,
            ascending_from(s, start),
            i <= n,
            rev@.reverse() == idle_windows_spec(s.skip(i as int), if i == 0 { start } else { s[i - 1] }, min_idle_slots),
            max_idle == max_idle_window_spec(s.skip(i as int), if i == 0 { start } else { s[i - 1] }),
        decreases i,
    {
        let st = if i == 1 { start } else { leader_schedule[i - 2] };
        let next = leader_schedule[i - 1];
        assert(st <= next) by {
            if i > 1 {
                assert(s[i - 2] <= s[i - 1]);
            }
        }
        let w = next - st;
        proof {
            lemma_windows_step(s, i - 1, start, min_idle_slots);
        }
        let ghost before = rev@;
        if w > min_idle_slots {
            rev.push((st, w));
            proof {
                assert(rev@.reverse() =~= seq![(st, w)] + before.reverse());
            }
        }
        if w > max_idle {
            max_idle = w;
        }
        i -= 1;
    }
    assert(s.skip(0) =~= s);
    let mut out: Vec<(u64, u64)> = Vec::new();
    let mut j: usize = rev.len();
    while j > 0
        invariant
            j <= rev@.len(),
            out@ == rev@.subrange(j as int, rev@.len() as int).reverse(),
        decreases j,
    {
        out.push(rev[j - 1]);
        proof {
            assert(rev@.subrange(j - 1, rev@.len() as int).reverse() =~= rev@.subrange(j as int, rev@.len() as int).reverse().push(rev@[j - 1]));
        }
        j -= 1;
    }
    assert(rev@.subrange(0, rev@.len() as int) =~= rev@);
    (out, max_idle)
}

/// The leader schedule and idle windows after an epoch's schedule, given
/// as the validator's slot indices in the epoch, is fetched.
pub open spec fn schedule_set(w: RestartWindow, epoch_info: EpochInfo, indices: Seq<usize>, min_idle_slots: u64) -> bool {
    let first = (epoch_info.absolute_slot - epoch_info.slot_index) as u64;
    let slots = leader_slots_after(first, indices, epoch_info.absolute_slot);
    &&& w.leader_schedule@ == slots
    &&& w.upcoming_idle_windows@ == idle_windows_spec(slots, epoch_info.absolute_slot, min_idle_slots)
    &&& w.current_epoch == Some(epoch_info.epoch)
}

impl RestartWindow {
    /// Takes the leader schedule of the epoch: the validator's slot indices
    /// in it. Fails when the validator leads in the rest of the epoch but no
    /// idle window is longer than `min_idle_slots`.
    pub fn set_leader_schedule(&mut self, epoch_info: &EpochInfo, indices: &Vec<usize>, min_idle_slots: u64) -> (r: Result<(), NoIdleWindow>)
        requires
            epoch_info.slot_index <= epoch_info.absolute_slot,
            forall|i: int, j: int| 0 <= i <= j < indices@.len() ==> indices@[i] <= indices@[j],
        ensures
            final(self).restart_snapshot == old(self).restart_snapshot,
            final(self).seen_incremental_snapshot == old(self).seen_incremental_snapshot,
            ({
                let first = (epoch_info.absolute_slot - epoch_info.slot_index) as u64;
                let slots = leader_slots_after(first, indices@, epoch_info.absolute_slot);
                let windows = idle_windows_spec(slots, epoch_info.absolute_slot, min_idle_slots);
                if slots.len() > 0 && windows.len() == 0 {
                    r == Err::<(), NoIdleWindow>(NoIdleWindow {
                        min_idle_slots,
                        epoch: epoch_info.epoch,
                        max_idle_window: max_idle_window_spec(slots, epoch_info.absolute_slot),
                    })
                } else {
                    r is Ok && schedule_set(*final(self), *epoch_info, indices@, min_idle_slots)
                }
            }),
    {
        let first = epoch_info.absolute_slot - epoch_info.slot_index;
        let slots = leader_slots(first, indices, epoch_info.absolute_slot);
        proof {
            lemma_leader_slots_ascending(first, indices@, epoch_info.absolute_slot);
        }
        let (windows, max_idle) = idle_windows(&slots, epoch_info.absolute_slot, min_idle_slots);
        if slots.len() > 0 && windows.len() == 0 {
            return Err(NoIdleWindow { min_idle_slots, epoch: epoch_info.epoch, max_idle_window: max_idle });
        }
        self.leader_schedule = slots;
        self.upcoming_idle_windows = windows;
        self.current_epoch = Some(epoch_info.epoch);
        Ok(())
    }
}

proof fn lemma_leader_slots_ascending(first: u64, indices: Seq<usize>, absolute_slot: u64)
    requires
        forall|i: int, j: int| 0 <= i <= j < indices.len() ==> indices[i] <= indices[j],
    ensures
        ascending_from(leader_slots_after(first, indices, absolute_slot), absolute_slot),
        forall|x: u64| #[trigger] leader_slots_after(first, indices, absolute_slot).contains(x) ==> x <= (if indices.len()
            == 0 { 0 } else { sat_add(first, indices.last() as u64) }),
    decreases indices.len(),
{
    if indices.len() > 0 {
        let rest = indices.drop_last();
        lemma_leader_slots_ascending(first, rest, absolute_slot);
        let r = leader_slots_after(first, rest, absolute_slot);
        let slot = sat_add(first, indices.last() as u64);
        assert forall|x: u64| #[trigger] r.contains(x) implies x <= slot by {
            if rest.len() > 0 {
                assert(rest.last() <= indices.last());
            }
        }
        if slot > absolute_slot {
            let t = r.push(slot);
            assert forall|i: int, j: int| 0 <= i <= j < t.len() implies t[i] <= t[j] by {
                if j == r.len() {
                    assert(r.contains(t[i]) || i == j);
                }
            }
            assert forall|x: u64| #[trigger] t.contains(x) implies x <= slot by {
                let k = choose|k: int| 0 <= k < t.len() && t[k] == x;
                if k < r.len() {
                    assert(r.contains(x));
                }
            }
        }
    }
}

/// The leader slots from the first one not before `slot` on.
pub open spec fn drop_passed(s: Seq<u64>, slot: u64) -> Seq<u64>
    decreases s.len(),
{
    if s.len() > 0 && s[0] < slot { drop_passed(s.drop_first(), slot) } else { s }
}

/// The idle windows from the first one not started before `slot` on.
pub open spec fn drop_passed_windows(w: Seq<(u64, u64)>, slot: u64) -> Seq<(u64, u64)>
    decreases w.len(),
{
    if w.len() > 0 && w[0].0 < slot { drop_passed_windows(w.drop_first(), slot) } else { w }
}

/// Whether the validator is in a leader schedule hole long enough for a
/// restart, given the (already trimmed) leader schedule and idle windows;
/// otherwise why not.
pub open spec fn hole_check(
    epoch_info: EpochInfo,
    min_idle_slots: u64,
    schedule: Seq<u64>,
    windows: Seq<(u64, u64)>,
) -> Option<WaitReason> {
    if schedule.len() == 0 {
        None
    } else {
        let next = schedule[0];
        if sat_sub(next, epoch_info.absolute_slot) >= min_idle_slots {
            None
        } else if windows.len() > 0 {
            Some(WaitReason::NextIdleWindow {
                in_slots: sat_sub(windows[0].0, epoch_info.absolute_slot),
                length: windows[0].1,
            })
        } else {
            Some(WaitReason::LeaderSoon { next_leader_slot: next })
        }
    }
}

impl RestartWindow {
    /// One poll: whether to restart now, given the node's health, the
    /// current epoch, the highest snapshot slots, whether another validator
    /// is watched, and whether too much stake is delinquent.
    pub fn check(
        &mut self,
        healthy: bool,
        epoch_info: &EpochInfo,
        min_idle_slots: u64,
        skip_new_snapshot_check: bool,
        snapshot: Option<RpcSnapshotSlotInfo>,
        monitoring_another_validator: bool,
        delinquency_too_high: bool,
    ) -> (r: RestartCheck)
        ensures
            final(self).current_epoch == old(self).current_epoch,
            ({
                let schedule = drop_passed(old(self).leader_schedule@, epoch_info.absolute_slot);
                schedule.len() > 0 && schedule[0] < epoch_info.absolute_slot + min_idle_slots ==> r != RestartCheck::Restart
            }),
            ({
                let has_incremental = snapshot matches Some(s) && s.incremental is Some;
                let seen = old(self).seen_incremental_snapshot || has_incremental;
                let slot = epoch_info.absolute_slot;
                let schedule = drop_passed(old(self).leader_schedule@, slot);
                let windows = drop_passed_windows(old(self).upcoming_idle_windows@, slot);
                let snapshot_slot = match snapshot {
                    Some(s) => Some(match s.incremental { Some(i) => i, None => s.full }),
                    None => None,
                };
                let restart_snapshot = if old(self).restart_snapshot is None { snapshot_slot } else { old(self).restart_snapshot };
                &&& final(self).seen_incremental_snapshot == seen
                &&& if !healthy {
                    &&& r == RestartCheck::Wait(WaitReason::Unhealthy)
                    &&& final(self).leader_schedule@ == old(self).leader_schedule@
                    &&& final(self).upcoming_idle_windows@ == old(self).upcoming_idle_windows@
                    &&& final(self).restart_snapshot == old(self).restart_snapshot
                } else if epoch_info.slot_index + min_idle_slots > epoch_info.slots_in_epoch {
                    &&& r == RestartCheck::Wait(WaitReason::EpochAlmostComplete)
                    &&& final(self).leader_schedule@ == old(self).leader_schedule@
                    &&& final(self).upcoming_idle_windows@ == old(self).upcoming_idle_windows@
                    &&& final(self).restart_snapshot == old(self).restart_snapshot
                } else {
                    &&& final(self).leader_schedule@ == schedule
                    &&& final(self).upcoming_idle_windows@ == windows
                    &&& match hole_check(*epoch_info, min_idle_slots, schedule, windows) {
                        Some(why) => r == RestartCheck::Wait(why) && final(self).restart_snapshot == old(self).restart_snapshot,
                        None => if skip_new_snapshot_check {
                            r == RestartCheck::Restart && final(self).restart_snapshot == old(self).restart_snapshot
                        } else {
                            &&& final(self).restart_snapshot == restart_snapshot
                            &&& r == (if restart_snapshot == snapshot_slot && !monitoring_another_validator {
                                RestartCheck::Wait(WaitReason::WaitingForNewSnapshot)
                            } else if delinquency_too_high {
                                RestartCheck::Wait(WaitReason::DelinquencyTooHigh)
                            } else if seen && !has_incremental {
                                RestartCheck::Wait(WaitReason::WaitingForIncrementalSnapshot)
                            } else {
                                RestartCheck::Restart
                            })
                        },
                    }
                }
            }),
    {
        proof {
            law_no_restart_near_leader(*epoch_info, min_idle_slots, self.leader_schedule@, self.upcoming_idle_windows@);
        }
        let has_incremental = match snapshot {
            Some(s) => s.incremental.is_some(),
            None => false,
        };
        self.seen_incremental_snapshot = self.seen_incremental_snapshot || has_incremental;
        if !healthy {
            return RestartCheck::Wait(WaitReason::Unhealthy);
        }
        if (epoch_info.slot_index as u128) + (min_idle_slots as u128) > epoch_info.slots_in_epoch as u128 {
            return RestartCheck::Wait(WaitReason::EpochAlmostComplete);
        }
        let slot = epoch_info.absolute_slot;
        // Drop the leader slots that have passed.
        let ghost s0 = self.leader_schedule@;
        let mut k: usize = 0;
        assert(s0.skip(0) =~= s0);
        while k < self.leader_schedule.len() && self.leader_schedule[k] < slot
            invariant
                k <= self.leader_schedule@.len(),
                self.leader_schedule@ == s0,
                drop_passed(s0.skip(k as int), slot) == drop_passed(s0, slot),
            decreases self.leader_schedule@.len() - k,
        {
            proof {
                assert(s0.skip(k as int).drop_first() =~= s0.skip(k + 1));
            }
            k += 1;
        }
        let mut kept: Vec<u64> = Vec::new();
        let mut j: usize = k;
        while j < self.leader_schedule.len()
            invariant
                k <= j <= self.leader_schedule@.len(),
                self.leader_schedule@ == s0,
                kept@ == s0.subrange(k as int, j as int),
            decreases self.leader_schedule@.len() - j,
        {
            kept.push(self.leader_schedule[j]);
            proof {
                assert(s0.subrange(k as int, j + 1) =~= s0.subrange(k as int, j as int).push(s0[j as int]));
            }
            j += 1;
        }
        proof {
            assert(kept@ =~= s0.skip(k as int));
            if k < s0.len() {
                assert(s0.skip(k as int)[0] == s0[k as int]);
            }
        }
        self.leader_schedule = kept;
        // Drop the idle windows that have started.
        let ghost w0 = self.upcoming_idle_windows@;
        let mut m: usize = 0;
        assert(w0.skip(0) =~= w0);
        while m < self.upcoming_idle_windows.len() && self.upcoming_idle_windows[m].0 < slot
            invariant
                m <= self.upcoming_idle_windows@.len(),
                self.upcoming_idle_windows@ == w0,
                drop_passed_windows(w0.skip(m as int), slot) == drop_passed_windows(w0, slot),
            decreases self.upcoming_idle_windows@.len() - m,
        {
            proof {
                assert(w0.skip(m as int).drop_first() =~= w0.skip(m + 1));
            }
            m += 1;
        }
        let mut kept_windows: Vec<(u64, u64)> = Vec::new();
        let mut q: usize = m;
        while q < self.upcoming_idle_windows.len()
            invariant
                m <= q <= self.upcoming_idle_windows@.len(),
                self.upcoming_idle_windows@ == w0,
                kept_windows@ == w0.subrange(m as int, q as int),
            decreases self.upcoming_idle_windows@.len() - q,
        {
            kept_windows.push(self.upcoming_idle_windows[q]);
            proof {
                assert(w0.subrange(m as int, q + 1) =~= w0.subrange(m as int, q as int).push(w0[q as int]));
            }
            q += 1;
        }
        proof {
            assert(kept_windows@ =~= w0.skip(m as int));
            if m < w0.len() {
                assert(w0.skip(m as int)[0] == w0[m as int]);
            }
        }
        self.upcoming_idle_windows = kept_windows;
        let hole: Option<WaitReason> = if self.leader_schedule.len() == 0 {
            None
        } else {
            let next = self.leader_schedule[0];
            let idle_slots = next.saturating_sub(slot);
            if idle_slots >= min_idle_slots {
                None
            } else if self.upcoming_idle_windows.len() > 0 {
                let (start, length) = self.upcoming_idle_windows[0];
                Some(WaitReason::NextIdleWindow { in_slots: start.saturating_sub(slot), length })
            } else {
                Some(WaitReason::LeaderSoon { next_leader_slot: next })
            }
        };
        match hole {
            Some(why) => RestartCheck::Wait(why),
            None => {
                if skip_new_snapshot_check {
                    return RestartCheck::Restart;
                }
                let snapshot_slot = match snapshot {
                    Some(s) => Some(
                        match s.incremental {
                            Some(i) => i,
                            None => s.full,
                        },
                    ),
                    None => None,
                };
                if self.restart_snapshot.is_none() {
                    self.restart_snapshot = snapshot_slot;
                }
                if self.restart_snapshot == snapshot_slot && !monitoring_another_validator {
                    RestartCheck::Wait(WaitReason::WaitingForNewSnapshot)
                } else if delinquency_too_high {
                    RestartCheck::Wait(WaitReason::DelinquencyTooHigh)
                } else if self.seen_incremental_snapshot && !has_incremental {
                    RestartCheck::Wait(WaitReason::WaitingForIncrementalSnapshot)
                } else {
                    RestartCheck::Restart
                }
            },
        }
    }
}

/// The first leader slot that remains after dropping those before `slot`
/// is at or after it.
proof fn lemma_drop_passed_from(s: Seq<u64>, slot: u64)
    ensures
        drop_passed(s, slot).len() > 0 ==> slot <= drop_passed(s, slot)[0],
    decreases s.len(),
{
    if s.len() > 0 && s[0] < slot {
        lemma_drop_passed_from(s.drop_first(), slot);
    }
}

/// No restart while a leader slot is near: when the first leader slot at
/// or after the current slot is fewer than `min_idle_slots` slots away,
/// `check` waits (for the next idle window, or, with none left, for the
/// leader slot to pass) and never answers `Restart`; with no such leader
/// slot near, the leader schedule does not hold it back.
pub proof fn law_no_restart_near_leader(
    epoch_info: EpochInfo,
    min_idle_slots: u64,
    leader_schedule: Seq<u64>,
    idle_windows: Seq<(u64, u64)>,
)
    ensures
        ({
            let slot = epoch_info.absolute_slot;
            let schedule = drop_passed(leader_schedule, slot);
            let windows = drop_passed_windows(idle_windows, slot);
            &&& (schedule.len() > 0 && schedule[0] < slot + min_idle_slots) ==> hole_check(
                epoch_info,
                min_idle_slots,
                schedule,
                windows,
            ) is Some
            &&& (schedule.len() > 0 && schedule[0] < slot + min_idle_slots && windows.len() == 0) ==> hole_check(
                epoch_info,
                min_idle_slots,
                schedule,
                windows,
            ) == Some(WaitReason::LeaderSoon { next_leader_slot: schedule[0] })
            &&& (schedule.len() == 0 || schedule[0] >= slot + min_idle_slots) ==> hole_check(
                epoch_info,
                min_idle_slots,
                schedule,
                windows,
            ) is None
        }),
{
    lemma_drop_passed_from(leader_schedule, epoch_info.absolute_slot);
}

/// Trimming the leader schedule drops exactly its leading slots that are
/// before `slot`: what remains is the rest, from the first slot at or
/// after `slot` on.
pub proof fn law_drop_passed_leading(s: Seq<u64>, slot: u64)
    ensures
        exists|k: int| {
            &&& 0 <= k <= s.len()
            &&& drop_passed(s, slot) == s.skip(k)
            &&& forall|i: int| 0 <= i < k ==> #[trigger] s[i] < slot
            &&& k < s.len() ==> slot <= s[k]
        },
    decreases s.len(),
{
    if s.len() > 0 && s[0] < slot {
        law_drop_passed_leading(s.drop_first(), slot);
        let t = s.drop_first();
        let k = choose|k: int| {
            &&& 0 <= k <= t.len()
            &&& drop_passed(t, slot) == t.skip(k)
            &&& forall|i: int| 0 <= i < k ==> #[trigger] t[i] < slot
            &&& k < t.len() ==> slot <= t[k]
        };
        assert(t.skip(k) =~= s.skip(k + 1));
        assert forall|i: int| 0 <= i < k + 1 implies #[trigger] s[i] < slot by {
            if i > 0 {
                assert(s[i] == t[i - 1]);
            }
        }
        if k + 1 < s.len() {
            assert(s[k + 1] == t[k]);
        }
    } else {
        assert(s.skip(0) =~= s);
    }
}

} // verus!
