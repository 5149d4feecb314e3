//! The push side of gossip: storing the values that peers push, within a
//! window of wallclocks around the local time.

use vstd::prelude::*;
use crate::pubkey::Pubkey;
use crate::crds::{Crds, CrdsState, Cursor, GossipRoute, spec_insert, consumed_since, ALL_KINDS};
use crate::crds_value::CrdsValue;

verus! {

/// The number of peers each value is pushed to.
pub const CRDS_GOSSIP_PUSH_FANOUT: usize = 9;

/// How far, in milliseconds, a pushed value's wallclock may be from the
/// local time.
pub const CRDS_GOSSIP_PUSH_MSG_TIMEOUT_MS: u64 = 30000;

/// How long, in milliseconds, a prune message stays valid.
pub const CRDS_GOSSIP_PRUNE_MSG_TIMEOUT_MS: u64 = 500;

/// The number of ingress nodes kept when pruning.
pub const CRDS_GOSSIP_PRUNE_MIN_INGRESS_NODES: usize = 2;

/// The size of the push active set.
pub const CRDS_GOSSIP_PUSH_ACTIVE_SET_SIZE: usize = CRDS_GOSSIP_PUSH_FANOUT + 3;

/// `a - b`, or zero.
pub open spec fn sat_sub(a: u64, b: u64) -> u64 {
    if a < b { 0 } else { (a - b) as u64 }
}

/// `a + b`, or `u64::MAX`.
pub open spec fn sat_add(a: u64, b: u64) -> u64 {
    if a + b > u64::MAX { u64::MAX } else { (a + b) as u64 }
}

/// Whether a wallclock lies within `timeout` of `now`.
pub open spec fn in_window(wallclock: u64, now: u64, timeout: u64) -> bool {
    sat_sub(now, timeout) <= wallclock <= sat_add(now, timeout)
}

/// What pushing `vals` from node `from` does, in order: each value within
/// the window is inserted; the nodes whose values were stored, and the
/// number refused.
pub open spec fn push_values(s: CrdsState, from: Pubkey, vals: Seq<CrdsValue>, now: u64, timeout: u64) -> (CrdsState, Seq<Pubkey>, nat)
    decreases vals.len(),
{
    if vals.len() == 0 {
        (s, Seq::empty(), 0)
    } else {
        let (s1, o1, k1) = push_values(s, from, vals.drop_last(), now, timeout);
        let value = vals.last();
        if !in_window(value.wallclock, now, timeout) {
            (s1, o1, k1)
        } else {
            let (s2, r) = spec_insert(s1, value, now, GossipRoute::PushMessage(from));
            if r is Ok {
                (s2, o1.push(value.pubkey), k1)
            } else {
                (s2, o1, k1 + 1)
            }
        }
    }
}

/// What pushing the messages does, in order.
pub open spec fn push_messages(s: CrdsState, msgs: Seq<(Pubkey, Vec<CrdsValue>)>, now: u64, timeout: u64) -> (CrdsState, Seq<Pubkey>, nat)
    decreases msgs.len(),
{
    if msgs.len() == 0 {
        (s, Seq::empty(), 0)
    } else {
        let (s1, o1, k1) = push_messages(s, msgs.drop_last(), now, timeout);
        let (s2, o2, k2) = push_values(s1, msgs.last().0, msgs.last().1@, now, timeout);
        (s2, o1 + o2, k1 + k2)
    }
}

/// Pushing values from one node: every node whose values were stored pushed
/// a value within the window; with no value within the window, nothing
/// changes.
proof fn lemma_push_values_window(s: CrdsState, from: Pubkey, vals: Seq<CrdsValue>, now: u64, timeout: u64)
    ensures
        forall|q: Pubkey| #[trigger] push_values(s, from, vals, now, timeout).1.contains(q) ==> exists|j: int|
            0 <= j < vals.len() && (#[trigger] vals[j]).pubkey == q && in_window(vals[j].wallclock, now, timeout),
        (forall|j: int| 0 <= j < vals.len() ==> !in_window((#[trigger] vals[j]).wallclock, now, timeout))
            ==> push_values(s, from, vals, now, timeout).0 == s && push_values(s, from, vals, now, timeout).1.len() == 0,
    decreases vals.len(),
{
    if vals.len() > 0 {
        let init = vals.drop_last();
        lemma_push_values_window(s, from, init, now, timeout);
        let (s1, o1, k1) = push_values(s, from, init, now, timeout);
        let value = vals.last();
        assert forall|j: int| 0 <= j < init.len() implies #[trigger] init[j] == vals[j] by {}
        assert forall|q: Pubkey| #[trigger] push_values(s, from, vals, now, timeout).1.contains(q) implies exists|j: int|
            0 <= j < vals.len() && (#[trigger] vals[j]).pubkey == q && in_window(vals[j].wallclock, now, timeout) by {
            if o1.contains(q) {
                let j = choose|j: int| 0 <= j < init.len() && (#[trigger] init[j]).pubkey == q && in_window(init[j].wallclock, now, timeout);
                assert(vals[j] == init[j]);
            } else {
                crate::crds::lemma_push_contains(o1, value.pubkey, q);
                assert(vals[vals.len() - 1] == value);
            }
        }
        if forall|j: int| 0 <= j < vals.len() ==> !in_window((#[trigger] vals[j]).wallclock, now, timeout) {
            assert(vals[vals.len() - 1] == value);
            assert forall|j: int| 0 <= j < init.len() implies !in_window((#[trigger] init[j]).wallclock, now, timeout) by {
                assert(init[j] == vals[j]);
            }
        }
    }
}

/// Every node that `process_push_message` returns pushed, in one of the
/// messages, a value whose wallclock lies within the window around `now`;
/// and when no value lies within it, the table is left as it was and no
/// node is returned.
pub proof fn law_push_messages_window(s: CrdsState, msgs: Seq<(Pubkey, Vec<CrdsValue>)>, now: u64, timeout: u64)
    ensures
        forall|q: Pubkey| #[trigger] push_messages(s, msgs, now, timeout).1.contains(q) ==> exists|i: int, j: int|
            0 <= i < msgs.len() && 0 <= j < msgs[i].1@.len() && (#[trigger] msgs[i].1@[j]).pubkey == q
                && in_window(msgs[i].1@[j].wallclock, now, timeout),
        (forall|i: int, j: int| 0 <= i < msgs.len() && 0 <= j < msgs[i].1@.len() ==> !in_window((#[trigger] msgs[i].1@[j]).wallclock, now, timeout))
            ==> push_messages(s, msgs, now, timeout).0 == s && push_messages(s, msgs, now, timeout).1.len() == 0,
    decreases msgs.len(),
{
    if msgs.len() > 0 {
        let init = msgs.drop_last();
        let m = msgs.last();
        law_push_messages_window(s, init, now, timeout);
        let (s1, o1, k1) = push_messages(s, init, now, timeout);
        lemma_push_values_window(s1, m.0, m.1@, now, timeout);
        let (s2, o2, k2) = push_values(s1, m.0, m.1@, now, timeout);
        assert forall|i: int| 0 <= i < init.len() implies #[trigger] init[i] == msgs[i] by {}
        assert(msgs[msgs.len() - 1] == m);
        assert forall|q: Pubkey| #[trigger] push_messages(s, msgs, now, timeout).1.contains(q) implies exists|i: int, j: int|
            0 <= i < msgs.len() && 0 <= j < msgs[i].1@.len() && (#[trigger] msgs[i].1@[j]).pubkey == q
                && in_window(msgs[i].1@[j].wallclock, now, timeout) by {
            let all = o1 + o2;
            let p = choose|p: int| 0 <= p < all.len() && all[p] == q;
            if p < o1.len() {
                assert(o1[p] == q);
                assert(o1.contains(q));
                let (i, j) = choose|i: int, j: int| 0 <= i < init.len() && 0 <= j < init[i].1@.len() && (#[trigger] init[i].1@[j]).pubkey == q
                    && in_window(init[i].1@[j].wallclock, now, timeout);
                assert(msgs[i] == init[i]);
            } else {
                assert(o2[p - o1.len()] == q);
                assert(o2.contains(q));
                let j = choose|j: int| 0 <= j < m.1@.len() && (#[trigger] m.1@[j]).pubkey == q && in_window(m.1@[j].wallclock, now, timeout);
                assert(msgs[msgs.len() - 1].1@[j] == m.1@[j]);
            }
        }
        if forall|i: int, j: int| 0 <= i < msgs.len() && 0 <= j < msgs[i].1@.len() ==> !in_window((#[trigger] msgs[i].1@[j]).wallclock, now, timeout) {
            assert forall|i: int, j: int| 0 <= i < init.len() && 0 <= j < init[i].1@.len() implies !in_window((#[trigger] init[i].1@[j]).wallclock, now, timeout) by {
                assert(init[i] == msgs[i]);
            }
            assert forall|j: int| 0 <= j < m.1@.len() implies !in_window((#[trigger] m.1@[j]).wallclock, now, timeout) by {
                assert(msgs[msgs.len() - 1].1@[j] == m.1@[j]);
            }
            assert(o1 + o2 =~= Seq::<Pubkey>::empty());
        }
    }
}

/// The number of values in the messages.
pub open spec fn total_values(msgs: Seq<(Pubkey, Vec<CrdsValue>)>) -> nat
    decreases msgs.len(),
{
    if msgs.len() == 0 { 0 } else { total_values(msgs.drop_last()) + msgs.last().1@.len() }
}

proof fn lemma_push_values_cursor(s: CrdsState, from: Pubkey, vals: Seq<CrdsValue>, now: u64, timeout: u64)
    requires
        s.cursor + vals.len() < u64::MAX,
    ensures
        push_values(s, from, vals, now, timeout).0.cursor <= s.cursor + vals.len(),
    decreases vals.len(),
{
    if vals.len() > 0 {
        lemma_push_values_cursor(s, from, vals.drop_last(), now, timeout);
    }
}

/// The push side of gossip.
pub struct CrdsGossipPush {
    /// Where pushing new values stands in the table's insert order.
    crds_cursor: Cursor,
    /// The number of peers each value is pushed to.
    push_fanout: usize,
    /// How far a pushed value's wallclock may be from the local time.
    pub msg_timeout: u64,
    /// How long a prune message stays valid.
    pub prune_timeout: u64,
}

impl CrdsGossipPush {
    /// Nothing pushed yet; the default fanout and timeouts.
    pub fn new() -> (r: Self)
        ensures
            r.spec_msg_timeout() == CRDS_GOSSIP_PUSH_MSG_TIMEOUT_MS,
            r.spec_prune_timeout() == CRDS_GOSSIP_PRUNE_MSG_TIMEOUT_MS,
            r.spec_cursor() == 0,
            r.spec_fanout() == CRDS_GOSSIP_PUSH_FANOUT,
    {
        CrdsGossipPush {
            crds_cursor: Cursor(0),
            push_fanout: CRDS_GOSSIP_PUSH_FANOUT,
            msg_timeout: CRDS_GOSSIP_PUSH_MSG_TIMEOUT_MS,
            prune_timeout: CRDS_GOSSIP_PRUNE_MSG_TIMEOUT_MS,
        }
    }

    /// Where pushing new values stands in the table's insert order.
    pub closed spec fn spec_cursor(&self) -> u64 {
        self.crds_cursor.0
    }

    /// The number of peers each value is pushed to.
    pub closed spec fn spec_fanout(&self) -> usize {
        self.push_fanout
    }

    /// How far a pushed value's wallclock may be from the local time.
    pub closed spec fn spec_msg_timeout(&self) -> u64 {
        self.msg_timeout
    }

    /// How long a prune message stays valid.
    pub closed spec fn spec_prune_timeout(&self) -> u64 {
        self.prune_timeout
    }

    /// How long a prune message stays valid.
    pub fn prune_timeout(&self) -> (r: u64)
        ensures
            r == self.spec_prune_timeout(),
    {
        self.prune_timeout
    }

    /// The wallclocks accepted at `now`: from `now - msg_timeout` to
    /// `now + msg_timeout`, both saturating.
    pub fn wallclock_window(&self, now: u64) -> (r: (u64, u64))
        ensures
            r == (sat_sub(now, self.spec_msg_timeout()), sat_add(now, self.spec_msg_timeout())),
    {
        (now.saturating_sub(self.msg_timeout), now.saturating_add(self.msg_timeout))
    }

    /// The number of values stored since the last push.
    pub fn num_pending(&self, crds: &Crds) -> (r: usize)
        requires
            crds.wf(),
        ensures
            exists|pending: Seq<crate::crds::VersionedCrdsValue>|
                consumed_since(pending, crds@, ALL_KINDS, self.spec_cursor()) && r == pending.len(),
    {
        let mut cursor = self.crds_cursor;
        let pending = crds.get_entries(&mut cursor);
        pending.len()
    }

    /// Stores the values pushed by each node, in order, skipping those
    /// whose wallclock is outside the window; returns the nodes whose
    /// values were stored, each once.
    pub fn process_push_message(&self, crds: &mut Crds, messages: Vec<(Pubkey, Vec<CrdsValue>)>, now: u64) -> (r: Vec<Pubkey>)
        requires
            old(crds).wf(),
            old(crds).spec_cursor() + total_values(messages@) < u64::MAX,
        ensures
            final(crds).wf(),
            ({
                let (s, origins, _) = push_messages(old(crds).state(), messages@, now, self.spec_msg_timeout());
                &&& final(crds).state() == s
                &&& r@.no_duplicates()
                &&& forall|pk: Pubkey| #[trigger] r@.contains(pk) <==> origins.contains(pk)
            }),
    {
        let (lo, hi) = self.wallclock_window(now);
        let ghost s0 = crds.state();
        let ghost timeout = self.msg_timeout;
        let mut origins: Vec<Pubkey> = Vec::new();
        let ghost mut all: Seq<Pubkey> = Seq::empty();
        let mut m: usize = 0;
        while m < messages.len()
            invariant
                crds.wf(),
                m <= messages@.len(),
                lo == sat_sub(now, timeout),
                hi == sat_add(now, timeout),
                (crds.state(), all) == ({
                    let t = push_messages(s0, messages@.take(m as int), now, timeout);
                    (t.0, t.1)
                }),
                crds.spec_cursor() <= s0.cursor + total_values(messages@.take(m as int)),
                s0.cursor + total_values(messages@) < u64::MAX,
                total_values(messages@.take(m as int)) <= total_values(messages@),
                origins@.no_duplicates(),
                forall|pk: Pubkey| #[trigger] origins@.contains(pk) <==> all.contains(pk),
            decreases messages@.len() - m,
        {
            let from = messages[m].0;
            let values = &messages[m].1;
            let ghost s1 = crds.state();
            let ghost all1 = all;
            proof {
                lemma_total_values_take(messages@, m as int);
            }
            let mut j: usize = 0;
            while j < values.len()
                invariant
                    crds.wf(),
                    j <= values@.len(),
                    lo == sat_sub(now, timeout),
                    hi == sat_add(now, timeout),
                    (crds.state(), all) == ({
                        let t = push_values(s1, from, values@.take(j as int), now, timeout);
                        (t.0, all1 + t.1)
                    }),
                    crds.spec_cursor() <= s1.cursor + j,
                    s1.cursor + values@.len() < u64::MAX,
                    origins@.no_duplicates(),
                    forall|pk: Pubkey| #[trigger] origins@.contains(pk) <==> all.contains(pk),
                decreases values@.len() - j,
            {
                let value = values[j];
                let ghost t = values@.take(j + 1);
                proof {
                    assert(t.drop_last() =~= values@.take(j as int));
                    assert(t.last() == value);
                }
                if lo <= value.wallclock && value.wallclock <= hi {
                    let origin = value.pubkey;
                    let r = crds.insert(value, now, GossipRoute::PushMessage(from));
                    if r.is_ok() {
                        let ghost before = all;
                        proof {
                            all = all.push(origin);
                            assert(all =~= all1 + push_values(s1, from, t, now, timeout).1);
                        }
                        let ghost old_origins = origins@;
                        let mut found = false;
                        let mut q: usize = 0;
                        while q < origins.len()
                            invariant
                                q <= origins@.len(),
                                origins@ == old_origins,
                                found == (exists|x: int| 0 <= x < q && origins@[x] == origin),
                            decreases origins@.len() - q,
                        {
                            if origins[q].same_as(&origin) {
                                found = true;
                            }
                            q += 1;
                        }
                        if !found {
                            origins.push(origin);
                        }
                        proof {
                            if found {
                                let x = choose|x: int| 0 <= x < origins@.len() && origins@[x] == origin;
                                assert(origins@.contains(origin));
                                assert(before.contains(origin));
                            }
                            assert forall|pk: Pubkey| #[trigger] origins@.contains(pk) <==> all.contains(pk) by {
                                crate::crds::lemma_push_contains(before, origin, pk);
                                if !found {
                                    crate::crds::lemma_push_contains(old_origins, origin, pk);
                                }
                            }
                            if !found {
                                assert forall|a: int, b: int| 0 <= a < b < origins@.len() implies origins@[a] != origins@[b] by {
                                }
                            }
                        }
                    }
                } else {
                    proof {
                        assert(all =~= all1 + push_values(s1, from, t, now, timeout).1);
                    }
                }
                j += 1;
            }
            proof {
                assert(values@.take(values@.len() as int) =~= values@);
                let tm = messages@.take(m + 1);
                assert(tm.drop_last() =~= messages@.take(m as int));
                assert(tm.last() == messages@[m as int]);
                assert(all =~= push_messages(s0, tm, now, timeout).1);
            }
            m += 1;
        }
        proof {
            assert(messages@.take(messages@.len() as int) =~= messages@);
        }
        origins
    }
}

proof fn lemma_total_values_take(msgs: Seq<(Pubkey, Vec<CrdsValue>)>, m: int)
    requires
        0 <= m < msgs.len(),
    ensures
        total_values(msgs.take(m + 1)) == total_values(msgs.take(m)) + msgs[m].1@.len(),
        total_values(msgs.take(m + 1)) <= total_values(msgs),
{
    let t = msgs.take(m + 1);
    assert(t.drop_last() =~= msgs.take(m));
    lemma_total_values_prefix(msgs, m + 1);
}

proof fn lemma_total_values_prefix(msgs: Seq<(Pubkey, Vec<CrdsValue>)>, m: int)
    requires
        0 <= m <= msgs.len(),
    ensures
        total_values(msgs.take(m)) <= total_values(msgs),
    decreases msgs.len() - m,
{
    if m < msgs.len() {
        lemma_total_values_prefix(msgs, m + 1);
        let t = msgs.take(m + 1);
        assert(t.drop_last() =~= msgs.take(m));
    } else {
        assert(msgs.take(m) =~= msgs);
    }
}

/// Pushing values is inserting each value that lies within the window, in
/// turn, into the table as the values before it left it; a value outside
/// the window is skipped. A refusal before a value has no bearing on it:
/// the value is offered all the same, and its node is returned when it is
/// stored.
pub proof fn law_push_inserts_each(s: CrdsState, from: Pubkey, vals: Seq<CrdsValue>, value: CrdsValue, now: u64, timeout: u64)
    ensures
        ({
            let before = push_values(s, from, vals, now, timeout);
            let after = push_values(s, from, vals.push(value), now, timeout);
            let (s2, r) = spec_insert(before.0, value, now, GossipRoute::PushMessage(from));
            if in_window(value.wallclock, now, timeout) {
                &&& after.0 == s2
                &&& after.1 == if r is Ok { before.1.push(value.pubkey) } else { before.1 }
            } else {
                &&& after.0 == before.0
                &&& after.1 == before.1
            }
        }),
{
    assert(vals.push(value).drop_last() =~= vals);
}

/// A value within the window that is stored when its turn comes has its
/// node returned, whatever was refused before or after it.
pub proof fn law_stored_origin_returned(s: CrdsState, from: Pubkey, vals: Seq<CrdsValue>, j: int, now: u64, timeout: u64)
    requires
        0 <= j < vals.len(),
        in_window(vals[j].wallclock, now, timeout),
        spec_insert(push_values(s, from, vals.take(j), now, timeout).0, vals[j], now, GossipRoute::PushMessage(from)).1 is Ok,
    ensures
        push_values(s, from, vals, now, timeout).1.contains(vals[j].pubkey),
    decreases vals.len(),
{
    let init = vals.drop_last();
    let (s1, o1, k1) = push_values(s, from, init, now, timeout);
    let value = vals.last();
    if j == vals.len() - 1 {
        assert(init =~= vals.take(j));
        crate::crds::lemma_push_contains(o1, value.pubkey, value.pubkey);
    } else {
        assert(init.take(j) =~= vals.take(j));
        assert(init[j] == vals[j]);
        law_stored_origin_returned(s, from, init, j, now, timeout);
        crate::crds::lemma_push_contains(o1, value.pubkey, vals[j].pubkey);
    }
}

/// The window is closed at both ends: a wallclock lies in it exactly when
/// it is at most `timeout` before `now` and at most `timeout` after it.
pub proof fn law_window_bounds(wallclock: u64, now: u64, timeout: u64)
    ensures
        in_window(wallclock, now, timeout) <==> (now <= wallclock + timeout && wallclock <= now + timeout),
{
}

} // verus!
