//! Gossip: the replicated data store with the push side around it, and the
//! checks on prune messages.

use vstd::prelude::*;
use std::collections::BTreeMap;
use rand::rngs::ThreadRng;
use rand::Rng;
use crate::pubkey::Pubkey;
use crate::socket::{SocketAddr, SocketAddrSpace, is_global_ip};
use crate::ping_pong::{PingCache, PingCacheState, PingDue, check_step, remote_key, remote_node_key};
use crate::crds::{
    Crds, VersionedCrdsValue, duplicate_shred_offset_of, MAX_DUPLICATE_SHREDS, contact_of, is_contact, stake_of,
    contains_pubkey, CrdsState, spec_insert, GossipRoute,
};
use crate::crds_value::pubkey_key;

use crate::crds_gossip_push::{CrdsGossipPush, push_messages, total_values, sat_add};
use crate::crds_value::{CrdsValue, CrdsData, ContactInfo};

verus! {

/// Why a gossip request was refused.
#[derive(PartialEq, Eq, Debug, Clone, Copy)]
pub enum CrdsGossipError {
    NoPeers,
    PushMessageOldVersion,
    BadPruneDestination,
    PruneMessageTimeout,
}

/// What a prune message gets: refused when it is older than the prune
/// timeout, refused when it is meant for another node, else accepted.
pub open spec fn prune_verdict(prune_timeout: u64, self_pubkey: Pubkey, destination: Pubkey, wallclock: u64, now: u64) -> Result<(), CrdsGossipError> {
    if now > sat_add(wallclock, prune_timeout) {
        Err(CrdsGossipError::PruneMessageTimeout)
    } else if self_pubkey == destination {
        Ok(())
    } else {
        Err(CrdsGossipError::BadPruneDestination)
    }
}

/// How long a node may go unheard before it counts as inactive, in
/// milliseconds.
pub const ACTIVE_TIMEOUT_MS: u64 = 60_000;

#[verifier::external_type_specification]
#[verifier::external_body]
pub struct ExThreadRng(ThreadRng);

/// `Rng::gen_ratio(1, 16)` on the thread's random number generator: true
/// one time in sixteen, at random. Nothing is stated of the outcome.
#[verifier::external_body]
fn one_in_sixteen(rng: &mut ThreadRng) -> bool {
    rng.gen_ratio(1, 16)
}

/// A node to gossip with: its key and its contact information.
pub type GossipNode = (Pubkey, ContactInfo);

/// Whether node `e` may be gossiped with by node `pubkey`, which runs
/// `shred_version`: another node, of the same shred version, with a gossip
/// address in the address space, and among `validators` if those are given.
pub open spec fn gossip_peer(
    e: VersionedCrdsValue,
    pubkey: Pubkey,
    shred_version: u16,
    validators: Option<Seq<Pubkey>>,
    space: SocketAddrSpace,
) -> bool {
    let c = contact_of(e.value.data);
    &&& e.value.pubkey != pubkey
    &&& c.shred_version == shred_version
    &&& (c.gossip matches Some(addr) && (space == SocketAddrSpace::Unspecified || is_global_ip(addr.ip)))
    &&& (validators matches Some(vs) ==> vs.contains(e.value.pubkey))
}

/// Whether node `e` has been heard from within the active timeout before
/// `now`.
pub open spec fn recently_active(e: VersionedCrdsValue, now: u64) -> bool {
    e.local_timestamp >= (if now >= ACTIVE_TIMEOUT_MS { now - ACTIVE_TIMEOUT_MS } else { 0 })
}

/// The nodes of the table to gossip with, as node `pubkey` running
/// `shred_version` picks them: those that may be gossiped with (see
/// [`gossip_peer`]) and have been heard from recently; a node not heard
/// from for longer is kept only if it is staked, and then one time in
/// sixteen, at random, so that staked nodes are retried now and then.
pub fn get_gossip_nodes(
    rng: &mut ThreadRng,
    now: u64,
    pubkey: &Pubkey,
    shred_version: u16,
    crds: &Crds,
    gossip_validators: Option<&[Pubkey]>,
    stakes: &BTreeMap<(u128, u128), u64>,
    socket_addr_space: &SocketAddrSpace,
) -> (r: Vec<GossipNode>)
    requires
        crds.wf(),
    ensures
        forall|x: GossipNode| #[trigger] r@.contains(x) ==> exists|e: VersionedCrdsValue| {
            &&& #[trigger] crds@.contains(e)
            &&& is_contact(e.value.data)
            &&& x == (e.value.pubkey, contact_of(e.value.data))
            &&& gossip_peer(e, *pubkey, shred_version, match gossip_validators { Some(v) => Some(v@), None => None }, *socket_addr_space)
            &&& (recently_active(e, now) || stake_of(stakes@, pubkey_key(e.value.pubkey)) > 0)
        },
        forall|e: VersionedCrdsValue| #[trigger] crds@.contains(e) && is_contact(e.value.data) && recently_active(e, now)
            && gossip_peer(e, *pubkey, shred_version, match gossip_validators { Some(v) => Some(v@), None => None }, *socket_addr_space)
            ==> r@.contains((e.value.pubkey, contact_of(e.value.data))),
{
    let ghost vs = match gossip_validators { Some(v) => Some(v@), None => None };
    let cutoff = now.saturating_sub(ACTIVE_TIMEOUT_MS);
    let nodes = crds.get_nodes();
    let mut out: Vec<GossipNode> = Vec::new();
    let mut i: usize = 0;
    while i < nodes.len()
        invariant
            i <= nodes@.len(),
            cutoff == (if now >= ACTIVE_TIMEOUT_MS { now - ACTIVE_TIMEOUT_MS } else { 0 }),
            vs == match gossip_validators { Some(v) => Some(v@), None => None },
            forall|e: VersionedCrdsValue| #[trigger] nodes@.contains(e) <==> (crds@.contains(e) && is_contact(e.value.data)),
            forall|x: GossipNode| #[trigger] out@.contains(x) ==> exists|e: VersionedCrdsValue| {
                &&& #[trigger] crds@.contains(e)
                &&& is_contact(e.value.data)
                &&& x == (e.value.pubkey, contact_of(e.value.data))
                &&& gossip_peer(e, *pubkey, shred_version, vs, *socket_addr_space)
                &&& (recently_active(e, now) || stake_of(stakes@, pubkey_key(e.value.pubkey)) > 0)
            },
            forall|q: int| 0 <= q < i && recently_active(nodes@[q], now)
                && gossip_peer(nodes@[q], *pubkey, shred_version, vs, *socket_addr_space)
                ==> out@.contains(((#[trigger] nodes@[q]).value.pubkey, contact_of(nodes@[q].value.data))),
        decreases nodes@.len() - i,
    {
        let e = nodes[i];
        assert(nodes@.contains(e)) by {
            assert(nodes@[i as int] == e);
        }
        let c = match e.value.data {
            CrdsData::ContactInfo(c) => c,
            _ => {
                assert(false);
                return out;
            },
        };
        let mut keep = true;
        if e.local_timestamp < cutoff {
            let stake: u64 = match stakes.get(&e.value.pubkey.key()) {
                Some(s) => *s,
                None => 0,
            };
            if stake == 0 || !one_in_sixteen(rng) {
                keep = false;
            }
        }
        if keep {
            let other = !e.value.pubkey.same_as(pubkey);
            let same_version = c.shred_version == shred_version;
            let addr_ok = match c.gossip {
                Some(addr) => socket_addr_space.check(&addr),
                None => false,
            };
            let allowed = match gossip_validators {
                Some(v) => contains_pubkey(v, &e.value.pubkey),
                None => true,
            };
            if other && same_version && addr_ok && allowed {
                let ghost before = out@;
                out.push((e.value.pubkey, c));
                proof {
                    assert(gossip_peer(e, *pubkey, shred_version, vs, *socket_addr_space));
                    assert forall|x: GossipNode| #[trigger] out@.contains(x) implies exists|f: VersionedCrdsValue| {
                        &&& #[trigger] crds@.contains(f)
                        &&& is_contact(f.value.data)
                        &&& x == (f.value.pubkey, contact_of(f.value.data))
                        &&& gossip_peer(f, *pubkey, shred_version, vs, *socket_addr_space)
                        &&& (recently_active(f, now) || stake_of(stakes@, pubkey_key(f.value.pubkey)) > 0)
                    } by {
                        crate::crds::lemma_push_contains(before, (e.value.pubkey, c), x);
                        if x == (e.value.pubkey, c) {
                            assert(crds@.contains(e));
                        }
                    }
                    assert forall|q: int| 0 <= q < i + 1 && recently_active(nodes@[q], now)
                        && gossip_peer(nodes@[q], *pubkey, shred_version, vs, *socket_addr_space)
                        implies out@.contains(((#[trigger] nodes@[q]).value.pubkey, contact_of(nodes@[q].value.data))) by {
                        crate::crds::lemma_push_contains(before, (e.value.pubkey, c), (nodes@[q].value.pubkey, contact_of(nodes@[q].value.data)));
                    }
                }
            } else {
                proof {
                    assert(!gossip_peer(e, *pubkey, shred_version, vs, *socket_addr_space));
                }
            }
        }
        i += 1;
    }
    proof {
        assert forall|e: VersionedCrdsValue| #[trigger] crds@.contains(e) && is_contact(e.value.data) && recently_active(e, now)
            && gossip_peer(e, *pubkey, shred_version, vs, *socket_addr_space)
            implies out@.contains((e.value.pubkey, contact_of(e.value.data))) by {
            assert(nodes@.contains(e));
            let q = choose|q: int| 0 <= q < nodes@.len() && nodes@[q] == e;
        }
    }
    out
}

/// The stake of a node to gossip with.
pub open spec fn node_stake(stakes: Map<(u128, u128), u64>, n: GossipNode) -> u64 {
    stake_of(stakes, pubkey_key(n.0))
}

/// Node `j` is the one kept for gossip address `addr`: it has that
/// address, no node with it has more stake, and every node with it before
/// `j` has less.
pub open spec fn kept_for(nodes: Seq<GossipNode>, stakes: Map<(u128, u128), u64>, addr: SocketAddr, j: int) -> bool {
    &&& 0 <= j < nodes.len()
    &&& nodes[j].1.gossip == Some(addr)
    &&& forall|k: int| 0 <= k < nodes.len() && (#[trigger] nodes[k]).1.gossip == Some(addr) ==> {
        &&& node_stake(stakes, nodes[k]) <= node_stake(stakes, nodes[j])
        &&& (k < j ==> node_stake(stakes, nodes[k]) < node_stake(stakes, nodes[j]))
    }
}

/// Entry `e` holds the node kept for its address, and that node's stake.
pub open spec fn kept_entry(nodes: Seq<GossipNode>, stakes: Map<(u128, u128), u64>, e: (SocketAddr, u64, GossipNode)) -> bool {
    exists|j: int| #[trigger] kept_for(nodes, stakes, e.0, j) && e.2 == nodes[j] && e.1 == node_stake(stakes, nodes[j])
}

/// `out` holds, for each gossip address of `nodes`, once, the node kept
/// for it (see [`kept_for`]) with its stake.
pub open spec fn deduped(out: Seq<(SocketAddr, u64, GossipNode)>, nodes: Seq<GossipNode>, stakes: Map<(u128, u128), u64>) -> bool {
    &&& forall|a: int, b: int| 0 <= a < out.len() && 0 <= b < out.len() && a != b ==> (#[trigger] out[a]).0 != (#[trigger] out[b]).0
    &&& forall|a: int| 0 <= a < out.len() ==> #[trigger] kept_entry(nodes, stakes, out[a])
    &&& forall|k: int| 0 <= k < nodes.len() && (#[trigger] nodes[k]).1.gossip is Some ==> exists|a: int|
        0 <= a < out.len() && (#[trigger] out[a]).0 == nodes[k].1.gossip->0
}

/// A node kept for `addr` stays kept when a node comes after it that has
/// another address, or no more stake.
proof fn lemma_kept_after_push(t: Seq<GossipNode>, stakes: Map<(u128, u128), u64>, n: GossipNode, addr: SocketAddr, j: int)
    requires
        kept_for(t, stakes, addr, j),
        n.1.gossip != Some(addr) || node_stake(stakes, n) <= node_stake(stakes, t[j]),
    ensures
        kept_for(t.push(n), stakes, addr, j),
{
    let t1 = t.push(n);
    assert(t1[j] == t[j]);
    assert forall|k: int| 0 <= k < t1.len() && (#[trigger] t1[k]).1.gossip == Some(addr) implies {
        &&& node_stake(stakes, t1[k]) <= node_stake(stakes, t1[j])
        &&& (k < j ==> node_stake(stakes, t1[k]) < node_stake(stakes, t1[j]))
    } by {
        if k < t.len() {
            assert(t1[k] == t[k]);
        }
    }
}

/// The node that comes last is kept for its address when every node before
/// it with that address has less stake.
proof fn lemma_kept_last(t: Seq<GossipNode>, stakes: Map<(u128, u128), u64>, n: GossipNode, addr: SocketAddr)
    requires
        n.1.gossip == Some(addr),
        forall|k: int| 0 <= k < t.len() && (#[trigger] t[k]).1.gossip == Some(addr) ==> node_stake(stakes, t[k]) < node_stake(stakes, n),
    ensures
        kept_for(t.push(n), stakes, addr, t.len() as int),
{
    let t1 = t.push(n);
    assert forall|k: int| 0 <= k < t1.len() && (#[trigger] t1[k]).1.gossip == Some(addr) implies {
        &&& node_stake(stakes, t1[k]) <= node_stake(stakes, t1[t.len() as int])
        &&& (k < t.len() ==> node_stake(stakes, t1[k]) < node_stake(stakes, t1[t.len() as int]))
    } by {
        if k < t.len() {
            assert(t1[k] == t[k]);
        }
    }
}

/// A node without a gossip address changes nothing.
proof fn lemma_dedup_skip(out: Seq<(SocketAddr, u64, GossipNode)>, t: Seq<GossipNode>, stakes: Map<(u128, u128), u64>, n: GossipNode)
    requires
        deduped(out, t, stakes),
        n.1.gossip is None,
    ensures
        deduped(out, t.push(n), stakes),
{
    let t1 = t.push(n);
    assert forall|a: int| 0 <= a < out.len() implies #[trigger] kept_entry(t1, stakes, out[a]) by {
        assert(kept_entry(t, stakes, out[a]));
        let j = choose|j: int| #[trigger] kept_for(t, stakes, out[a].0, j) && out[a].2 == t[j] && out[a].1 == node_stake(stakes, t[j]);
        lemma_kept_after_push(t, stakes, n, out[a].0, j);
        assert(t1[j] == t[j]);
    }
    assert forall|k: int| 0 <= k < t1.len() && (#[trigger] t1[k]).1.gossip is Some implies exists|a: int|
        0 <= a < out.len() && (#[trigger] out[a]).0 == t1[k].1.gossip->0 by {
        assert(t1[k] == t[k]);
    }
}

/// A node whose address is kept already, with at least its stake, changes
/// nothing.
proof fn lemma_dedup_keep(out: Seq<(SocketAddr, u64, GossipNode)>, t: Seq<GossipNode>, stakes: Map<(u128, u128), u64>, n: GossipNode, p: int)
    requires
        deduped(out, t, stakes),
        0 <= p < out.len(),
        n.1.gossip == Some(out[p].0),
        node_stake(stakes, n) <= out[p].1,
    ensures
        deduped(out, t.push(n), stakes),
{
    let t1 = t.push(n);
    assert forall|a: int| 0 <= a < out.len() implies #[trigger] kept_entry(t1, stakes, out[a]) by {
        assert(kept_entry(t, stakes, out[a]));
        let j = choose|j: int| #[trigger] kept_for(t, stakes, out[a].0, j) && out[a].2 == t[j] && out[a].1 == node_stake(stakes, t[j]);
        if a != p {
            assert(out[a].0 != out[p].0);
        }
        lemma_kept_after_push(t, stakes, n, out[a].0, j);
        assert(t1[j] == t[j]);
    }
    assert forall|k: int| 0 <= k < t1.len() && (#[trigger] t1[k]).1.gossip is Some implies exists|a: int|
        0 <= a < out.len() && (#[trigger] out[a]).0 == t1[k].1.gossip->0 by {
        if k < t.len() {
            assert(t1[k] == t[k]);
        } else {
            assert(out[p].0 == t1[k].1.gossip->0);
        }
    }
}

/// A node whose address is kept already, with less stake than it has,
/// takes the place of the one kept.
proof fn lemma_dedup_replace(out: Seq<(SocketAddr, u64, GossipNode)>, t: Seq<GossipNode>, stakes: Map<(u128, u128), u64>, n: GossipNode, p: int)
    requires
        deduped(out, t, stakes),
        0 <= p < out.len(),
        n.1.gossip == Some(out[p].0),
        out[p].1 < node_stake(stakes, n),
    ensures
        deduped(out.update(p, (out[p].0, node_stake(stakes, n), n)), t.push(n), stakes),
{
    let t1 = t.push(n);
    let addr = out[p].0;
    let out1 = out.update(p, (addr, node_stake(stakes, n), n));
    assert forall|a: int| 0 <= a < out1.len() implies (#[trigger] out1[a]).0 == out[a].0 by {}
    assert forall|a: int, b: int| 0 <= a < out1.len() && 0 <= b < out1.len() && a != b implies (#[trigger] out1[a]).0 != (#[trigger] out1[b]).0 by {
        assert(out1[a].0 == out[a].0 && out1[b].0 == out[b].0);
    }
    assert(kept_entry(t, stakes, out[p]));
    let j0 = choose|j: int| #[trigger] kept_for(t, stakes, out[p].0, j) && out[p].2 == t[j] && out[p].1 == node_stake(stakes, t[j]);
    assert forall|a: int| 0 <= a < out1.len() implies #[trigger] kept_entry(t1, stakes, out1[a]) by {
        if a == p {
            assert forall|k: int| 0 <= k < t.len() && (#[trigger] t[k]).1.gossip == Some(addr) implies node_stake(stakes, t[k]) < node_stake(stakes, n) by {}
            lemma_kept_last(t, stakes, n, addr);
            assert(t1[t.len() as int] == n);
        } else {
            assert(kept_entry(t, stakes, out[a]));
            let j = choose|j: int| #[trigger] kept_for(t, stakes, out[a].0, j) && out[a].2 == t[j] && out[a].1 == node_stake(stakes, t[j]);
            assert(out[a].0 != addr);
            lemma_kept_after_push(t, stakes, n, out[a].0, j);
            assert(t1[j] == t[j]);
            assert(out1[a] == out[a]);
        }
    }
    assert forall|k: int| 0 <= k < t1.len() && (#[trigger] t1[k]).1.gossip is Some implies exists|a: int|
        0 <= a < out1.len() && (#[trigger] out1[a]).0 == t1[k].1.gossip->0 by {
        if k < t.len() {
            assert(t1[k] == t[k]);
            let a = choose|a: int| 0 <= a < out.len() && (#[trigger] out[a]).0 == t[k].1.gossip->0;
            assert(out1[a].0 == out[a].0);
        } else {
            assert(out1[p].0 == addr);
        }
    }
}

/// A node whose address nothing kept has yet is kept for it.
proof fn lemma_dedup_new(out: Seq<(SocketAddr, u64, GossipNode)>, t: Seq<GossipNode>, stakes: Map<(u128, u128), u64>, n: GossipNode, addr: SocketAddr)
    requires
        deduped(out, t, stakes),
        n.1.gossip == Some(addr),
        forall|a: int| 0 <= a < out.len() ==> (#[trigger] out[a]).0 != addr,
    ensures
        deduped(out.push((addr, node_stake(stakes, n), n)), t.push(n), stakes),
{
    let t1 = t.push(n);
    let out1 = out.push((addr, node_stake(stakes, n), n));
    assert forall|a: int, b: int| 0 <= a < out1.len() && 0 <= b < out1.len() && a != b implies (#[trigger] out1[a]).0 != (#[trigger] out1[b]).0 by {
        if a < out.len() {
            assert(out1[a] == out[a]);
        }
        if b < out.len() {
            assert(out1[b] == out[b]);
        }
    }
    assert forall|a: int| 0 <= a < out1.len() implies #[trigger] kept_entry(t1, stakes, out1[a]) by {
        if a < out.len() {
            assert(kept_entry(t, stakes, out[a]));
            let j = choose|j: int| #[trigger] kept_for(t, stakes, out[a].0, j) && out[a].2 == t[j] && out[a].1 == node_stake(stakes, t[j]);
            lemma_kept_after_push(t, stakes, n, out[a].0, j);
            assert(t1[j] == t[j]);
            assert(out1[a] == out[a]);
        } else {
            assert forall|k: int| 0 <= k < t.len() && (#[trigger] t[k]).1.gossip == Some(addr) implies node_stake(stakes, t[k]) < node_stake(stakes, n) by {
                let b = choose|b: int| 0 <= b < out.len() && (#[trigger] out[b]).0 == t[k].1.gossip->0;
            }
            lemma_kept_last(t, stakes, n, addr);
            assert(t1[t.len() as int] == n);
        }
    }
    assert forall|k: int| 0 <= k < t1.len() && (#[trigger] t1[k]).1.gossip is Some implies exists|a: int|
        0 <= a < out1.len() && (#[trigger] out1[a]).0 == t1[k].1.gossip->0 by {
        if k < t.len() {
            assert(t1[k] == t[k]);
            let a = choose|a: int| 0 <= a < out.len() && (#[trigger] out[a]).0 == t[k].1.gossip->0;
            assert(out1[a] == out[a]);
        } else {
            assert(out1[out.len() as int].0 == addr);
        }
    }
}

/// Where among the kept entries the one for `addr` stands; their number
/// when there is none.
fn position_of_gossip_addr(out: &Vec<(SocketAddr, u64, GossipNode)>, addr: &SocketAddr) -> (p: usize)
    ensures
        p <= out@.len(),
        p < out@.len() ==> out@[p as int].0 == *addr,
        forall|a: int| 0 <= a < p ==> (#[trigger] out@[a]).0 != *addr,
{
    let mut p: usize = 0;
    while p < out.len()
        invariant
            p <= out@.len(),
            forall|a: int| 0 <= a < p ==> (#[trigger] out@[a]).0 != *addr,
        decreases out@.len() - p,
    {
        if out[p].0.same_as(addr) {
            return p;
        }
        p += 1;
    }
    p
}

/// The nodes to gossip with, one per gossip address: the one with the most
/// stake, the first of them on a tie. Nodes without a gossip address are
/// left out.
pub fn dedup_gossip_addresses(nodes: Vec<GossipNode>, stakes: &BTreeMap<(u128, u128), u64>) -> (r: Vec<(SocketAddr, u64, GossipNode)>)
    ensures
        deduped(r@, nodes@, stakes@),
{
    let mut out: Vec<(SocketAddr, u64, GossipNode)> = Vec::new();
    let mut i: usize = 0;
    while i < nodes.len()
        invariant
            i <= nodes@.len(),
            deduped(out@, nodes@.take(i as int), stakes@),
        decreases nodes@.len() - i,
    {
        let n = nodes[i];
        let ghost t = nodes@.take(i as int);
        proof {
            assert(nodes@.take(i + 1) =~= t.push(n));
        }
        match n.1.gossip {
            None => {
                proof {
                    lemma_dedup_skip(out@, t, stakes@, n);
                }
            },
            Some(addr) => {
                let stake: u64 = match stakes.get(&n.0.key()) {
                    Some(s) => *s,
                    None => 0,
                };
                assert(stake == node_stake(stakes@, n));
                let p = position_of_gossip_addr(&out, &addr);
                if p < out.len() {
                    if out[p].1 < stake {
                        proof {
                            lemma_dedup_replace(out@, t, stakes@, n, p as int);
                        }
                        out.set(p, (addr, stake, n));
                    } else {
                        proof {
                            lemma_dedup_keep(out@, t, stakes@, n, p as int);
                        }
                    }
                } else {
                    proof {
                        lemma_dedup_new(out@, t, stakes@, n, addr);
                    }
                    out.push((addr, stake, n));
                }
            },
        }
        i += 1;
    }
    proof {
        assert(nodes@.take(nodes@.len() as int) =~= nodes@);
    }
    out
}

/// A ping to send: the address, the node's key, and whether the token keys
/// rotate before it is made.
pub type GossipPing = (SocketAddr, Pubkey, bool);

/// What checking `nodes` against the ping cache in `s` at `now` gives, in
/// order: the cache after, the nodes that are verified, and the pings to
/// send. Nodes without a gossip address are left out and change nothing.
pub open spec fn ping_fold(s: PingCacheState, nodes: Seq<GossipNode>, now: u64) -> (PingCacheState, Seq<GossipNode>, Seq<GossipPing>)
    decreases nodes.len(),
{
    if nodes.len() == 0 {
        (s, Seq::empty(), Seq::empty())
    } else {
        let (s0, kept, pings) = ping_fold(s, nodes.drop_last(), now);
        let n = nodes.last();
        match n.1.gossip {
            None => (s0, kept, pings),
            Some(addr) => {
                let (s1, verified, due) = check_step(s0, now, remote_key(n.0, addr));
                let pings1 = match due {
                    PingDue::Yes { rotate_keys } => pings.push((addr, n.0, rotate_keys)),
                    PingDue::No => pings,
                };
                (s1, if verified { kept.push(n) } else { kept }, pings1)
            },
        }
    }
}

/// The nodes found verified are among those given, each with a gossip
/// address, and each ping goes to the gossip address of a node given.
pub proof fn law_pinging_stays_within_the_nodes(s: PingCacheState, nodes: Seq<GossipNode>, now: u64)
    ensures
        forall|x: GossipNode| #[trigger] ping_fold(s, nodes, now).1.contains(x) ==> nodes.contains(x) && x.1.gossip is Some,
        forall|q: GossipPing| #[trigger] ping_fold(s, nodes, now).2.contains(q) ==> exists|n: GossipNode|
            #[trigger] nodes.contains(n) && n.0 == q.1 && n.1.gossip == Some(q.0),
    decreases nodes.len(),
{
    if nodes.len() > 0 {
        let init = nodes.drop_last();
        let n = nodes.last();
        law_pinging_stays_within_the_nodes(s, init, now);
        let (s0, kept, pings) = ping_fold(s, init, now);
        assert(nodes.contains(n)) by {
            assert(nodes[nodes.len() - 1] == n);
        }
        assert forall|x: GossipNode| #[trigger] init.contains(x) implies nodes.contains(x) by {
            let j = choose|j: int| 0 <= j < init.len() && init[j] == x;
            assert(nodes[j] == x);
        }
        assert forall|x: GossipNode| #[trigger] ping_fold(s, nodes, now).1.contains(x) implies nodes.contains(x) && x.1.gossip is Some by {
            if !kept.contains(x) {
                crate::crds::lemma_push_contains(kept, n, x);
            }
        }
        assert forall|q: GossipPing| #[trigger] ping_fold(s, nodes, now).2.contains(q) implies exists|m: GossipNode|
            #[trigger] nodes.contains(m) && m.0 == q.1 && m.1.gossip == Some(q.0) by {
            if pings.contains(q) {
                let m = choose|m: GossipNode| #[trigger] init.contains(m) && m.0 == q.1 && m.1.gossip == Some(q.0);
                assert(nodes.contains(m));
            } else {
                match n.1.gossip {
                    Some(addr) => {
                        let (s1, verified, due) = check_step(s0, now, remote_key(n.0, addr));
                        match due {
                            PingDue::Yes { rotate_keys } => {
                                crate::crds::lemma_push_contains(pings, (addr, n.0, rotate_keys), q);
                            },
                            PingDue::No => {},
                        }
                    },
                    None => {},
                }
            }
        }
    }
}

/// Checks each node with a gossip address against the ping cache at `now`:
/// returns the nodes that have answered a ping recently, and the pings to
/// send (see [`ping_fold`]).
pub fn maybe_ping_gossip_addresses(cache: &mut PingCache, nodes: Vec<GossipNode>, now: u64) -> (r: (Vec<GossipNode>, Vec<GossipPing>))
    requires
        old(cache).wf(),
    ensures
        final(cache).wf(),
        (final(cache).state(), r.0@, r.1@) == ping_fold(old(cache).state(), nodes@, now),
{
    let ghost s0 = cache.state();
    let mut kept: Vec<GossipNode> = Vec::new();
    let mut pings: Vec<GossipPing> = Vec::new();
    let mut i: usize = 0;
    while i < nodes.len()
        invariant
            i <= nodes@.len(),
            cache.wf(),
            (cache.state(), kept@, pings@) == ping_fold(s0, nodes@.take(i as int), now),
        decreases nodes@.len() - i,
    {
        let n = nodes[i];
        proof {
            assert(nodes@.take(i + 1).drop_last() =~= nodes@.take(i as int));
            assert(nodes@.take(i + 1).last() == n);
        }
        match n.1.gossip {
            None => {},
            Some(addr) => {
                let remote = remote_node_key(&n.0, &addr);
                let (verified, due) = cache.check(now, remote);
                match due {
                    PingDue::Yes { rotate_keys } => {
                        pings.push((addr, n.0, rotate_keys));
                    },
                    PingDue::No => {},
                }
                if verified {
                    kept.push(n);
                }
            },
        }
        i += 1;
    }
    proof {
        assert(nodes@.take(nodes@.len() as int) =~= nodes@);
    }
    (kept, pings)
}

/// What storing `values`, in order, as this node's own at `now` does to the
/// table; a value that is refused changes nothing.
pub open spec fn insert_own(s: CrdsState, values: Seq<CrdsValue>, now: u64) -> CrdsState
    decreases values.len(),
{
    if values.len() == 0 {
        s
    } else {
        spec_insert(insert_own(s, values.drop_last(), now), values.last(), now, GossipRoute::LocalMessage).0
    }
}

/// The values of a duplicate shred proof for `slot` from `pubkey`, made at
/// `now`: chunk `j`, known by `hashes[j]` (the hash of the signed chunk),
/// stored under index `(offset + j) % MAX_DUPLICATE_SHREDS`.
pub open spec fn duplicate_shred_values(pubkey: Pubkey, slot: u64, now: u64, offset: u16, hashes: Seq<crate::crds_value::ValueHash>) -> Seq<CrdsValue> {
    Seq::new(hashes.len(), |j: int| CrdsValue {
        data: CrdsData::DuplicateShred(((offset + j) % (MAX_DUPLICATE_SHREDS as int)) as u16, slot),
        pubkey,
        wallclock: now,
        hash: hashes[j],
    })
}

/// The gossip state of a node.
pub struct CrdsGossip {
    pub crds: Crds,
    pub push: CrdsGossipPush,
}

impl CrdsGossip {
    /// An empty table, and a push side with the default settings.
    pub fn new() -> (r: Self)
        ensures
            r.crds.wf(),
            r.crds@.len() == 0,
            r.crds.spec_cursor() == 0,
            r.push.spec_cursor() == 0,
            r.push.spec_msg_timeout() == crate::crds_gossip_push::CRDS_GOSSIP_PUSH_MSG_TIMEOUT_MS,
            r.push.spec_prune_timeout() == crate::crds_gossip_push::CRDS_GOSSIP_PRUNE_MSG_TIMEOUT_MS,
    {
        CrdsGossip { crds: Crds::new(), push: CrdsGossipPush::new() }
    }

    /// Stores the pushed values (see
    /// [`CrdsGossipPush::process_push_message`]); returns the nodes whose
    /// values were stored.
    pub fn process_push_message(&mut self, messages: Vec<(Pubkey, Vec<CrdsValue>)>, now: u64) -> (r: Vec<Pubkey>)
        requires
            old(self).crds.wf(),
            old(self).crds.spec_cursor() + total_values(messages@) < u64::MAX,
        ensures
            final(self).crds.wf(),
            final(self).push == old(self).push,
            ({
                let (s, origins, _) = push_messages(old(self).crds.state(), messages@, now, old(self).push.spec_msg_timeout());
                &&& final(self).crds.state() == s
                &&& r@.no_duplicates()
                &&& forall|pk: Pubkey| #[trigger] r@.contains(pk) <==> origins.contains(pk)
            }),
    {
        self.push.process_push_message(&mut self.crds, messages, now)
    }

    /// The indices under which this node, `pubkey`, stores the
    /// `num_chunks` chunks of a new duplicate shred proof for `slot`:
    /// consecutive from the offset that [`Crds::duplicate_shred_offset`]
    /// gives, wrapping at the most it keeps. `None` when the node holds a
    /// proof for that slot already, and nothing is to be pushed.
    pub fn duplicate_shred_indices(&self, pubkey: &Pubkey, slot: u64, num_chunks: u8) -> (r: Option<Vec<u16>>)
        requires
            self.crds.wf(),
        ensures
            r is None <==> duplicate_shred_offset_of(self.crds@, pubkey_key(*pubkey), slot, None),
            r matches Some(ixs) ==> exists|offset: u16| {
                &&& #[trigger] duplicate_shred_offset_of(self.crds@, pubkey_key(*pubkey), slot, Some(offset))
                &&& ixs@.len() == num_chunks
                &&& forall|c: int| 0 <= c < num_chunks ==> #[trigger] ixs@[c] == (offset + c) % (MAX_DUPLICATE_SHREDS as int)
            },
    {
        match self.crds.duplicate_shred_offset(pubkey, slot) {
            None => None,
            Some(offset) => {
                let mut ixs: Vec<u16> = Vec::new();
                let mut c: u8 = 0;
                while c < num_chunks
                    invariant
                        c <= num_chunks,
                        ixs@.len() == c,
                        forall|q: int| 0 <= q < c ==> #[trigger] ixs@[q] == (offset + q) % (MAX_DUPLICATE_SHREDS as int),
                    decreases num_chunks - c,
                {
                    let ix = ((offset as u32 + c as u32) % (MAX_DUPLICATE_SHREDS as u32)) as u16;
                    ixs.push(ix);
                    c += 1;
                }
                Some(ixs)
            },
        }
    }

    /// Pushes a duplicate shred proof for `slot` as this node's, `pubkey`'s,
    /// own values at `now`, one per chunk, chunk `j` being known by
    /// `chunk_hashes[j]` (the hash of the signed chunk): chunk `j` is stored
    /// under index `(offset + j) % MAX_DUPLICATE_SHREDS`, the offset being
    /// the one that [`Crds::duplicate_shred_offset`] gives. When the node
    /// holds a proof for that slot already, nothing is pushed; returns
    /// whether the proof was pushed.
    pub fn push_duplicate_shred(&mut self, pubkey: &Pubkey, slot: u64, chunk_hashes: &Vec<crate::crds_value::ValueHash>, now: u64) -> (r: bool)
        requires
            old(self).crds.wf(),
            chunk_hashes@.len() <= u8::MAX,
            old(self).crds.spec_cursor() + chunk_hashes@.len() < u64::MAX,
        ensures
            final(self).crds.wf(),
            final(self).push == old(self).push,
            !r <==> duplicate_shred_offset_of(old(self).crds@, pubkey_key(*pubkey), slot, None),
            !r ==> final(self).crds.state() == old(self).crds.state(),
            r ==> exists|offset: u16| {
                &&& #[trigger] duplicate_shred_offset_of(old(self).crds@, pubkey_key(*pubkey), slot, Some(offset))
                &&& final(self).crds.state() == insert_own(
                    old(self).crds.state(),
                    duplicate_shred_values(*pubkey, slot, now, offset, chunk_hashes@),
                    now,
                )
            },
    {
        let n = chunk_hashes.len();
        match self.duplicate_shred_indices(pubkey, slot, n as u8) {
            None => false,
            Some(ixs) => {
                let ghost offset = choose|offset: u16| {
                    &&& #[trigger] duplicate_shred_offset_of(self.crds@, pubkey_key(*pubkey), slot, Some(offset))
                    &&& ixs@.len() == n as u8
                    &&& forall|c: int| 0 <= c < n as u8 ==> #[trigger] ixs@[c] == (offset + c) % (MAX_DUPLICATE_SHREDS as int)
                };
                let ghost want = duplicate_shred_values(*pubkey, slot, now, offset, chunk_hashes@);
                let mut values: Vec<CrdsValue> = Vec::new();
                let mut j: usize = 0;
                while j < n
                    invariant
                        n == chunk_hashes@.len(),
                        n <= u8::MAX,
                        ixs@.len() == n,
                        forall|c: int| 0 <= c < n ==> #[trigger] ixs@[c] == (offset + c) % (MAX_DUPLICATE_SHREDS as int),
                        want == duplicate_shred_values(*pubkey, slot, now, offset, chunk_hashes@),
                        j <= n,
                        values@ == want.take(j as int),
                    decreases n - j,
                {
                    let v = CrdsValue {
                        data: CrdsData::DuplicateShred(ixs[j], slot),
                        pubkey: *pubkey,
                        wallclock: now,
                        hash: chunk_hashes[j],
                    };
                    proof {
                        assert(ixs@[j as int] == (offset + j) % (MAX_DUPLICATE_SHREDS as int));
                        assert(v == want[j as int]);
                        assert(want.take(j + 1) =~= want.take(j as int).push(v));
                    }
                    values.push(v);
                    j += 1;
                }
                proof {
                    assert(want.take(n as int) =~= want);
                }
                self.insert_duplicate_shred_chunks(values, now);
                true
            },
        }
    }

    /// Stores the chunks of a duplicate shred proof as this node's own values
    /// at `now`, in order; a chunk that is refused is skipped. The chunks
    /// are signed for the indices that
    /// [`CrdsGossip::duplicate_shred_indices`] gives.
    pub fn insert_duplicate_shred_chunks(&mut self, chunks: Vec<CrdsValue>, now: u64)
        requires
            old(self).crds.wf(),
            old(self).crds.spec_cursor() + chunks@.len() < u64::MAX,
        ensures
            final(self).crds.wf(),
            final(self).push == old(self).push,
            final(self).crds.state() == insert_own(old(self).crds.state(), chunks@, now),
    {
        let ghost s0 = self.crds.state();
        let mut i: usize = 0;
        while i < chunks.len()
            invariant
                self.crds.wf(),
                self.push == old(self).push,
                i <= chunks@.len(),
                s0 == old(self).crds.state(),
                s0.cursor + chunks@.len() < u64::MAX,
                self.crds.spec_cursor() <= s0.cursor + i,
                self.crds.state() == insert_own(s0, chunks@.take(i as int), now),
            decreases chunks@.len() - i,
        {
            let chunk = chunks[i];
            proof {
                assert(chunks@.take(i + 1).drop_last() =~= chunks@.take(i as int));
                assert(chunks@.take(i + 1).last() == chunk);
            }
            let _ = self.crds.insert(chunk, now, GossipRoute::LocalMessage);
            i += 1;
        }
        proof {
            assert(chunks@.take(chunks@.len() as int) =~= chunks@);
        }
    }

    /// Checks a prune message from `peer` for `destination`, made at
    /// `wallclock`: it must not be older than the prune timeout at `now`,
    /// and must be meant for this node. Only the verdict is given: this
    /// crate keeps no push active set, so an accepted prune changes nothing
    /// here, and `peer` and `origin` (the peer to stop pushing those
    /// origins' values to) are not used.
    pub fn process_prune_msg(
        &self,
        self_pubkey: &Pubkey,
        peer: &Pubkey,
        destination: &Pubkey,
        origin: &[Pubkey],
        wallclock: u64,
        now: u64,
    ) -> (r: Result<(), CrdsGossipError>)
        ensures
            r == prune_verdict(self.push.spec_prune_timeout(), *self_pubkey, *destination, wallclock, now),
    {
        let timeout = self.push.prune_timeout();
        if now > wallclock.saturating_add(timeout) {
            Err(CrdsGossipError::PruneMessageTimeout)
        } else if self_pubkey.same_as(destination) {
            Ok(())
        } else {
            Err(CrdsGossipError::BadPruneDestination)
        }
    }
}

} // verus!
