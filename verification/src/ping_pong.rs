//! Which remote nodes have answered a ping recently: the cache of pongs
//! received and pings sent, and when to ping a node again.
//!
//! Times are milliseconds on one monotonic clock. The tokens of pings and
//! the hashes of pongs are made and checked by the caller, who holds the
//! keys; the cache says when a ping is due and when those keys rotate.

use vstd::prelude::*;
use lru::LruCache;
use crate::pubkey::Pubkey;
use crate::crds_value::pubkey_key;
use crate::socket::{IpAddr, SocketAddr};

verus! {

/// How often the keys that make ping tokens change, in milliseconds.
pub const KEY_REFRESH_CADENCE_MS: u64 = 60_000;

/// A remote node, a key and an address, as the caches look it up: the
/// key's two halves, the address's two halves, and the port (plus 65536
/// for an IPv6 address).
pub type RemoteKey = (u128, u128, u64, u64, u32);

/// Four 16-bit segments, big-endian, as one number.
pub open spec fn segments_value(s: Seq<u16>, from: int) -> int {
    ((s[from] * 65536 + s[from + 1]) * 65536 + s[from + 2]) * 65536 + s[from + 3]
}

/// Four octets, big-endian, as one number.
pub open spec fn octets_value(o: Seq<u8>) -> int {
    ((o[0] * 256 + o[1]) * 256 + o[2]) * 256 + o[3]
}

/// The lookup key of the node with key `pk` at `addr`.
pub open spec fn remote_key(pk: Pubkey, addr: SocketAddr) -> RemoteKey {
    let (a, b) = pubkey_key(pk);
    match addr.ip {
        IpAddr::V4(o) => (a, b, 0, octets_value(o@) as u64, addr.port as u32),
        IpAddr::V6(s) => (a, b, segments_value(s@, 0) as u64, segments_value(s@, 4) as u64, (addr.port + 65536) as u32),
    }
}

/// Four 16-bit segments from `from` on, big-endian, as one number.
fn segments_u64(s: &[u16; 8], from: usize) -> (r: u64)
    requires
        from == 0 || from == 4,
    ensures
        r == segments_value(s@, from as int),
{
    let a = s[from] as u64;
    let b = s[from + 1] as u64;
    let c = s[from + 2] as u64;
    let d = s[from + 3] as u64;
    assert(a * 65536 + b <= 0xffff_ffff) by (nonlinear_arith)
        requires
            a <= 0xffff,
            b <= 0xffff,
    ;
    let ab = a * 65536 + b;
    assert(ab * 65536 + c <= 0xffff_ffff_ffff) by (nonlinear_arith)
        requires
            ab <= 0xffff_ffff,
            c <= 0xffff,
    ;
    let abc = ab * 65536 + c;
    assert(abc * 65536 + d <= 0xffff_ffff_ffff_ffff) by (nonlinear_arith)
        requires
            abc <= 0xffff_ffff_ffff,
            d <= 0xffff,
    ;
    abc * 65536 + d
}

/// The lookup key of the node with key `pubkey` at `addr`.
pub fn remote_node_key(pubkey: &Pubkey, addr: &SocketAddr) -> (r: RemoteKey)
    ensures
        r == remote_key(*pubkey, *addr),
{
    let (a, b) = pubkey.key();
    match addr.ip {
        IpAddr::V4(o) => {
            let v = ((o[0] as u64 * 256 + o[1] as u64) * 256 + o[2] as u64) * 256 + o[3] as u64;
            (a, b, 0, v, addr.port as u32)
        },
        IpAddr::V6(s) => {
            let hi = segments_u64(&s, 0);
            let lo = segments_u64(&s, 4);
            (a, b, hi, lo, addr.port as u32 + 65536)
        },
    }
}

#[verifier::external_type_specification]
#[verifier::external_body]
#[verifier::reject_recursive_types(K)]
#[verifier::reject_recursive_types(V)]
#[verifier::reject_recursive_types(S)]
pub struct ExLruCache<K, V, S>(lru::LruCache<K, V, S>);

#[verifier::external_type_specification]
#[verifier::external_body]
pub struct ExDefaultHasher(lru::DefaultHasher);

/// What an LRU cache of remote nodes holds: each node once, with a time,
/// from the least recently used to the most recently used.
pub uninterp spec fn lru_entries(c: LruCache<RemoteKey, u64>) -> Seq<(RemoteKey, u64)>;

/// The most entries an LRU cache of remote nodes holds.
pub uninterp spec fn lru_cap(c: LruCache<RemoteKey, u64>) -> nat;

/// The position of the entry for `k` in `s`, or -1 if there is none (the
/// last such entry; the caches hold each key once).
pub open spec fn key_index(s: Seq<(RemoteKey, u64)>, k: RemoteKey) -> int
    decreases s.len(),
{
    if s.len() == 0 {
        -1
    } else if s.last().0 == k {
        s.len() - 1
    } else {
        key_index(s.drop_last(), k)
    }
}

/// The time held for `k`, if any.
pub open spec fn lru_lookup(s: Seq<(RemoteKey, u64)>, k: RemoteKey) -> Option<u64> {
    let i = key_index(s, k);
    if i >= 0 { Some(s[i].1) } else { None }
}

/// The entries after `k` is used: moved to the most recent end.
pub open spec fn lru_touched(s: Seq<(RemoteKey, u64)>, k: RemoteKey) -> Seq<(RemoteKey, u64)> {
    let i = key_index(s, k);
    if i >= 0 { s.remove(i).push(s[i]) } else { s }
}

/// The entries after `k` is removed.
pub open spec fn lru_removed(s: Seq<(RemoteKey, u64)>, k: RemoteKey) -> Seq<(RemoteKey, u64)> {
    let i = key_index(s, k);
    if i >= 0 { s.remove(i) } else { s }
}

/// The entries after `k` is put with time `t` into a cache of `cap`
/// entries: an entry for `k` takes the new time and becomes the most
/// recent; a new one is added as the most recent, in place of the least
/// recent when the cache is full; a cache of no entries stays empty.
pub open spec fn lru_put_spec(s: Seq<(RemoteKey, u64)>, cap: nat, k: RemoteKey, t: u64) -> Seq<(RemoteKey, u64)> {
    let i = key_index(s, k);
    if i >= 0 {
        s.remove(i).push((k, t))
    } else if cap == 0 {
        s
    } else if s.len() == cap {
        s.drop_first().push((k, t))
    } else {
        s.push((k, t))
    }
}

/// `LruCache::new(cap)`: an empty cache of `cap` entries.
#[verifier::external_body]
fn lru_new(cap: usize) -> (r: LruCache<RemoteKey, u64>)
    ensures
        lru_entries(r) == Seq::<(RemoteKey, u64)>::empty(),
        lru_cap(r) == cap,
{
    LruCache::new(cap)
}

/// `LruCache::get`: the time held for `k`, which becomes the most recently
/// used.
#[verifier::external_body]
fn lru_get(c: &mut LruCache<RemoteKey, u64>, k: &RemoteKey) -> (r: Option<u64>)
    ensures
        r == lru_lookup(lru_entries(*old(c)), *k),
        lru_entries(*final(c)) == lru_touched(lru_entries(*old(c)), *k),
        lru_cap(*final(c)) == lru_cap(*old(c)),
{
    c.get(k).copied()
}

/// `LruCache::peek`: the time held for `k`, leaving the order as it is.
#[verifier::external_body]
fn lru_peek(c: &LruCache<RemoteKey, u64>, k: &RemoteKey) -> (r: Option<u64>)
    ensures
        r == lru_lookup(lru_entries(*c), *k),
{
    c.peek(k).copied()
}

/// `LruCache::pop`: removes the entry for `k`, returning its time.
#[verifier::external_body]
fn lru_pop(c: &mut LruCache<RemoteKey, u64>, k: &RemoteKey) -> (r: Option<u64>)
    ensures
        r == lru_lookup(lru_entries(*old(c)), *k),
        lru_entries(*final(c)) == lru_removed(lru_entries(*old(c)), *k),
        lru_cap(*final(c)) == lru_cap(*old(c)),
{
    c.pop(k)
}

/// `LruCache::put`: `k` now holds `t` (see [`lru_put_spec`]); returns the
/// time it held before.
#[verifier::external_body]
fn lru_put(c: &mut LruCache<RemoteKey, u64>, k: RemoteKey, t: u64) -> (r: Option<u64>)
    ensures
        r == lru_lookup(lru_entries(*old(c)), k),
        lru_entries(*final(c)) == lru_put_spec(lru_entries(*old(c)), lru_cap(*old(c)), k, t),
        lru_cap(*final(c)) == lru_cap(*old(c)),
{
    c.put(k, t)
}

/// Whether a ping is due, and whether the token keys rotate first.
#[derive(Clone, Copy, Debug, PartialEq, Eq)]
pub enum PingDue {
    /// Send no ping.
    No,
    /// Send a ping, made with the current key after rotating the keys when
    /// `rotate_keys` holds.
    Yes { rotate_keys: bool },
}

/// Whether two hashes are the same.
fn same_hash(a: &[u8; 32], b: &[u8; 32]) -> (r: bool)
    ensures
        r == (a@ == b@),
{
    let mut i: usize = 0;
    while i < 32
        invariant
            i <= 32,
            a@.len() == 32,
            b@.len() == 32,
            forall|j: int| 0 <= j < i ==> a@[j] == b@[j],
        decreases 32 - i,
    {
        if a[i] != b[i] {
            assert(a@[i as int] != b@[i as int]);
            return false;
        }
        i += 1;
    }
    assert(a@ =~= b@);
    true
}

/// The cache of pongs received and pings sent.
pub struct PingCache {
    /// How long a pong is valid.
    ttl: u64,
    /// How long to wait before pinging a node again.
    rate_limit_delay: u64,
    /// When the token keys last changed.
    key_refresh: u64,
    /// When each node was last pinged.
    pings: LruCache<RemoteKey, u64>,
    /// When each node last answered.
    pongs: LruCache<RemoteKey, u64>,
}

/// The state of a ping cache.
pub struct PingCacheState {
    pub ttl: u64,
    pub rate_limit_delay: u64,
    pub key_refresh: u64,
    pub pings: Seq<(RemoteKey, u64)>,
    pub pongs: Seq<(RemoteKey, u64)>,
    pub cap: nat,
}

/// Whether the keys rotate at `now`: more than the refresh cadence has
/// passed since they last did.
pub open spec fn keys_rotate(key_refresh: u64, now: u64) -> bool {
    now >= key_refresh && now - key_refresh > KEY_REFRESH_CADENCE_MS
}

/// What pinging `k` at `now` does, when a ping is wanted: nothing while the
/// last ping is recent; else the ping is recorded, the keys rotate if due,
/// and a ping is sent.
pub open spec fn maybe_ping_step(s: PingCacheState, now: u64, k: RemoteKey) -> (PingCacheState, PingDue) {
    let recent = match lru_lookup(s.pings, k) {
        Some(t) => (if now >= t { now - t } else { 0 }) < s.rate_limit_delay,
        None => false,
    };
    if recent {
        (s, PingDue::No)
    } else {
        let rotate = keys_rotate(s.key_refresh, now);
        (
            PingCacheState {
                pings: lru_put_spec(s.pings, s.cap, k, now),
                key_refresh: if rotate { now } else { s.key_refresh },
                ..s
            },
            PingDue::Yes { rotate_keys: rotate },
        )
    }
}

/// What checking `k` at `now` does: a node is verified when it has a pong
/// on record; the pong is dropped once older than the ttl, and a ping is
/// wanted when there is no pong or it is older than an eighth of the ttl.
pub open spec fn check_step(s: PingCacheState, now: u64, k: RemoteKey) -> (PingCacheState, bool, PingDue) {
    match lru_lookup(s.pongs, k) {
        None => {
            let (s2, due) = maybe_ping_step(PingCacheState { pongs: lru_touched(s.pongs, k), ..s }, now, k);
            (s2, false, due)
        },
        Some(t) => {
            let age: int = if now >= t { now - t } else { 0 };
            let pongs = if age > s.ttl { lru_removed(lru_touched(s.pongs, k), k) } else { lru_touched(s.pongs, k) };
            let s1 = PingCacheState { pongs, ..s };
            if 8 * age > s.ttl {
                let (s2, due) = maybe_ping_step(s1, now, k);
                (s2, true, due)
            } else {
                (s1, true, PingDue::No)
            }
        },
    }
}

proof fn lemma_put_then_lookup(s: Seq<(RemoteKey, u64)>, cap: nat, k: RemoteKey, t: u64)
    requires
        cap > 0,
    ensures
        lru_lookup(lru_put_spec(s, cap, k, t), k) == Some(t),
{
    let p = lru_put_spec(s, cap, k, t);
    assert(p.len() > 0 && p.last() == (k, t));
}

/// A node whose pong was recorded at `t` is verified, and not pinged again,
/// at any time from `t` until an eighth of the ttl has passed.
pub proof fn law_recent_pong_verifies(s: PingCacheState, k: RemoteKey, t: u64, now: u64)
    requires
        s.cap > 0,
        t <= now,
        8 * (now - t) <= s.ttl,
    ensures
        ({
            let after_pong = PingCacheState { pongs: lru_put_spec(s.pongs, s.cap, k, t), ..s };
            let (_, verified, due) = check_step(after_pong, now, k);
            verified && due == PingDue::No
        }),
{
    lemma_put_then_lookup(s.pongs, s.cap, k, t);
}

/// A node is pinged at most once per rate limit delay: after a check that
/// pings it, a check within the delay does not ping it again.
pub proof fn law_ping_rate_limited(s: PingCacheState, k: RemoteKey, now: u64, later: u64)
    requires
        s.cap > 0,
        now <= later,
        later - now < s.rate_limit_delay,
    ensures
        ({
            let (s1, _, first) = check_step(s, now, k);
            let (_, _, second) = check_step(s1, later, k);
            first is Yes ==> second == PingDue::No
        }),
{
    let (s1, _, first) = check_step(s, now, k);
    if first is Yes {
        lemma_put_then_lookup(s.pings, s.cap, k, now);
        assert(lru_lookup(s1.pings, k) == Some(now));
    }
}

/// A node never heard from is not verified, and the first check of it
/// sends a ping.
pub proof fn law_unknown_node_is_pinged(s: PingCacheState, k: RemoteKey, now: u64)
    requires
        lru_lookup(s.pongs, k) is None,
        lru_lookup(s.pings, k) is None,
    ensures
        ({
            let (_, verified, due) = check_step(s, now, k);
            !verified && due is Yes
        }),
{
}

/// No key is held twice, as an LRU cache holds them.
pub open spec fn keys_distinct(s: Seq<(RemoteKey, u64)>) -> bool {
    forall|i: int, j: int| 0 <= i < s.len() && 0 <= j < s.len() && i != j ==> (#[trigger] s[i]).0 != (#[trigger] s[j]).0
}

/// Where `key_index` points, and that it finds nothing only where the key
/// is absent.
proof fn lemma_key_index(s: Seq<(RemoteKey, u64)>, k: RemoteKey)
    ensures
        -1 <= key_index(s, k) < s.len(),
        key_index(s, k) >= 0 ==> s[key_index(s, k)].0 == k,
        key_index(s, k) == -1 <==> forall|j: int| 0 <= j < s.len() ==> (#[trigger] s[j]).0 != k,
    decreases s.len(),
{
    if s.len() > 0 {
        lemma_key_index(s.drop_last(), k);
        if s.last().0 != k {
            assert forall|j: int| 0 <= j < s.len() - 1 implies #[trigger] s[j] == s.drop_last()[j] by {}
            if key_index(s, k) == -1 {
                assert forall|j: int| 0 <= j < s.len() implies (#[trigger] s[j]).0 != k by {
                    if j < s.len() - 1 {
                        assert(s[j] == s.drop_last()[j]);
                    }
                }
            }
        }
    }
}

/// Taking an entry out keeps the keys distinct, and leaves its key absent.
proof fn lemma_remove_distinct(s: Seq<(RemoteKey, u64)>, i: int)
    requires
        keys_distinct(s),
        0 <= i < s.len(),
    ensures
        keys_distinct(s.remove(i)),
        forall|j: int| 0 <= j < s.remove(i).len() ==> (#[trigger] s.remove(i)[j]).0 != s[i].0,
{
    let r = s.remove(i);
    assert forall|j: int| 0 <= j < r.len() implies #[trigger] r[j] == (if j < i { s[j] } else { s[j + 1] }) by {}
}

/// Adding an entry whose key is absent keeps the keys distinct.
proof fn lemma_push_distinct(s: Seq<(RemoteKey, u64)>, e: (RemoteKey, u64))
    requires
        keys_distinct(s),
        forall|j: int| 0 <= j < s.len() ==> (#[trigger] s[j]).0 != e.0,
    ensures
        keys_distinct(s.push(e)),
{
    let r = s.push(e);
    assert forall|i: int, j: int| 0 <= i < r.len() && 0 <= j < r.len() && i != j implies (#[trigger] r[i]).0 != (#[trigger] r[j]).0 by {
        if i < s.len() && j < s.len() {
            assert(r[i] == s[i] && r[j] == s[j]);
        } else if i < s.len() {
            assert(r[i] == s[i]);
        } else {
            assert(r[j] == s[j]);
        }
    }
}

/// Using, removing and putting keys keep them distinct.
pub proof fn lemma_lru_keys_distinct(s: Seq<(RemoteKey, u64)>, cap: nat, k: RemoteKey, t: u64)
    requires
        keys_distinct(s),
    ensures
        keys_distinct(lru_touched(s, k)),
        keys_distinct(lru_removed(s, k)),
        keys_distinct(lru_put_spec(s, cap, k, t)),
{
    lemma_key_index(s, k);
    let i = key_index(s, k);
    if i >= 0 {
        lemma_remove_distinct(s, i);
        lemma_push_distinct(s.remove(i), s[i]);
        lemma_push_distinct(s.remove(i), (k, t));
    } else {
        if cap > 0 && s.len() == cap {
            let d = s.drop_first();
            assert forall|j: int| 0 <= j < d.len() implies (#[trigger] d[j]).0 != k by {
                assert(d[j] == s[j + 1]);
            }
            assert(keys_distinct(d)) by {
                assert forall|a: int, b: int| 0 <= a < d.len() && 0 <= b < d.len() && a != b implies (#[trigger] d[a]).0 != (#[trigger] d[b]).0 by {
                    assert(d[a] == s[a + 1] && d[b] == s[b + 1]);
                }
            }
            lemma_push_distinct(d, (k, t));
        } else {
            lemma_push_distinct(s, (k, t));
        }
    }
}

/// The whole of a check of `k` at `now`: the node is verified exactly when
/// a pong of it is held; a pong older than the ttl is dropped; a ping is
/// sent exactly when there is no pong or it is older than an eighth of the
/// ttl, and the node was not pinged within the rate limit delay; and a ping
/// sent is recorded at `now`.
pub proof fn law_check(s: PingCacheState, k: RemoteKey, now: u64)
    requires
        keys_distinct(s.pongs),
    ensures
        ({
            let (s2, verified, due) = check_step(s, now, k);
            let age = |t: u64| if now >= t { now - t } else { 0 };
            let wants_ping = match lru_lookup(s.pongs, k) {
                None => true,
                Some(t) => 8 * age(t) > s.ttl,
            };
            let pinged_recently = match lru_lookup(s.pings, k) {
                Some(t) => age(t) < s.rate_limit_delay,
                None => false,
            };
            &&& verified == lru_lookup(s.pongs, k) is Some
            &&& (lru_lookup(s.pongs, k) matches Some(t) && age(t) > s.ttl ==> lru_lookup(s2.pongs, k) is None)
            &&& (due is Yes <==> wants_ping && !pinged_recently)
            &&& (due is Yes && s.cap > 0 ==> lru_lookup(s2.pings, k) == Some(now))
        }),
{
    let (s2, verified, due) = check_step(s, now, k);
    lemma_key_index(s.pongs, k);
    if let Some(t) = lru_lookup(s.pongs, k) {
        let i = key_index(s.pongs, k);
        let t1 = lru_touched(s.pongs, k);
        let rest = s.pongs.remove(i);
        assert(t1 == rest.push(s.pongs[i]));
        lemma_key_index(t1, k);
        assert(key_index(t1, k) == t1.len() - 1);
        assert(t1.remove(t1.len() - 1) =~= rest);
        assert forall|j: int| 0 <= j < rest.len() implies (#[trigger] rest[j]).0 != k by {
            if j < i {
                assert(rest[j] == s.pongs[j]);
            } else {
                assert(rest[j] == s.pongs[j + 1]);
            }
        }
        lemma_key_index(rest, k);
    }
    if due is Yes && s.cap > 0 {
        lemma_put_then_lookup(s.pings, s.cap, k, now);
    }
}

impl PingCache {
    /// The state of the cache.
    pub closed spec fn state(&self) -> PingCacheState {
        PingCacheState {
            ttl: self.ttl,
            rate_limit_delay: self.rate_limit_delay,
            key_refresh: self.key_refresh,
            pings: lru_entries(self.pings),
            pongs: lru_entries(self.pongs),
            cap: lru_cap(self.pings),
        }
    }

    /// Both caches hold `cap` entries at most.
    pub closed spec fn wf(&self) -> bool {
        &&& lru_cap(self.pongs) == lru_cap(self.pings)
        &&& keys_distinct(lru_entries(self.pongs))
        &&& keys_distinct(lru_entries(self.pings))
    }

    /// A well-formed cache holds each node at most once in each of its LRU
    /// caches.
    pub proof fn lemma_wf_keys_distinct(&self)
        requires
            self.wf(),
        ensures
            keys_distinct(self.state().pongs),
            keys_distinct(self.state().pings),
    {
    }

    /// An empty cache of `cap` nodes, made at `now`, whose pongs are valid
    /// for `ttl` and which pings a node at most once per
    /// `rate_limit_delay`, at most half the ttl.
    pub fn new(now: u64, ttl: u64, rate_limit_delay: u64, cap: usize) -> (r: Self)
        requires
            2 * rate_limit_delay <= ttl,
        ensures
            r.wf(),
            r.state() == (PingCacheState {
                ttl,
                rate_limit_delay,
                key_refresh: now,
                pings: Seq::empty(),
                pongs: Seq::empty(),
                cap: cap as nat,
            }),
    {
        PingCache { ttl, rate_limit_delay, key_refresh: now, pings: lru_new(cap), pongs: lru_new(cap) }
    }

    /// Records the pong of `remote` received at `now` when its hash,
    /// `pong_hash`, is the hash of a token that this node could have sent
    /// `remote`: one of `token_hashes`, the hashes of the tokens that the
    /// current and the previous token key make for `remote`. Returns whether
    /// it was recorded; a pong that answers no token changes nothing. The
    /// signature of the pong is not checked here.
    pub fn add(&mut self, remote: RemoteKey, now: u64, pong_hash: &[u8; 32], token_hashes: &[[u8; 32]; 2]) -> (r: bool)
        requires
            old(self).wf(),
        ensures
            final(self).wf(),
            r == (pong_hash@ == token_hashes@[0]@ || pong_hash@ == token_hashes@[1]@),
            final(self).state() == (if r {
                PingCacheState { pongs: lru_put_spec(old(self).state().pongs, old(self).state().cap, remote, now), ..old(self).state() }
            } else {
                old(self).state()
            }),
    {
        let answers = same_hash(pong_hash, &token_hashes[0]) || same_hash(pong_hash, &token_hashes[1]);
        if !answers {
            return false;
        }
        proof {
            lemma_lru_keys_distinct(lru_entries(self.pongs), lru_cap(self.pongs), remote, now);
        }
        lru_put(&mut self.pongs, remote, now);
        true
    }

    /// Records a pong of `remote` at `now` without any ping.
    pub fn mock_pong(&mut self, remote: RemoteKey, now: u64)
        requires
            old(self).wf(),
        ensures
            final(self).wf(),
            final(self).state() == (PingCacheState {
                pongs: lru_put_spec(old(self).state().pongs, old(self).state().cap, remote, now),
                ..old(self).state()
            }),
    {
        proof {
            lemma_lru_keys_distinct(lru_entries(self.pongs), lru_cap(self.pongs), remote, now);
        }
        lru_put(&mut self.pongs, remote, now);
    }

    /// Pings `remote` at `now` unless it was pinged within the rate limit
    /// delay (see [`maybe_ping_step`]).
    fn maybe_ping(&mut self, now: u64, remote: RemoteKey) -> (r: PingDue)
        requires
            old(self).wf(),
        ensures
            final(self).wf(),
            (final(self).state(), r) == maybe_ping_step(old(self).state(), now, remote),
    {
        let recent = match lru_peek(&self.pings, &remote) {
            Some(t) => now.saturating_sub(t) < self.rate_limit_delay,
            None => false,
        };
        if recent {
            return PingDue::No;
        }
        proof {
            lemma_lru_keys_distinct(lru_entries(self.pings), lru_cap(self.pings), remote, now);
        }
        lru_put(&mut self.pings, remote, now);
        let rotate = self.maybe_refresh_key(now);
        PingDue::Yes { rotate_keys: rotate }
    }

    /// Rotates the token keys at `now` if the refresh cadence has passed;
    /// returns whether they rotate.
    fn maybe_refresh_key(&mut self, now: u64) -> (r: bool)
        ensures
            r == keys_rotate(old(self).key_refresh, now),
            *final(self) == (PingCache { key_refresh: if r { now } else { old(self).key_refresh }, ..*old(self) }),
    {
        if now >= self.key_refresh && now - self.key_refresh > KEY_REFRESH_CADENCE_MS {
            self.key_refresh = now;
            true
        } else {
            false
        }
    }

    /// Whether `remote` is verified at `now`, and whether to ping it (see
    /// [`check_step`]).
    pub fn check(&mut self, now: u64, remote: RemoteKey) -> (r: (bool, PingDue))
        requires
            old(self).wf(),
        ensures
            final(self).wf(),
            (final(self).state(), r.0, r.1) == check_step(old(self).state(), now, remote),
    {
        proof {
            lemma_lru_keys_distinct(lru_entries(self.pongs), 0, remote, now);
            lemma_lru_keys_distinct(lru_touched(lru_entries(self.pongs), remote), 0, remote, now);
        }
        let (verified, should_ping) = match lru_get(&mut self.pongs, &remote) {
            None => (false, true),
            Some(t) => {
                let age = now.saturating_sub(t);
                if age > self.ttl {
                    lru_pop(&mut self.pongs, &remote);
                }
                (true, (age as u128) * 8 > self.ttl as u128)
            },
        };
        let due = if should_ping {
            self.maybe_ping(now, remote)
        } else {
            PingDue::No
        };
        (verified, due)
    }
}

} // verus!
