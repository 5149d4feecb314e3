use agave::ping_pong::{remote_node_key, PingCache, PingDue, RemoteKey};
use agave::pubkey::Pubkey;
use agave::socket::{IpAddr, SocketAddr};
use rand::Rng;
use std::collections::HashSet;

fn random_pubkey<R: Rng>(rng: &mut R) -> Pubkey {
    Pubkey(rng.gen())
}

#[test]
fn test_ping_cache() {
    let mut rng = rand::thread_rng();
    let now: u64 = 1_000_000;
    let ttl: u64 = 256;
    let delay = ttl / 64;
    let mut cache = PingCache::new(now, ttl, delay, 1000);
    let keys: Vec<Pubkey> = std::iter::repeat_with(|| random_pubkey(&mut rng)).take(8).collect();
    let sockets: Vec<SocketAddr> = std::iter::repeat_with(|| SocketAddr {
        ip: IpAddr::V4([rng.gen(), rng.gen(), rng.gen(), rng.gen()]),
        port: rng.gen(),
    })
    .take(8)
    .collect();
    let remote_nodes: Vec<RemoteKey> = std::iter::repeat_with(|| {
        let pk = keys[rng.gen_range(0..keys.len())];
        let socket = sockets[rng.gen_range(0..sockets.len())];
        remote_node_key(&pk, &socket)
    })
    .take(128)
    .collect();

    // Initially all checks fail. The first observation of each node pings it.
    let mut seen_nodes = HashSet::<RemoteKey>::new();
    let pings: Vec<bool> = remote_nodes
        .iter()
        .map(|node| {
            let (check, due) = cache.check(now, *node);
            assert!(!check);
            assert_eq!(seen_nodes.insert(*node), due != PingDue::No);
            due != PingDue::No
        })
        .collect();

    let now = now + 1;
    for (node, pinged) in remote_nodes.iter().zip(&pings) {
        if *pinged {
            // The pong answers the token of the previous key.
            assert!(cache.add(*node, now, &[7u8; 32], &[[1u8; 32], [7u8; 32]]));
        } else {
            // The node answered already, and was pinged just now.
            let (check, due) = cache.check(now, *node);
            assert!(check);
            assert_eq!(due, PingDue::No);
        }
    }

    let now = now + 1;
    // All nodes now have a recent pong.
    for node in &remote_nodes {
        assert_eq!(cache.check(now, *node), (true, PingDue::No));
    }

    let now = now + ttl / 8;
    // The pongs are still valid, but a new ping extends the verification.
    seen_nodes.clear();
    for node in &remote_nodes {
        let (check, due) = cache.check(now, *node);
        assert!(check);
        assert_eq!(seen_nodes.insert(*node), due != PingDue::No);
    }

    let now = now + 1;
    // A very recent ping is pending: no new one.
    for node in &remote_nodes {
        assert_eq!(cache.check(now, *node), (true, PingDue::No));
    }

    let now = now + ttl;
    // The pongs have expired: the first observation drops the pong and pings.
    seen_nodes.clear();
    for node in &remote_nodes {
        let (check, due) = cache.check(now, *node);
        if seen_nodes.insert(*node) {
            assert!(check);
            assert!(due != PingDue::No);
        } else {
            assert!(!check);
            assert_eq!(due, PingDue::No);
        }
    }

    let now = now + 1;
    // No pong, and a recent ping: nothing new.
    for node in &remote_nodes {
        assert_eq!(cache.check(now, *node), (false, PingDue::No));
    }

    let now = now + ttl / 64;
    // No pong, and the ping is older than the delay: ping again, once.
    seen_nodes.clear();
    for node in &remote_nodes {
        let (check, due) = cache.check(now, *node);
        assert!(!check);
        assert_eq!(seen_nodes.insert(*node), due != PingDue::No);
    }
}

#[test]
fn pong_with_wrong_hash_is_refused() {
    let mut cache = PingCache::new(0, 100, 10, 16);
    let node = remote_node_key(&Pubkey([3; 32]), &SocketAddr { ip: IpAddr::V4([1, 2, 3, 4]), port: 80 });
    assert!(!cache.add(node, 5, &[9u8; 32], &[[1u8; 32], [2u8; 32]]));
    assert_eq!(cache.check(6, node), (false, PingDue::Yes { rotate_keys: false }));
    cache.mock_pong(node, 6);
    assert_eq!(cache.check(7, node), (true, PingDue::No));
}

#[test]
fn keys_rotate_after_a_minute() {
    let mut cache = PingCache::new(0, 1000, 10, 16);
    let a = remote_node_key(&Pubkey([1; 32]), &SocketAddr { ip: IpAddr::V4([1, 1, 1, 1]), port: 1 });
    let b = remote_node_key(&Pubkey([2; 32]), &SocketAddr { ip: IpAddr::V4([1, 1, 1, 1]), port: 1 });
    assert_eq!(cache.check(60_000, a), (false, PingDue::Yes { rotate_keys: false }));
    assert_eq!(cache.check(60_001, b), (false, PingDue::Yes { rotate_keys: true }));
    assert_eq!(cache.check(60_100, a), (false, PingDue::Yes { rotate_keys: false }));
}

#[test]
fn a_full_cache_forgets_the_least_recent_node() {
    let mut cache = PingCache::new(0, 1000, 10, 2);
    let node = |n: u8| remote_node_key(&Pubkey([n; 32]), &SocketAddr { ip: IpAddr::V4([10, 0, 0, n]), port: 8000 });
    cache.mock_pong(node(1), 1);
    cache.mock_pong(node(2), 1);
    // Using node 1 makes node 2 the least recent.
    assert_eq!(cache.check(2, node(1)), (true, PingDue::No));
    cache.mock_pong(node(3), 2);
    assert!(cache.check(3, node(1)).0);
    assert!(!cache.check(3, node(2)).0);
}

#[test]
fn remote_keys_tell_addresses_apart() {
    let pk = Pubkey([7; 32]);
    let v4 = remote_node_key(&pk, &SocketAddr { ip: IpAddr::V4([10, 0, 0, 1]), port: 8001 });
    assert_eq!(v4, (pk.key().0, pk.key().1, 0, 0x0a00_0001, 8001));
    let v6 = remote_node_key(&pk, &SocketAddr { ip: IpAddr::V6([0x2001, 0xdb8, 0, 0, 0, 0, 0, 1]), port: 8001 });
    assert_eq!(v6, (pk.key().0, pk.key().1, 0x2001_0db8_0000_0000, 1, 8001 + 65536));
    assert_ne!(v4, remote_node_key(&pk, &SocketAddr { ip: IpAddr::V4([10, 0, 0, 1]), port: 8002 }));
    assert_ne!(v4, remote_node_key(&Pubkey([8; 32]), &SocketAddr { ip: IpAddr::V4([10, 0, 0, 1]), port: 8001 }));
}
