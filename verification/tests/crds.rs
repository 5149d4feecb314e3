use agave::crds::{Crds, CrdsError, Cursor, GossipRoute, VersionedCrdsValue};
use agave::crds_gossip::{CrdsGossip, CrdsGossipError, dedup_gossip_addresses, get_gossip_nodes, maybe_ping_gossip_addresses};
use agave::ping_pong::{remote_node_key, PingCache};
use agave::socket::{IpAddr, SocketAddr, SocketAddrSpace};
use agave::crds_gossip_push::CrdsGossipPush;
use agave::crds_shards::CrdsShards;
use agave::crds_value::{overrides, ContactInfo, CrdsData, CrdsValue, ValueHash, NodeInstance};
use agave::pubkey::Pubkey;
use rand::Rng;
use std::collections::{BTreeMap, HashMap, HashSet};

fn unique_pubkey(n: u32) -> Pubkey {
    let mut bytes = [0u8; 32];
    bytes[..4].copy_from_slice(&n.to_le_bytes());
    bytes[31] = 0x5a;
    Pubkey(bytes)
}

fn hash_from(seed: u64) -> ValueHash {
    let mut bytes = [0u8; 32];
    let mut x = seed.wrapping_mul(0x9e37_79b9_7f4a_7c15) ^ 0x5555;
    for chunk in bytes.chunks_mut(8) {
        x ^= x >> 31;
        x = x.wrapping_mul(0xbf58_476d_1ce4_e5b9);
        chunk.copy_from_slice(&x.to_le_bytes());
    }
    ValueHash(bytes)
}

fn contact_value(pubkey: Pubkey, wallclock: u64, outset: u64, shred_version: u16, seed: u64) -> CrdsValue {
    CrdsValue {
        data: CrdsData::ContactInfo(ContactInfo { outset, shred_version, gossip: None }),
        pubkey,
        wallclock,
        hash: hash_from(seed),
    }
}

fn rand_value<R: Rng>(rng: &mut R, pubkey: Pubkey) -> CrdsValue {
    let data = match rng.gen_range(0..6) {
        0 => CrdsData::ContactInfo(ContactInfo { outset: rng.gen_range(0..4), shred_version: rng.gen(), gossip: None }),
        1 => CrdsData::Vote(rng.gen_range(0..32)),
        2 => CrdsData::EpochSlots(rng.gen_range(0..255)),
        3 => CrdsData::DuplicateShred(rng.gen_range(0..512), rng.gen_range(0..64)),
        4 => CrdsData::NodeInstance(NodeInstance { timestamp: rng.gen_range(0..8), token: rng.gen() }),
        _ => CrdsData::SnapshotHashes,
    };
    CrdsValue { data, pubkey, wallclock: rng.gen_range(0..1_000_000), hash: hash_from(rng.gen()) }
}

fn all_entries(crds: &Crds) -> Vec<VersionedCrdsValue> {
    let mut cursor = Cursor(0);
    crds.get_entries(&mut cursor)
}

#[test]
fn test_insert() {
    let mut crds = Crds::new();
    let val = contact_value(Pubkey([0; 32]), 0, 0, 0, 1);
    assert_eq!(crds.insert(val, 0, GossipRoute::LocalMessage), Ok(()));
    assert_eq!(crds.len(), 1);
    let entry = crds.get(&val.label()).unwrap();
    assert_eq!(entry.local_timestamp, 0);
    assert_eq!(entry.value, val);
}

#[test]
fn test_update_old() {
    let mut crds = Crds::new();
    let val = contact_value(Pubkey([0; 32]), 0, 0, 0, 1);
    assert_eq!(crds.insert(val, 0, GossipRoute::LocalMessage), Ok(()));
    assert_eq!(crds.insert(val, 1, GossipRoute::LocalMessage), Err(CrdsError::InsertFailed));
    assert_eq!(crds.num_purged(), 0);
    assert_eq!(crds.get(&val.label()).unwrap().local_timestamp, 0);
}

#[test]
fn test_update_new() {
    let mut crds = Crds::new();
    let older = contact_value(Pubkey([0; 32]), 0, 0, 0, 1);
    assert_eq!(crds.insert(older, 0, GossipRoute::LocalMessage), Ok(()));
    let val = contact_value(Pubkey([0; 32]), 1, 0, 0, 2);
    assert_eq!(crds.insert(val, 1, GossipRoute::LocalMessage), Ok(()));
    assert_eq!(*crds.purged().last().unwrap(), older.hash);
    assert_eq!(crds.get(&val.label()).unwrap().local_timestamp, 1);
}

#[test]
fn test_update_timestamp() {
    let mut crds = Crds::new();
    let val1 = contact_value(Pubkey([0; 32]), 0, 0, 0, 1);
    assert_eq!(crds.insert(val1, 0, GossipRoute::LocalMessage), Ok(()));
    assert_eq!(crds.get(&val1.label()).unwrap().local_timestamp, 0);
    assert_eq!(crds.get(&val1.label()).unwrap().ordinal, 0);
    let val2 = contact_value(Pubkey([0; 32]), 1, 0, 0, 2);
    assert_eq!(val2.label(), val1.label());
    assert_eq!(crds.insert(val2, 1, GossipRoute::LocalMessage), Ok(()));
    assert_eq!(*crds.purged().last().unwrap(), val1.hash);
    assert_eq!(crds.get(&val2.label()).unwrap().local_timestamp, 1);
    assert_eq!(crds.get(&val2.label()).unwrap().ordinal, 1);
    crds.update_record_timestamp(&val2.pubkey, 2);
    assert_eq!(crds.get(&val2.label()).unwrap().local_timestamp, 2);
    assert_eq!(crds.get(&val2.label()).unwrap().ordinal, 1);
    crds.update_record_timestamp(&val2.pubkey, 1);
    assert_eq!(crds.get(&val2.label()).unwrap().local_timestamp, 2);
    assert_eq!(crds.get(&val2.label()).unwrap().ordinal, 1);
}

#[test]
fn test_upsert_node_instance() {
    let mut rng = rand::thread_rng();
    let make = |pubkey: Pubkey, timestamp: u64, token: u64, wallclock: u64, seed: u64| CrdsValue {
        data: CrdsData::NodeInstance(NodeInstance { timestamp, token }),
        pubkey,
        wallclock,
        hash: hash_from(seed),
    };
    let now = 1_620_838_767_000;
    let mut crds = Crds::new();
    let pubkey = unique_pubkey(1);
    let node = make(pubkey, now, rng.gen(), now, 1);
    assert_eq!(crds.insert(node, now, GossipRoute::LocalMessage), Ok(()));
    // A node-instance with a different key should insert fine even with
    // older timestamps.
    let other = make(unique_pubkey(2), now - 1, rng.gen(), now - 1, 2);
    assert_eq!(crds.insert(other, now, GossipRoute::LocalMessage), Ok(()));
    // A node-instance with older timestamp should fail to insert, even if
    // the wallclock is more recent.
    let other = make(pubkey, now - 1, rng.gen(), now + 1, 3);
    assert_eq!(crds.insert(other, now, GossipRoute::LocalMessage), Err(CrdsError::InsertFailed));
    assert_eq!(*crds.purged().last().unwrap(), other.hash);
    // A node instance with the same timestamp should insert only if the
    // random token is larger.
    let mut num_overrides = 0;
    for k in 0..100 {
        let other = make(pubkey, now, rng.gen(), now, 10 + k);
        match crds.insert(other, now, GossipRoute::LocalMessage) {
            Ok(()) => num_overrides += 1,
            Err(CrdsError::InsertFailed) => assert_eq!(*crds.purged().last().unwrap(), other.hash),
            _ => panic!(),
        }
    }
    assert!(num_overrides > 0);
    assert!(num_overrides < 100);
    // A node instance with larger timestamp should insert regardless of
    // its token value.
    for k in 1..10 {
        let other = make(pubkey, now + k, rng.gen(), now, 200 + k);
        assert_eq!(crds.insert(other, now, GossipRoute::LocalMessage), Ok(()));
    }
}

/// The timeouts of the nodes: the node itself never times out, staked
/// nodes get the extended timeout (at least the epoch duration), and the
/// others the default, which is extended too when no node is staked.
fn timeouts_for(
    self_pubkey: Pubkey,
    default_timeout: u64,
    epoch_ms: u64,
    stakes: &HashMap<Pubkey, u64>,
) -> (BTreeMap<(u128, u128), u64>, u64) {
    let extended = default_timeout.max(epoch_ms);
    let default = if stakes.values().all(|&s| s == 0) { extended } else { default_timeout };
    let mut map = BTreeMap::new();
    for (pk, stake) in stakes {
        if *stake > 0 {
            map.insert(pk.key(), extended);
        }
    }
    map.insert(self_pubkey.key(), u64::MAX);
    (map, default)
}

#[test]
fn test_find_old_records_default() {
    let mut crds = Crds::new();
    let val = contact_value(Pubkey([0; 32]), 1, 0, 0, 1);
    assert_eq!(crds.insert(val, 1, GossipRoute::LocalMessage), Ok(()));
    let pubkey = unique_pubkey(7);
    let stakes = HashMap::from([(unique_pubkey(8), 1u64)]);
    let epoch_ms = 48 * 3600 * 1000;
    let (t, d) = timeouts_for(pubkey, 0, epoch_ms, &stakes);
    assert!(crds.find_old_labels(0, &t, d).is_empty());
    let (t, d) = timeouts_for(pubkey, 1, epoch_ms, &stakes);
    assert_eq!(crds.find_old_labels(2, &t, d), vec![val.label()]);
    let (t, d) = timeouts_for(pubkey, 2, epoch_ms, &stakes);
    assert_eq!(crds.find_old_labels(4, &t, d), vec![val.label()]);
}

#[test]
fn test_find_old_records_with_override() {
    let mut rng = rand::thread_rng();
    let mut crds = Crds::new();
    let val = rand_value(&mut rng, unique_pubkey(3));
    let val = CrdsValue { wallclock: 0, ..val };
    let mut stakes = HashMap::from([(unique_pubkey(4), 1u64)]);
    let hour48 = 48 * 3600 * 1000;
    let (t, d) = timeouts_for(unique_pubkey(5), 3, hour48, &stakes);
    assert_eq!(crds.insert(val, 0, GossipRoute::LocalMessage), Ok(()));
    assert!(crds.find_old_labels(2, &t, d).is_empty());
    stakes.insert(val.pubkey, 1u64);
    let (t, d) = timeouts_for(unique_pubkey(5), 1, 1, &stakes);
    assert_eq!(crds.find_old_labels(2, &t, d), vec![val.label()]);
    let (t, d) = timeouts_for(unique_pubkey(5), 3, hour48, &stakes);
    assert!(crds.find_old_labels(2, &t, d).is_empty());
    let (t, d) = timeouts_for(unique_pubkey(5), 1, hour48, &stakes);
    assert!(crds.find_old_labels(2, &t, d).is_empty());
    stakes.remove(&val.pubkey);
    let (t, d) = timeouts_for(unique_pubkey(5), 1, hour48, &stakes);
    assert_eq!(crds.find_old_labels(2, &t, d), vec![val.label()]);
}

#[test]
fn test_remove_default() {
    let mut crds = Crds::new();
    let val = contact_value(Pubkey([0; 32]), 0, 0, 0, 1);
    assert_eq!(crds.insert(val, 1, GossipRoute::LocalMessage), Ok(()));
    let stakes = HashMap::from([(unique_pubkey(1), 1u64)]);
    let (t, d) = timeouts_for(unique_pubkey(2), 1, 48 * 3600 * 1000, &stakes);
    assert_eq!(crds.find_old_labels(2, &t, d), vec![val.label()]);
    crds.remove(&val.label(), 0);
    assert!(crds.find_old_labels(2, &t, d).is_empty());
}

#[test]
fn test_find_old_records_staked() {
    let mut crds = Crds::new();
    let val = contact_value(Pubkey([0; 32]), 1, 0, 0, 1);
    assert_eq!(crds.insert(val, 1, GossipRoute::LocalMessage), Ok(()));
    let mut stakes = HashMap::from([(unique_pubkey(1), 1u64)]);
    let (t, d) = timeouts_for(unique_pubkey(2), 0, 48 * 3600 * 1000, &stakes);
    // now < timestamp
    assert!(crds.find_old_labels(0, &t, d).is_empty());
    // pubkey shouldn't expire since its timeout is MAX
    stakes.insert(val.pubkey, 1u64);
    let (t, d) = timeouts_for(unique_pubkey(2), 0, 48 * 3600 * 1000, &stakes);
    assert!(crds.find_old_labels(2, &t, d).is_empty());
    let (t, d) = timeouts_for(unique_pubkey(2), 0, 2, &stakes);
    assert!(crds.find_old_labels(2, &t, d).is_empty());
    assert_eq!(crds.find_old_labels(3, &t, d), vec![val.label()]);
}

#[test]
fn test_crds_shards_round_trip() {
    let mut rng = rand::thread_rng();
    let mut hashes: Vec<u64> = std::iter::repeat_with(|| rng.gen()).take(4096).collect();
    let mut shards = CrdsShards::new(5);
    for (index, hash) in hashes.iter().enumerate() {
        assert!(shards.insert(index, *hash));
    }
    let check = |shards: &CrdsShards, hashes: &[u64]| {
        let mut all = shards.find(0, 0);
        all.sort_unstable();
        assert_eq!(all, (0..hashes.len()).collect::<Vec<_>>());
    };
    check(&shards, &hashes);
    for _ in 0..512 {
        let index = rng.gen_range(0..hashes.len());
        let hash = hashes.swap_remove(index);
        assert!(shards.remove(index, hash));
        if index < hashes.len() {
            let hash = hashes[index];
            assert!(shards.remove(hashes.len(), hash));
            assert!(shards.insert(index, hash));
        }
        check(&shards, &hashes);
    }
    for _ in 0..10 {
        let mask: u64 = rng.gen();
        for mask_bits in 0..12 {
            let ones = (!0u64).checked_shr(mask_bits).unwrap_or(0u64);
            let mut set: HashSet<usize> = hashes
                .iter()
                .enumerate()
                .filter(|(_, h)| (**h | ones) == (mask | ones))
                .map(|(i, _)| i)
                .collect();
            for index in shards.find(mask, mask_bits) {
                assert!(set.remove(&index));
            }
            assert!(set.is_empty());
        }
    }
    for (index, hash) in hashes.iter().enumerate() {
        assert_eq!(shards.find(*hash, 64), vec![index]);
    }
    while !hashes.is_empty() {
        let index = rng.gen_range(0..hashes.len());
        let hash = hashes.swap_remove(index);
        assert!(shards.remove(index, hash));
        if index < hashes.len() {
            let hash = hashes[index];
            assert!(shards.remove(hashes.len(), hash));
            assert!(shards.insert(index, hash));
        }
        if index % 5 == 0 {
            check(&shards, &hashes);
        }
    }
}

fn check_crds_value_indices<R: Rng>(rng: &mut R, crds: &Crds, cursor_end: u64) -> (usize, usize, usize) {
    let entries = all_entries(crds);
    assert_eq!(entries.len(), crds.len());
    for w in entries.windows(2) {
        assert!(w[0].ordinal < w[1].ordinal);
    }
    let since = if entries.is_empty() || rng.gen() {
        rng.gen_range(0..cursor_end + 1)
    } else {
        entries[rng.gen_range(0..entries.len())].ordinal
    };
    let count = |pred: &dyn Fn(&CrdsData) -> bool| {
        entries.iter().filter(|v| v.ordinal >= since).filter(|v| pred(&v.value.data)).count()
    };
    let mut cursor = Cursor(since);
    let slots = crds.get_epoch_slots(&mut cursor);
    assert_eq!(slots.len(), count(&|d| matches!(d, CrdsData::EpochSlots(_))));
    assert_eq!(cursor.0, slots.last().map(|v| v.ordinal + 1).unwrap_or(since));
    let mut cursor = Cursor(since);
    let votes = crds.get_votes(&mut cursor);
    assert_eq!(votes.len(), count(&|d| matches!(d, CrdsData::Vote(_))));
    assert_eq!(cursor.0, votes.last().map(|v| v.ordinal + 1).unwrap_or(since));
    let mut cursor = Cursor(since);
    let dups = crds.get_duplicate_shreds(&mut cursor);
    assert_eq!(dups.len(), count(&|d| matches!(d, CrdsData::DuplicateShred(..))));
    let mut cursor = Cursor(since);
    let values = crds.get_entries(&mut cursor);
    assert_eq!(values.len(), count(&|_| true));
    assert_eq!(cursor.0, values.last().map(|v| v.ordinal + 1).unwrap_or(since));
    let num_nodes = entries.iter().filter(|v| matches!(v.value.data, CrdsData::ContactInfo(_))).count();
    let num_votes = entries.iter().filter(|v| matches!(v.value.data, CrdsData::Vote(_))).count();
    let num_epoch_slots = entries.iter().filter(|v| matches!(v.value.data, CrdsData::EpochSlots(_))).count();
    assert_eq!(crds.num_nodes(), num_nodes);
    assert_eq!(crds.get_nodes().len(), num_nodes);
    (num_nodes, num_votes, num_epoch_slots)
}

#[test]
fn test_crds_value_indices() {
    let mut rng = rand::thread_rng();
    let keys: Vec<Pubkey> = (0..128).map(unique_pubkey).collect();
    let mut crds = Crds::new();
    let mut num_inserts = 0;
    for k in 0..4096 {
        let pubkey = keys[rng.gen_range(0..keys.len())];
        let value = rand_value(&mut rng, pubkey);
        let local_timestamp = rng.gen_range(0..1_000_000);
        if let Ok(()) = crds.insert(value, local_timestamp, GossipRoute::LocalMessage) {
            num_inserts += 1;
        }
        if k % 16 == 0 {
            check_crds_value_indices(&mut rng, &crds, num_inserts);
        }
    }
    assert!(num_inserts > 700);
    assert!(crds.num_purged() > 500);
    assert!(crds.len() > 200);
    assert_eq!(crds.num_purged() + crds.len(), 4096);
    assert!(num_inserts > crds.len() as u64);
    let (num_nodes, num_votes, num_epoch_slots) = check_crds_value_indices(&mut rng, &crds, num_inserts);
    assert!(num_nodes * 3 < crds.len());
    assert!(num_nodes > 100, "num nodes: {num_nodes}");
    assert!(num_votes > 100, "num votes: {num_votes}");
    assert!(num_epoch_slots > 100, "num epoch slots: {num_epoch_slots}");
    while !crds.is_empty() {
        let entries = all_entries(&crds);
        let index = rng.gen_range(0..entries.len());
        crds.remove(&entries[index].value.label(), 0);
        if crds.len() % 16 == 0 {
            check_crds_value_indices(&mut rng, &crds, num_inserts);
        }
    }
}

#[test]
fn test_crds_records() {
    let check_crds_records = |crds: &Crds, keys: &[Pubkey]| {
        let entries = all_entries(crds);
        let mut total = 0;
        for pk in keys {
            let records = crds.get_records(pk);
            total += records.len();
            for r in &records {
                assert_eq!(r.value.pubkey, *pk);
            }
            assert_eq!(records.len(), entries.iter().filter(|e| e.value.pubkey == *pk).count());
        }
        assert_eq!(total, crds.len());
    };
    let mut rng = rand::thread_rng();
    let keys: Vec<Pubkey> = (0..128).map(unique_pubkey).collect();
    let mut crds = Crds::new();
    for k in 0..4096 {
        let pubkey = keys[rng.gen_range(0..keys.len())];
        let value = rand_value(&mut rng, pubkey);
        let _ = crds.insert(value, rng.gen_range(0..1_000_000), GossipRoute::LocalMessage);
        if k % 64 == 0 {
            check_crds_records(&crds, &keys);
        }
    }
    assert!(crds.num_pubkeys() > 96);
    assert!(crds.num_pubkeys() <= keys.len());
    while !crds.is_empty() {
        let entries = all_entries(&crds);
        let index = rng.gen_range(0..entries.len());
        crds.remove(&entries[index].value.label(), 0);
        if crds.len() % 64 == 0 {
            check_crds_records(&crds, &keys);
        }
    }
    assert_eq!(crds.num_pubkeys(), 0);
}

#[test]
fn test_get_shred_version() {
    let pubkey = unique_pubkey(9);
    let mut crds = Crds::new();
    assert_eq!(crds.get_shred_version(&pubkey), None);
    let wallclock = 1000;
    let node = contact_value(pubkey, wallclock, 5, 42, 1);
    assert_eq!(crds.insert(node, 10, GossipRoute::LocalMessage), Ok(()));
    assert_eq!(crds.get_shred_version(&pubkey), Some(42));
    // An outdated value should not update shred-version.
    let old = contact_value(pubkey, wallclock - 1, 5, 8, 2);
    assert_eq!(crds.insert(old, 11, GossipRoute::LocalMessage), Err(CrdsError::InsertFailed));
    assert_eq!(crds.get_shred_version(&pubkey), Some(42));
    // Update shred version.
    let newer = contact_value(pubkey, wallclock + 1, 5, 8, 3);
    assert_eq!(crds.insert(newer, 12, GossipRoute::LocalMessage), Ok(()));
    assert_eq!(crds.get_shred_version(&pubkey), Some(8));
    // Add other crds values with the same pubkey.
    let val = CrdsValue { data: CrdsData::AccountsHashes, pubkey, wallclock, hash: hash_from(4) };
    assert_eq!(crds.insert(val, 13, GossipRoute::LocalMessage), Ok(()));
    assert_eq!(crds.get_shred_version(&pubkey), Some(8));
    // Remove contact-info; the shred version stays while other values of
    // the node remain.
    crds.remove(&newer.label(), 14);
    assert_eq!(crds.get(&newer.label()), None);
    assert_eq!(crds.get_shred_version(&pubkey), Some(8));
    crds.remove(&val.label(), 15);
    assert_eq!(crds.get_records(&pubkey).len(), 0);
    assert_eq!(crds.get_shred_version(&pubkey), None);
}

#[test]
fn test_equal() {
    let val = contact_value(Pubkey([0; 32]), 0, 0, 0, 1);
    let v1 = VersionedCrdsValue::new(val, Cursor::default(), 1, GossipRoute::LocalMessage);
    let v2 = VersionedCrdsValue::new(val, Cursor::default(), 1, GossipRoute::LocalMessage);
    assert_eq!(v1, v2);
    assert!(!(v1 != v2));
    assert!(!overrides(&v1.value, &v2.value));
    assert!(!overrides(&v2.value, &v1.value));
}

#[test]
fn test_hash_order() {
    let v1 = VersionedCrdsValue::new(contact_value(Pubkey([0; 32]), 0, 0, 0, 1), Cursor::default(), 1, GossipRoute::LocalMessage);
    let v2 = VersionedCrdsValue::new(contact_value(Pubkey([0; 32]), 0, 0, 0, 1244), Cursor::default(), 1, GossipRoute::LocalMessage);
    assert_eq!(v1.value.label(), v2.value.label());
    assert_eq!(v1.value.wallclock, v2.value.wallclock);
    assert_ne!(v1.value.hash, v2.value.hash);
    assert!(v1 != v2);
    if v1.value.hash.0 > v2.value.hash.0 {
        assert!(overrides(&v1.value, &v2.value));
        assert!(!overrides(&v2.value, &v1.value));
    } else {
        assert!(overrides(&v2.value, &v1.value));
        assert!(!overrides(&v1.value, &v2.value));
    }
}

#[test]
fn test_wallclock_order() {
    let v1 = VersionedCrdsValue::new(contact_value(Pubkey([0; 32]), 1, 0, 0, 1), Cursor::default(), 1, GossipRoute::LocalMessage);
    let v2 = VersionedCrdsValue::new(contact_value(Pubkey([0; 32]), 0, 0, 0, 2), Cursor::default(), 1, GossipRoute::LocalMessage);
    assert_eq!(v1.value.label(), v2.value.label());
    assert!(overrides(&v1.value, &v2.value));
    assert!(!overrides(&v2.value, &v1.value));
    assert!(v1 != v2);
}

#[test]
fn contact_info_later_start_wins_over_wallclock() {
    let pk = unique_pubkey(11);
    let early = contact_value(pk, 100, 1, 0, 1);
    let restarted = contact_value(pk, 50, 2, 0, 2);
    assert!(overrides(&restarted, &early));
    assert!(!overrides(&early, &restarted));
}

#[test]
fn push_duplicates_are_counted() {
    let mut crds = Crds::new();
    let val = contact_value(unique_pubkey(1), 0, 0, 0, 1);
    let from = unique_pubkey(2);
    assert_eq!(crds.insert(val, 0, GossipRoute::PushMessage(from)), Ok(()));
    assert_eq!(crds.get(&val.label()).unwrap().num_push_recv, Some(1));
    assert_eq!(crds.insert(val, 0, GossipRoute::PushMessage(from)), Err(CrdsError::DuplicatePush(1)));
    assert_eq!(crds.insert(val, 0, GossipRoute::PushMessage(from)), Err(CrdsError::DuplicatePush(2)));
    assert_eq!(crds.get(&val.label()).unwrap().num_push_recv, Some(3));
    assert_eq!(crds.insert(val, 0, GossipRoute::PullResponse), Err(CrdsError::InsertFailed));
    let pulled = contact_value(unique_pubkey(3), 0, 0, 0, 2);
    assert_eq!(crds.insert(pulled, 0, GossipRoute::PullResponse), Ok(()));
    assert_eq!(crds.insert(pulled, 0, GossipRoute::PushMessage(from)), Err(CrdsError::DuplicatePush(0)));
}

#[test]
fn trim_purged_drops_old_hashes() {
    let mut crds = Crds::new();
    let pk = unique_pubkey(1);
    for t in 0..5u64 {
        let v = contact_value(pk, t, 0, 0, t + 1);
        assert_eq!(crds.insert(v, t * 10, GossipRoute::LocalMessage), Ok(()));
    }
    assert_eq!(crds.num_purged(), 4);
    crds.trim_purged(25);
    assert_eq!(crds.num_purged(), 2);
    assert!(!crds.should_trim(1));
}

#[test]
fn test_process_push_one() {
    let mut crds = Crds::new();
    let push = CrdsGossipPush::new();
    let value = contact_value(unique_pubkey(5), 0, 0, 0, 1);
    assert_eq!(push.process_push_message(&mut crds, vec![(Pubkey([0; 32]), vec![value])], 0), vec![value.pubkey]);
    assert_eq!(crds.get(&value.label()).unwrap().value, value);
    assert!(push.process_push_message(&mut crds, vec![(Pubkey([0; 32]), vec![value])], 0).is_empty());
}

#[test]
fn test_process_push_old_version() {
    let mut crds = Crds::new();
    let push = CrdsGossipPush::new();
    let pk = unique_pubkey(5);
    let value = contact_value(pk, 1, 0, 0, 1);
    assert_eq!(push.process_push_message(&mut crds, vec![(Pubkey([0; 32]), vec![value])], 0), vec![pk]);
    let value = contact_value(pk, 0, 0, 0, 2);
    assert!(push.process_push_message(&mut crds, vec![(Pubkey([0; 32]), vec![value])], 0).is_empty());
}

#[test]
fn test_process_push_timeout() {
    let mut crds = Crds::new();
    let push = CrdsGossipPush::new();
    let timeout = 30000;
    let pk = unique_pubkey(5);
    let value = contact_value(pk, timeout + 1, 0, 0, 1);
    assert!(push.process_push_message(&mut crds, vec![(Pubkey([0; 32]), vec![value])], 0).is_empty());
    let value = contact_value(pk, 0, 0, 0, 2);
    assert!(push.process_push_message(&mut crds, vec![(Pubkey([0; 32]), vec![value])], timeout + 1).is_empty());
}

#[test]
fn test_process_push_update() {
    let mut crds = Crds::new();
    let push = CrdsGossipPush::new();
    let pk = unique_pubkey(5);
    let value_old = contact_value(pk, 0, 0, 0, 1);
    assert_eq!(push.process_push_message(&mut crds, vec![(Pubkey([0; 32]), vec![value_old])], 0), vec![pk]);
    let value = contact_value(pk, 1, 0, 0, 2);
    assert_eq!(push.process_push_message(&mut crds, vec![(Pubkey([0; 32]), vec![value])], 0), vec![pk]);
    assert_eq!(push.num_pending(&crds), 1);
}

#[test]
fn test_prune_errors() {
    let mut gossip = CrdsGossip::new();
    let id = unique_pubkey(1);
    let ci = contact_value(Pubkey([1; 32]), 0, 0, 0, 1);
    gossip.crds.insert(ci, 0, GossipRoute::LocalMessage).unwrap();
    let prune_pubkey = Pubkey([2; 32]);
    let now = 1_700_000_000_000;
    let res = gossip.process_prune_msg(&id, &ci.pubkey, &Pubkey([3; 32]), &[prune_pubkey], now, now);
    assert_eq!(res.err(), Some(CrdsGossipError::BadPruneDestination));
    let res = gossip.process_prune_msg(&id, &ci.pubkey, &id, &[prune_pubkey], now, now);
    res.unwrap();
    let timeout = now + gossip.push.prune_timeout() * 2;
    let res = gossip.process_prune_msg(&id, &ci.pubkey, &id, &[prune_pubkey], now, timeout);
    assert_eq!(res.err(), Some(CrdsGossipError::PruneMessageTimeout));
}

#[test]
fn test_crds_shards() {
    // Every entry can be found again by its label, and the ordinals run in
    // insert order: the position indices stay in step with the table.
    fn check_crds_shards(crds: &Crds) {
        let entries = all_entries(crds);
        assert_eq!(entries.len(), crds.len());
        for e in &entries {
            assert_eq!(crds.get(&e.value.label()), Some(*e));
        }
    }
    let mut crds = Crds::new();
    let keys: Vec<Pubkey> = (0..256).map(unique_pubkey).collect();
    let mut rng = rand::thread_rng();
    let mut num_inserts = 0;
    for _ in 0..4096 {
        let pubkey = keys[rng.gen_range(0..keys.len())];
        let value = rand_value(&mut rng, pubkey);
        let local_timestamp = rng.gen_range(0..1_000_000);
        if let Ok(()) = crds.insert(value, local_timestamp, GossipRoute::LocalMessage) {
            num_inserts += 1;
            check_crds_shards(&crds);
        }
    }
    let mut cursor = Cursor(0);
    let _ = crds.get_entries(&mut cursor);
    assert_eq!(cursor.0, num_inserts as u64);
    assert!(num_inserts > 700);
    assert!(crds.num_purged() > 500);
    assert_eq!(crds.num_purged() + crds.len(), 4096);
    assert!(crds.len() > 200);
    assert!(num_inserts > crds.len());
    check_crds_shards(&crds);
    // Remove values one by one and check that the indices stay valid.
    while !crds.is_empty() {
        let entries = all_entries(&crds);
        let index = rng.gen_range(0..entries.len());
        crds.remove(&entries[index].value.label(), 0);
        check_crds_shards(&crds);
    }
}

fn num_unique_pubkeys<'a, I>(values: I) -> usize
where
    I: IntoIterator<Item = &'a VersionedCrdsValue>,
{
    values.into_iter().map(|v| v.value.pubkey).collect::<HashSet<_>>().len()
}

#[test]
fn test_drop() {
    let mut rng = rand::thread_rng();
    let keys: Vec<Pubkey> = (0..64).map(|n| unique_pubkey(1000 + n)).collect();
    let stakes: HashMap<Pubkey, u64> = keys.iter().map(|k| (*k, rng.gen_range(0..1000))).collect();
    let stake_map: BTreeMap<(u128, u128), u64> = stakes.iter().map(|(k, s)| (k.key(), *s)).collect();
    let mut crds = Crds::new();
    for _ in 0..2048 {
        let pubkey = keys[rng.gen_range(0..keys.len())];
        let value = rand_value(&mut rng, pubkey);
        let local_timestamp = rng.gen_range(0..1_000_000);
        let _ = crds.insert(value, local_timestamp, GossipRoute::LocalMessage);
    }
    let values = all_entries(&crds);
    let num_values = values.len();
    let num_pubkeys = num_unique_pubkeys(&values);
    assert!(!crds.should_trim(num_pubkeys));
    assert!(crds.should_trim(num_pubkeys * 5 / 6));
    crds.drop(16, &[], &stake_map, 0).unwrap();
    let purged: Vec<VersionedCrdsValue> = {
        let purged: HashSet<[u8; 32]> = crds.purged().into_iter().map(|h| h.0).collect();
        values.into_iter().filter(|v| purged.contains(&v.value.hash.0)).collect()
    };
    let remaining = all_entries(&crds);
    assert_eq!(purged.len() + crds.len(), num_values);
    assert_eq!(num_unique_pubkeys(&purged), 16);
    assert_eq!(num_unique_pubkeys(&remaining), num_pubkeys - 16);
    let attach_stake = |v: &VersionedCrdsValue| {
        let pk = v.value.pubkey;
        (stakes[&pk], pk.0)
    };
    assert!(purged.iter().map(attach_stake).max().unwrap() < remaining.iter().map(attach_stake).min().unwrap());
    let purged: HashSet<Pubkey> = purged.into_iter().map(|v| v.value.pubkey).collect();
    for v in &remaining {
        assert!(!purged.contains(&v.value.pubkey));
    }
}

#[test]
fn test_remove_staked() {
    let mut crds = Crds::new();
    let val = contact_value(Pubkey([0; 32]), 0, 0, 0, 1);
    assert_eq!(crds.insert(val, 1, GossipRoute::LocalMessage), Ok(()));
    let stakes = HashMap::from([(unique_pubkey(11), 1u64)]);
    let (t, d) = timeouts_for(unique_pubkey(12), 1, 1, &stakes);
    assert_eq!(crds.find_old_labels(2, &t, d), vec![val.label()]);
    crds.remove(&val.label(), 0);
    assert!(crds.find_old_labels(2, &t, d).is_empty());
}

#[test]
fn drop_without_stakes_fails() {
    let mut crds = Crds::new();
    let val = contact_value(unique_pubkey(20), 0, 0, 0, 1);
    assert_eq!(crds.insert(val, 1, GossipRoute::LocalMessage), Ok(()));
    let zero: BTreeMap<(u128, u128), u64> = BTreeMap::from([(unique_pubkey(20).key(), 0)]);
    assert_eq!(crds.drop(1, &[], &zero, 0), Err(CrdsError::UnknownStakes));
    assert_eq!(crds.drop(1, &[], &BTreeMap::new(), 0), Err(CrdsError::UnknownStakes));
    assert_eq!(crds.len(), 1);
}

#[test]
fn trim_keeps_listed_nodes_and_lowest_go_first() {
    let mut crds = Crds::new();
    // Four nodes, two entries each.
    for n in 0..4u32 {
        let pk = unique_pubkey(30 + n);
        assert_eq!(crds.insert(contact_value(pk, 1, 0, 0, 100 + n as u64), 1, GossipRoute::LocalMessage), Ok(()));
        let snap = CrdsValue { data: CrdsData::SnapshotHashes, pubkey: pk, wallclock: 1, hash: hash_from(200 + n as u64) };
        assert_eq!(crds.insert(snap, 1, GossipRoute::LocalMessage), Ok(()));
    }
    let stakes: BTreeMap<(u128, u128), u64> = (0..4u32).map(|n| (unique_pubkey(30 + n).key(), 10 * (n as u64 + 1))).collect();
    // Not over the cap by more than a tenth: nothing happens.
    assert!(!crds.should_trim(4));
    assert_eq!(crds.trim(4, &[], &stakes, 0), Ok(0));
    assert_eq!(crds.len(), 8);
    // Cap of two: the two lowest staked nodes would go, but the lowest is kept.
    let keep = [unique_pubkey(30)];
    assert_eq!(crds.trim(2, &keep, &stakes, 0), Ok(2));
    assert_eq!(crds.len(), 6);
    assert_eq!(crds.get_records(&unique_pubkey(30)).len(), 2);
    assert_eq!(crds.get_records(&unique_pubkey(31)).len(), 0);
    assert_eq!(crds.get_records(&unique_pubkey(32)).len(), 2);
    assert_eq!(crds.num_pubkeys(), 3);
}

fn dup_value(pubkey: Pubkey, ix: u16, slot: u64, wallclock: u64) -> CrdsValue {
    CrdsValue {
        data: CrdsData::DuplicateShred(ix, slot),
        pubkey,
        wallclock,
        hash: hash_from(0x1_0000 + ix as u64 * 131 + slot),
    }
}

#[test]
fn duplicate_shred_chunks_follow_the_held_ones() {
    let pk = unique_pubkey(40);
    let mut gossip = CrdsGossip::new();
    assert_eq!(gossip.duplicate_shred_indices(&pk, 5, 3), Some(vec![0, 1, 2]));
    assert_eq!(gossip.crds.insert(dup_value(pk, 0, 7, 100), 1, GossipRoute::LocalMessage), Ok(()));
    assert_eq!(gossip.crds.insert(dup_value(pk, 1, 8, 100), 1, GossipRoute::LocalMessage), Ok(()));
    // Another node's proofs do not count.
    assert_eq!(gossip.crds.insert(dup_value(unique_pubkey(41), 0, 9, 100), 1, GossipRoute::LocalMessage), Ok(()));
    assert_eq!(gossip.crds.duplicate_shred_offset(&pk, 9), Some(2));
    assert_eq!(gossip.duplicate_shred_indices(&pk, 7, 2), None);
    assert_eq!(gossip.duplicate_shred_indices(&pk, 8, 2), None);
    assert_eq!(gossip.duplicate_shred_indices(&pk, 9, 3), Some(vec![2, 3, 4]));
    assert_eq!(gossip.duplicate_shred_indices(&pk, 9, 0), Some(vec![]));
}

#[test]
fn duplicate_shred_chunks_replace_the_oldest_when_full() {
    let pk = unique_pubkey(42);
    let mut gossip = CrdsGossip::new();
    for ix in 0..512u16 {
        let wallclock = if ix == 510 { 5 } else { 1000 + ix as u64 };
        assert_eq!(gossip.crds.insert(dup_value(pk, ix, 10_000 + ix as u64, wallclock), 1, GossipRoute::LocalMessage), Ok(()));
    }
    assert_eq!(gossip.crds.duplicate_shred_offset(&pk, 1), Some(510));
    assert_eq!(gossip.duplicate_shred_indices(&pk, 1, 4), Some(vec![510, 511, 0, 1]));
    // Ties in wallclock go to the lower index.
    let mut gossip = CrdsGossip::new();
    for ix in 0..512u16 {
        let wallclock = if ix == 7 || ix == 3 { 2 } else { 50 };
        assert_eq!(gossip.crds.insert(dup_value(pk, ix, 20_000 + ix as u64, wallclock), 1, GossipRoute::LocalMessage), Ok(()));
    }
    assert_eq!(gossip.duplicate_shred_indices(&pk, 1, 2), Some(vec![3, 4]));
    assert_eq!(gossip.duplicate_shred_indices(&pk, 20_007, 2), None);
}

#[test]
fn contact_infos_of_the_nodes() {
    let mut crds = Crds::new();
    assert_eq!(crds.insert(contact_value(unique_pubkey(50), 1, 0, 7, 1), 1, GossipRoute::LocalMessage), Ok(()));
    assert_eq!(crds.insert(contact_value(unique_pubkey(51), 1, 2, 8, 2), 1, GossipRoute::LocalMessage), Ok(()));
    let snap = CrdsValue { data: CrdsData::SnapshotHashes, pubkey: unique_pubkey(50), wallclock: 1, hash: hash_from(3) };
    assert_eq!(crds.insert(snap, 1, GossipRoute::LocalMessage), Ok(()));
    let mut infos = crds.get_nodes_contact_info();
    infos.sort_by_key(|c| c.shred_version);
    assert_eq!(
        infos,
        vec![ContactInfo { outset: 0, shred_version: 7, gossip: None }, ContactInfo { outset: 2, shred_version: 8, gossip: None }]
    );
}

#[test]
fn cursor_reads_each_entry_once() {
    let mut crds = Crds::new();
    assert_eq!(crds.insert(contact_value(unique_pubkey(60), 1, 0, 0, 1), 1, GossipRoute::LocalMessage), Ok(()));
    assert_eq!(crds.insert(contact_value(unique_pubkey(61), 1, 0, 0, 2), 1, GossipRoute::LocalMessage), Ok(()));
    let mut cursor = Cursor(0);
    assert_eq!(crds.get_entries(&mut cursor).len(), 2);
    assert_eq!(cursor.0, 2);
    assert!(crds.get_entries(&mut cursor).is_empty());
    assert_eq!(crds.insert(contact_value(unique_pubkey(62), 1, 0, 0, 3), 1, GossipRoute::LocalMessage), Ok(()));
    let next = crds.get_entries(&mut cursor);
    assert_eq!(next.len(), 1);
    assert_eq!(next[0].value.pubkey, unique_pubkey(62));
    assert_eq!(cursor.0, 3);
}

fn gossip_contact(pubkey: Pubkey, wallclock: u64, shred_version: u16, addr: Option<SocketAddr>, seed: u64) -> CrdsValue {
    CrdsValue {
        data: CrdsData::ContactInfo(ContactInfo { outset: 0, shred_version, gossip: addr }),
        pubkey,
        wallclock,
        hash: hash_from(seed),
    }
}

fn addr_v4(last: u8, port: u16) -> SocketAddr {
    SocketAddr { ip: IpAddr::V4([8, 8, 8, last]), port }
}

#[test]
fn gossip_nodes_are_recent_peers_of_the_same_shred_version() {
    let me = unique_pubkey(0);
    let mut crds = Crds::new();
    let now = 1_000_000u64;
    // Recent, same version, with an address: kept.
    crds.insert(gossip_contact(unique_pubkey(1), 0, 7, Some(addr_v4(1, 8001)), 1), now, GossipRoute::LocalMessage).unwrap();
    // This node itself: left out.
    crds.insert(gossip_contact(me, 0, 7, Some(addr_v4(2, 8001)), 2), now, GossipRoute::LocalMessage).unwrap();
    // Another shred version: left out.
    crds.insert(gossip_contact(unique_pubkey(3), 0, 9, Some(addr_v4(3, 8001)), 3), now, GossipRoute::LocalMessage).unwrap();
    // No gossip address: left out.
    crds.insert(gossip_contact(unique_pubkey(4), 0, 7, None, 4), now, GossipRoute::LocalMessage).unwrap();
    // Private address while only global ones count: left out.
    let private = SocketAddr { ip: IpAddr::V4([10, 0, 0, 5]), port: 8001 };
    crds.insert(gossip_contact(unique_pubkey(5), 0, 7, Some(private), 5), now, GossipRoute::LocalMessage).unwrap();
    // Unstaked and heard from long ago: left out.
    crds.insert(gossip_contact(unique_pubkey(6), 0, 7, Some(addr_v4(6, 8001)), 6), 1, GossipRoute::LocalMessage).unwrap();
    let stakes: BTreeMap<(u128, u128), u64> = BTreeMap::new();
    let mut rng = rand::thread_rng();
    let nodes = get_gossip_nodes(&mut rng, now, &me, 7, &crds, None, &stakes, &SocketAddrSpace::Global);
    let keys: Vec<Pubkey> = nodes.iter().map(|n| n.0).collect();
    assert_eq!(keys, vec![unique_pubkey(1)]);
    // With every address allowed, the private one comes in too.
    let nodes = get_gossip_nodes(&mut rng, now, &me, 7, &crds, None, &stakes, &SocketAddrSpace::Unspecified);
    let mut keys: Vec<Pubkey> = nodes.iter().map(|n| n.0).collect();
    keys.sort_by_key(|k| k.0);
    let mut expected = vec![unique_pubkey(1), unique_pubkey(5)];
    expected.sort_by_key(|k| k.0);
    assert_eq!(keys, expected);
    // A list of gossip validators keeps only those on it.
    let allowed = [unique_pubkey(5)];
    let nodes = get_gossip_nodes(&mut rng, now, &me, 7, &crds, Some(&allowed[..]), &stakes, &SocketAddrSpace::Unspecified);
    let keys: Vec<Pubkey> = nodes.iter().map(|n| n.0).collect();
    assert_eq!(keys, vec![unique_pubkey(5)]);
}

#[test]
fn dedup_keeps_the_most_staked_node_per_address() {
    let a = addr_v4(1, 8001);
    let b = addr_v4(2, 8001);
    let node = |n: u32, addr: Option<SocketAddr>| (unique_pubkey(n), ContactInfo { outset: 0, shred_version: 0, gossip: addr });
    let mut stakes: BTreeMap<(u128, u128), u64> = BTreeMap::new();
    stakes.insert(unique_pubkey(2).key(), 5);
    stakes.insert(unique_pubkey(3).key(), 5);
    stakes.insert(unique_pubkey(4).key(), 1);
    let nodes = vec![node(1, Some(a)), node(2, Some(a)), node(3, Some(a)), node(4, Some(b)), node(5, None)];
    let mut out = dedup_gossip_addresses(nodes, &stakes);
    out.sort_by_key(|e| e.0.ip == IpAddr::V4([8, 8, 8, 2]));
    assert_eq!(out.len(), 2);
    // On address a, node 2 has the most stake; node 3 ties it and comes later.
    assert_eq!(out[0].0, a);
    assert_eq!(out[0].1, 5);
    assert_eq!(out[0].2 .0, unique_pubkey(2));
    assert_eq!(out[1].0, b);
    assert_eq!(out[1].1, 1);
    assert_eq!(out[1].2 .0, unique_pubkey(4));
}

#[test]
fn ping_gossip_addresses_keeps_nodes_that_answered() {
    let now = 10_000u64;
    let mut cache = PingCache::new(now, 1000, 10, 16);
    let answered = (unique_pubkey(1), ContactInfo { outset: 0, shred_version: 0, gossip: Some(addr_v4(1, 8001)) });
    let silent = (unique_pubkey(2), ContactInfo { outset: 0, shred_version: 0, gossip: Some(addr_v4(2, 8001)) });
    let no_addr = (unique_pubkey(3), ContactInfo { outset: 0, shred_version: 0, gossip: None });
    cache.mock_pong(remote_node_key(&answered.0, &addr_v4(1, 8001)), now);
    let (kept, pings) = maybe_ping_gossip_addresses(&mut cache, vec![answered, silent, no_addr], now);
    assert_eq!(kept.len(), 1);
    assert_eq!(kept[0].0, unique_pubkey(1));
    // The node that never answered is pinged; the one that just did is not.
    assert_eq!(pings.len(), 1);
    assert_eq!(pings[0].0, addr_v4(2, 8001));
    assert_eq!(pings[0].1, unique_pubkey(2));
    // Asked again at once, the ping is not repeated.
    let (kept, pings) = maybe_ping_gossip_addresses(&mut cache, vec![answered, silent], now + 1);
    assert_eq!(kept.len(), 1);
    assert!(pings.is_empty());
}

#[test]
fn duplicate_shred_chunks_are_stored_at_their_indices() {
    let pk = unique_pubkey(60);
    let mut gossip = CrdsGossip::new();
    let ixs = gossip.duplicate_shred_indices(&pk, 33, 3).unwrap();
    let chunks: Vec<CrdsValue> = ixs.iter().map(|&ix| dup_value(pk, ix, 33, 500)).collect();
    gossip.insert_duplicate_shred_chunks(chunks.clone(), 7);
    assert_eq!(gossip.crds.len(), 3);
    for chunk in &chunks {
        assert_eq!(gossip.crds.get(&chunk.label()).unwrap().value, *chunk);
    }
    // The proof for the slot is held now: nothing more is pushed for it.
    assert_eq!(gossip.duplicate_shred_indices(&pk, 33, 3), None);
    // The same chunks again are refused and change nothing.
    gossip.insert_duplicate_shred_chunks(chunks, 8);
    assert_eq!(gossip.crds.len(), 3);
    assert_eq!(gossip.duplicate_shred_indices(&pk, 34, 2), Some(vec![3, 4]));
}

#[test]
fn push_duplicate_shred_pairs_chunks_with_indices() {
    let pk = unique_pubkey(70);
    let mut gossip = CrdsGossip::new();
    // Two chunks of a proof for another slot are held already.
    assert_eq!(gossip.crds.insert(dup_value(pk, 0, 40, 100), 1, GossipRoute::LocalMessage), Ok(()));
    assert_eq!(gossip.crds.insert(dup_value(pk, 1, 40, 100), 1, GossipRoute::LocalMessage), Ok(()));
    let hashes = vec![hash_from(701), hash_from(702), hash_from(703)];
    assert!(gossip.push_duplicate_shred(&pk, 41, &hashes, 9));
    assert_eq!(gossip.crds.len(), 5);
    for (j, h) in hashes.iter().enumerate() {
        let value = CrdsValue { data: CrdsData::DuplicateShred(2 + j as u16, 41), pubkey: pk, wallclock: 9, hash: *h };
        let entry = gossip.crds.get(&value.label()).unwrap();
        assert_eq!(entry.value, value);
        assert_eq!(entry.local_timestamp, 9);
    }
    // A proof for the slot is held now: nothing more is pushed.
    assert!(!gossip.push_duplicate_shred(&pk, 41, &hashes, 10));
    assert_eq!(gossip.crds.len(), 5);
}

#[test]
fn each_insert_of_a_new_hash_counts_once() {
    let mut crds = Crds::new();
    let pk = unique_pubkey(80);
    let count = |c: &Crds| c.len() + c.num_purged();
    // A new label.
    let before = count(&crds);
    assert_eq!(crds.insert(contact_value(pk, 5, 0, 1, 801), 1, GossipRoute::LocalMessage), Ok(()));
    assert_eq!(count(&crds), before + 1);
    // An override: the old hash is purged.
    let before = count(&crds);
    assert_eq!(crds.insert(contact_value(pk, 6, 0, 1, 802), 2, GossipRoute::LocalMessage), Ok(()));
    assert_eq!(count(&crds), before + 1);
    // A refused older value: its own hash is purged.
    let before = count(&crds);
    assert_eq!(crds.insert(contact_value(pk, 4, 0, 1, 803), 3, GossipRoute::LocalMessage), Err(CrdsError::InsertFailed));
    assert_eq!(count(&crds), before + 1);
}
