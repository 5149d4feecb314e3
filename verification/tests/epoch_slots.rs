use agave::bitvec::SlotBits;
use agave::epoch_slots::{
    CompressedSlots, EpochSlots, Flate2, Uncompressed, MAX_SLOT, MAX_SLOTS_PER_ENTRY, MAX_WALLCLOCK,
};
use agave::sanitize::{Sanitize, SanitizeError};
use rand::Rng;
use std::iter::repeat_with;

#[test]
fn test_epoch_slots_max_size() {
    let epoch_slots = EpochSlots::default();
    assert!(epoch_slots.max_compressed_slot_size() > 0);
}

#[test]
fn test_epoch_slots_uncompressed_add_1() {
    let mut slots = Uncompressed::new(1);
    assert_eq!(slots.slots.capacity(), 8);
    assert_eq!(slots.add(&[1]), 1);
    assert_eq!(slots.to_slots(1), vec![1]);
    assert!(slots.to_slots(2).is_empty());
}

#[test]
fn test_epoch_slots_to_slots_overflow() {
    let mut slots = Uncompressed::new(1);
    slots.num = 100;
    assert!(slots.to_slots(0).is_empty());
}

#[test]
fn test_epoch_slots_uncompressed_add_2() {
    let mut slots = Uncompressed::new(1);
    assert_eq!(slots.add(&[1, 2]), 2);
    assert_eq!(slots.to_slots(1), vec![1, 2]);
}

#[test]
fn test_epoch_slots_uncompressed_add_3a() {
    let mut slots = Uncompressed::new(1);
    assert_eq!(slots.add(&[1, 3, 2]), 3);
    assert_eq!(slots.to_slots(1), vec![1, 2, 3]);
}

#[test]
fn test_epoch_slots_uncompressed_add_3b() {
    let mut slots = Uncompressed::new(1);
    assert_eq!(slots.add(&[1, 10, 2]), 1);
    assert_eq!(slots.to_slots(1), vec![1]);
}

#[test]
fn test_epoch_slots_uncompressed_add_3c() {
    let mut slots = Uncompressed::new(2);
    assert_eq!(slots.add(&[1, 10, 2]), 3);
    assert_eq!(slots.to_slots(1), vec![1, 2, 10]);
    assert_eq!(slots.to_slots(2), vec![2, 10]);
    assert_eq!(slots.to_slots(3), vec![10]);
    assert!(slots.to_slots(11).is_empty());
}

#[test]
fn test_epoch_slots_compressed() {
    let mut slots = Uncompressed::new(100);
    slots.add(&[1, 701, 2]);
    assert_eq!(slots.num, 701);
    let compressed = Flate2::deflate(slots).unwrap();
    assert_eq!(compressed.first_slot, 1);
    assert_eq!(compressed.num, 701);
    assert!(compressed.compressed.len() < 32);
    let slots = compressed.inflate().unwrap();
    assert_eq!(slots.first_slot, 1);
    assert_eq!(slots.num, 701);
    assert_eq!(slots.to_slots(1), vec![1, 2, 701]);
}

#[test]
fn test_epoch_slots_sanitize() {
    let mut slots = Uncompressed::new(100);
    slots.add(&[1, 701, 2]);
    assert_eq!(slots.num, 701);
    assert!(slots.sanitize().is_ok());

    let mut o = slots.clone();
    o.first_slot = MAX_SLOT;
    assert_eq!(o.sanitize(), Err(SanitizeError::ValueOutOfBounds));

    let mut o = slots.clone();
    o.num = MAX_SLOTS_PER_ENTRY;
    assert_eq!(o.sanitize(), Err(SanitizeError::ValueOutOfBounds));

    let mut o = slots.clone();
    o.slots = SlotBits::new_cleared(7); // Length not a multiple of 8
    assert_eq!(o.sanitize(), Err(SanitizeError::ValueOutOfBounds));

    let mut o = slots.clone();
    o.slots = SlotBits::with_capacity(8); // capacity() not equal to len()
    assert_eq!(o.sanitize(), Err(SanitizeError::ValueOutOfBounds));

    let compressed = Flate2::deflate(slots).unwrap();
    assert!(compressed.sanitize().is_ok());

    let mut o = compressed.clone();
    o.first_slot = MAX_SLOT;
    assert_eq!(o.sanitize(), Err(SanitizeError::ValueOutOfBounds));

    let mut o = compressed;
    o.num = MAX_SLOTS_PER_ENTRY;
    assert_eq!(o.sanitize(), Err(SanitizeError::ValueOutOfBounds));

    let mut slots = EpochSlots::default();
    let range: Vec<u64> = (0..5000).collect();
    assert_eq!(slots.fill(&range, 1), 5000);
    assert_eq!(slots.wallclock, 1);
    assert!(slots.sanitize().is_ok());

    let mut o = slots;
    o.wallclock = MAX_WALLCLOCK;
    assert_eq!(o.sanitize(), Err(SanitizeError::ValueOutOfBounds));
}

#[test]
fn test_epoch_slots_fill_range() {
    let range: Vec<u64> = (0..5000).collect();
    let mut slots = EpochSlots::default();
    assert_eq!(slots.fill(&range, 1), 5000);
    assert_eq!(slots.wallclock, 1);
    assert_eq!(slots.to_slots(0), range);
    assert_eq!(slots.to_slots(4999), vec![4999]);
    assert!(slots.to_slots(5000).is_empty());
}

#[test]
fn test_epoch_slots_fill_sparce_range() {
    let range: Vec<u64> = (0..5000).map(|x| x * 3).collect();
    let mut slots = EpochSlots::default();
    assert_eq!(slots.fill(&range, 2), 5000);
    assert_eq!(slots.wallclock, 2);
    assert_eq!(slots.slots.len(), 3);
    assert_eq!(slots.slots[0].first_slot(), 0);
    assert_ne!(slots.slots[0].num_slots(), 0);
    let next = slots.slots[0].num_slots() as u64 + slots.slots[0].first_slot();
    assert!(slots.slots[1].first_slot() >= next);
    assert_ne!(slots.slots[1].num_slots(), 0);
    assert_ne!(slots.slots[2].num_slots(), 0);
    assert_eq!(slots.to_slots(0), range);
    assert_eq!(slots.to_slots(4999 * 3), vec![4999 * 3]);
}

#[test]
fn test_epoch_slots_fill_large_sparce_range() {
    let range: Vec<u64> = (0..5000).map(|x| x * 7).collect();
    let mut slots = EpochSlots::default();
    assert_eq!(slots.fill(&range, 2), 5000);
    assert_eq!(slots.to_slots(0), range);
}

fn make_rand_slots<R: Rng>(rng: &mut R) -> impl Iterator<Item = u64> + '_ {
    repeat_with(|| rng.gen_range(1..5)).scan(0, |slot, step| {
        *slot += step;
        Some(*slot)
    })
}

#[test]
fn test_epoch_slots_fill_uncompressed_random_range() {
    let mut rng = rand::thread_rng();
    for _ in 0..10 {
        let range: Vec<u64> = make_rand_slots(&mut rng).take(5000).collect();
        let sz = EpochSlots::default().max_compressed_slot_size();
        let mut slots = Uncompressed::new(sz as usize);
        let sz = slots.add(&range);
        let slots = slots.to_slots(0);
        assert_eq!(slots.len(), sz);
        assert_eq!(slots[..], range[..sz]);
    }
}

#[test]
fn test_epoch_slots_fill_compressed_random_range() {
    let mut rng = rand::thread_rng();
    for _ in 0..10 {
        let range: Vec<u64> = make_rand_slots(&mut rng).take(5000).collect();
        let sz = EpochSlots::default().max_compressed_slot_size();
        let mut slots = Uncompressed::new(sz as usize);
        let sz = slots.add(&range);
        let mut slots = CompressedSlots::Uncompressed(slots);
        slots.deflate().unwrap();
        let slots = slots.to_slots(0).unwrap();
        assert_eq!(slots.len(), sz);
        assert_eq!(slots[..], range[..sz]);
    }
}

#[test]
fn test_epoch_slots_fill_random_range() {
    let mut rng = rand::thread_rng();
    for _ in 0..10 {
        let range: Vec<u64> = make_rand_slots(&mut rng).take(5000).collect();
        let mut slots = EpochSlots::default();
        let sz = slots.fill(&range, 1);
        let last = range[sz - 1];
        assert_eq!(
            last,
            slots.slots.last().unwrap().first_slot()
                + slots.slots.last().unwrap().num_slots() as u64
                - 1
        );
        for s in &slots.slots {
            assert!(s.to_slots(0).is_ok());
        }
        let slots = slots.to_slots(0);
        assert_eq!(slots[..], range[..slots.len()]);
        assert_eq!(sz, slots.len())
    }
}

// An empty entry in a gossip value leaves 851 bytes for the slots of a new entry.
#[test]
fn test_epoch_slots_default_room() {
    assert_eq!(EpochSlots::default().max_compressed_slot_size(), 851);
}

// Slots before the first slot, or past the bit-vector, stop the adding.
#[test]
fn test_uncompressed_add_stops_before_first_slot() {
    let mut slots = Uncompressed::new(1);
    assert_eq!(slots.add(&[5, 4, 6]), 1);
    assert_eq!(slots.first_slot, 5);
    assert_eq!(slots.num, 1);
    assert_eq!(slots.to_slots(0), vec![5]);
}

// A compressed entry takes no slots.
#[test]
fn test_compressed_entry_takes_no_slots() {
    let mut slots = Uncompressed::new(100);
    slots.add(&[3]);
    let mut slots = CompressedSlots::Uncompressed(slots);
    slots.deflate().unwrap();
    assert_eq!(slots.add(&[4]), 0);
    assert_eq!(slots.first_slot(), 3);
    assert_eq!(slots.num_slots(), 1);
}

// The first slot of an epoch-slots value is the least first slot of its entries.
#[test]
fn test_epoch_slots_first_slot() {
    let range: Vec<u64> = (0..5000).map(|x| 10 + x * 3).collect();
    let mut slots = EpochSlots::default();
    assert_eq!(slots.first_slot(), None);
    slots.fill(&range, 1);
    assert_eq!(slots.first_slot(), Some(10));
}

// An entry too small to hold its own compressed stream stays uncompressed.
#[test]
fn test_tiny_entry_does_not_deflate() {
    let mut slots = Uncompressed::new(1);
    slots.add(&[3]);
    let mut slots = CompressedSlots::Uncompressed(slots);
    assert!(slots.deflate().is_err());
    assert_eq!(slots.to_slots(0).unwrap(), vec![3]);
}
