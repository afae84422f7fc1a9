use save_slots::chksum::Chksum;
use save_slots::Slot;

const SLOT_SIZE: usize = 64;
const SLOT_COUNT: usize = 8;

#[test]
fn test_slot_to_bytes() {
    let slot = Slot::create(0, Chksum::zero(), b"hello");
    assert_eq!(slot.to_bytes(), [116, 186, 120, 103, 0, 0, 0, 5, 0, 0, 0, 0]);

    let append = Slot::create(1, slot.chksum, b"world");
    assert_eq!(
        append.to_bytes(),
        [21, 165, 57, 22, 0, 0, 0, 5, 116, 186, 120, 103]
    );
}

#[test]
fn test_slot_size_small() {
    let slot = Slot::create(0, Chksum::zero(), b"ohai!");
    assert_eq!(slot.used_bytes::<SLOT_SIZE>(), Slot::HEADER_SIZE + 5);
    assert_eq!(slot.next_slot::<SLOT_SIZE, SLOT_COUNT>(), 1);
}

#[test]
fn test_slot_size_full() {
    let bytes = [b'B'; SLOT_SIZE - Slot::HEADER_SIZE];
    let slot = Slot::create(0, Chksum::zero(), &bytes);
    assert_eq!(slot.used_bytes::<SLOT_SIZE>(), SLOT_SIZE);
    assert_eq!(slot.next_slot::<SLOT_SIZE, SLOT_COUNT>(), 1);
}

#[test]
fn test_slot_spill_over() {
    let bytes = [b'B'; SLOT_SIZE];
    let slot = Slot::create(0, Chksum::zero(), &bytes);
    assert_eq!(
        slot.used_bytes::<SLOT_SIZE>(),
        // One extra because the continue-header
        Slot::HEADER_SIZE + SLOT_SIZE + 1,
    );
    assert_eq!(slot.next_slot::<SLOT_SIZE, SLOT_COUNT>(), 2);
}

#[test]
fn test_slot_spill_over_twice() {
    let bytes = [b'B'; SLOT_SIZE * 2];
    let slot = Slot::create(0, Chksum::zero(), &bytes);
    assert_eq!(
        slot.used_bytes::<SLOT_SIZE>(),
        // Two extra because the continue-header
        Slot::HEADER_SIZE + SLOT_SIZE * 2 + 2,
    );
    assert_eq!(slot.next_slot::<SLOT_SIZE, SLOT_COUNT>(), 3);
}

#[test]
fn header_size_is_twelve() {
    assert_eq!(Slot::HEADER_SIZE, 12);
    assert_eq!(Chksum::SIZE, 4);
    assert_eq!(save_slots::layout::HEADER_SIZE, 12);
}

#[test]
fn create_fills_every_field() {
    let prev = Chksum(0x1234_5678);
    let slot = Slot::create(5, prev, b"hello world");
    assert_eq!(
        slot,
        Slot {
            idx: 5,
            prev,
            chksum: Chksum::hash(prev, b"hello world"),
            len: 11,
        }
    );
    assert!(slot.is_valid());
}

#[test]
fn header_starts_with_its_own_checksum() {
    let slot = Slot {
        idx: 3,
        prev: Chksum(0x0A0B_0C0D),
        chksum: Chksum(0x0102_0304),
        len: 0x0506_0708,
    };
    assert_eq!(slot.to_bytes(), [1, 2, 3, 4, 5, 6, 7, 8, 0x0A, 0x0B, 0x0C, 0x0D]);
}

#[test]
fn header_bytes_round_trip() {
    let slot = Slot::create(7, Chksum(77), &[1, 2, 3, 4, 5, 6, 7, 8, 9]);
    assert_eq!(Slot::from_bytes(7, slot.to_bytes()), slot);
    let bytes = [9, 8, 7, 6, 5, 4, 3, 2, 1, 0, 255, 254];
    assert_eq!(Slot::from_bytes(0, bytes).to_bytes(), bytes);
}

#[test]
fn from_bytes_reads_erased_flash_as_invalid() {
    let slot = Slot::from_bytes(2, [0xFF; 12]);
    assert_eq!(
        slot,
        Slot {
            idx: 2,
            prev: Chksum(u32::MAX),
            chksum: Chksum(u32::MAX),
            len: u32::MAX,
        }
    );
    assert!(!slot.is_valid());
}

#[test]
fn a_header_is_valid_only_if_both_checksums_are() {
    let good = Chksum(1);
    let bad = Chksum(0x8000_0001);
    let with = |prev, chksum| Slot { idx: 0, prev, chksum, len: 0 };
    assert!(with(good, good).is_valid());
    assert!(!with(bad, good).is_valid());
    assert!(!with(good, bad).is_valid());
    assert!(!with(bad, bad).is_valid());
}

#[test]
fn a_half_written_header_is_invalid() {
    // The checksum landed, the rest of the header still reads as erased.
    let bytes = [0x12, 0x34, 0x56, 0x78, 0xFF, 0xFF, 0xFF, 0xFF, 0xFF, 0xFF, 0xFF, 0xFF];
    assert!(!Slot::from_bytes(0, bytes).is_valid());
}

#[test]
fn update_follows_the_chain() {
    let first = Slot::create(0, Chksum::zero(), b"one");
    let second = Slot::create(1, first.chksum, b"two");
    assert!(second.is_update_to(&first));
    assert!(!first.is_update_to(&second));
    assert!(!first.is_update_to(&first));
}

#[test]
fn empty_payload_takes_the_header_alone() {
    let slot = Slot::create(0, Chksum::zero(), &[]);
    assert_eq!(slot.len, 0);
    assert_eq!(slot.used_bytes::<SLOT_SIZE>(), 12);
    assert_eq!(slot.next_slot::<SLOT_SIZE, SLOT_COUNT>(), 1);
}

#[test]
fn used_bytes_at_the_slot_boundaries() {
    let used = |len: u32| Slot { idx: 0, prev: Chksum(0), chksum: Chksum(0), len }.used_bytes::<64>();
    // The first slot holds 52 payload bytes, each further one 63.
    assert_eq!(used(52), 64);
    assert_eq!(used(53), 12 + 53 + 1);
    assert_eq!(used(52 + 63), 12 + 115 + 1);
    assert_eq!(used(52 + 63 + 1), 12 + 116 + 2);
    assert_eq!(used(320), 12 + 320 + 5);
    assert_eq!(used(52 + 7 * 63), 512);
}

#[test]
fn next_slot_wraps_around_the_ring() {
    let next = |idx: usize, len: u32| {
        Slot { idx, prev: Chksum(0), chksum: Chksum(0), len }.next_slot::<64, 8>()
    };
    assert_eq!(next(7, 6), 0);
    assert_eq!(next(6, 320), 4);
    assert_eq!(next(0, 320), 6);
    assert_eq!(next(0, 128), 3);
    assert_eq!(next(0, 52 + 7 * 63), 0);
    assert_eq!(next(9, 6), 2);
    assert_eq!(next(usize::MAX, 6), (usize::MAX % 8 + 1) % 8);
}

#[test]
fn smallest_slot_size() {
    let slot = Slot { idx: 0, prev: Chksum(0), chksum: Chksum(0), len: 30 };
    // A slot of 13 bytes holds one payload byte first, then twelve per slot.
    assert_eq!(slot.used_bytes::<13>(), 12 + 30 + 3);
    assert_eq!(slot.next_slot::<13, 16>(), 4);
}

#[test]
fn longest_payload() {
    let slot = Slot { idx: 0, prev: Chksum(0), chksum: Chksum(0), len: u32::MAX };
    let rest = u32::MAX as u64 - 52;
    let more = (rest + 62) / 63;
    assert_eq!(slot.used_bytes::<64>() as u64, 12 + u32::MAX as u64 + more);
    assert_eq!(slot.next_slot::<64, 8>() as u64, (1 + more) % 8);
}
