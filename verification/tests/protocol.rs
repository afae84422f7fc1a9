use save_slots::chksum::Chksum;
use save_slots::mock::{MockFlash, SectorMockFlash};
use save_slots::storage::{Flash, Storage};
use save_slots::Slot;

const SLOT_SIZE: usize = 64;
const SLOT_COUNT: usize = 8;
const SIZE: usize = SLOT_SIZE * SLOT_COUNT;

#[derive(Debug, Clone, PartialEq, Eq)]
enum Op {
    Erase(u32),
    Write(u32, Vec<u8>),
}

/// A byte-erase device that keeps a list of what changed it.
#[derive(Debug)]
struct Recorder {
    data: Vec<u8>,
    ops: Vec<Op>,
}

impl Recorder {
    fn new() -> Self {
        Recorder { data: vec![0xFF; SIZE], ops: Vec::new() }
    }
}

impl Flash for Recorder {
    type Error = ();

    fn read(&mut self, addr: u32, buf: &mut [u8]) -> Result<(), ()> {
        let at = addr as usize;
        buf.copy_from_slice(&self.data[at..at + buf.len()]);
        Ok(())
    }

    fn write(&mut self, addr: u32, data: &[u8]) -> Result<(), ()> {
        let at = addr as usize;
        self.data[at..at + data.len()].copy_from_slice(data);
        self.ops.push(Op::Write(addr, data.to_vec()));
        Ok(())
    }

    fn erase(&mut self, addr: u32) -> Result<(), ()> {
        self.data[addr as usize] = 0xFF;
        self.ops.push(Op::Erase(addr));
        Ok(())
    }
}

fn touched(ops: &[Op]) -> Vec<u32> {
    let mut all = Vec::new();
    for op in ops {
        match op {
            Op::Erase(addr) => all.push(*addr),
            Op::Write(addr, data) => all.extend(*addr..*addr + data.len() as u32),
        }
    }
    all.sort();
    all.dedup();
    all
}

#[test]
fn the_header_is_written_last() {
    let mut storage = Storage::<_, SLOT_SIZE, SLOT_COUNT>::new(Recorder::new());
    let data: Vec<u8> = (0..130u8).collect();
    storage.append(&data).unwrap();
    let header = Slot::create(0, Chksum::zero(), &data).to_bytes().to_vec();
    assert_eq!(
        storage.flash().ops,
        vec![
            Op::Erase(0),
            Op::Write(12, data[..52].to_vec()),
            Op::Erase(64),
            Op::Write(65, data[52..115].to_vec()),
            Op::Erase(128),
            Op::Write(129, data[115..].to_vec()),
            Op::Write(0, header),
        ]
    );
}

#[test]
fn an_empty_payload_is_committed_with_three_operations() {
    let mut storage = Storage::<_, SLOT_SIZE, SLOT_COUNT>::new(Recorder::new());
    storage.append(&[]).unwrap();
    let header = Slot::create(0, Chksum::zero(), &[]).to_bytes().to_vec();
    assert_eq!(
        storage.flash().ops,
        vec![Op::Erase(0), Op::Write(12, vec![]), Op::Write(0, header)]
    );
    assert_eq!(storage.next_idx(), 1);
}

#[test]
fn a_payload_that_fills_its_slot_takes_no_second_one() {
    let mut storage = Storage::<_, SLOT_SIZE, SLOT_COUNT>::new(Recorder::new());
    storage.append(&[7; 52]).unwrap();
    assert_eq!(storage.flash().ops.len(), 3);
    assert_eq!(storage.next_idx(), 1);
    storage.append(&[7; 53]).unwrap();
    assert_eq!(storage.flash().ops.len(), 3 + 5);
    assert_eq!(storage.next_idx(), 3);
}

#[test]
fn a_record_wraps_around_the_end_of_the_ring() {
    let mut storage = Storage::<_, SLOT_SIZE, SLOT_COUNT>::new(Recorder::new());
    let data = [9u8; 100];
    let (next, chksum) = storage.write(7, Some(Chksum(5)), &data).unwrap();
    assert_eq!(next, 1);
    assert_eq!(chksum, Chksum::hash(Chksum(5), &data));
    let header = Slot::create(7, Chksum(5), &data).to_bytes().to_vec();
    assert_eq!(
        storage.flash().ops,
        vec![
            Op::Erase(448),
            Op::Write(460, vec![9; 52]),
            Op::Erase(0),
            Op::Write(1, vec![9; 48]),
            Op::Write(448, header),
        ]
    );
    // A raw write leaves the store's own place alone.
    assert_eq!(storage.next_idx(), 0);
    assert_eq!(storage.prev(), Chksum::zero());
}

#[test]
fn write_without_predecessor_starts_a_chain() {
    let mut storage = Storage::<_, SLOT_SIZE, SLOT_COUNT>::new(MockFlash::<SIZE>::new());
    let (next, chksum) = storage.write(2, None, b"first").unwrap();
    assert_eq!(next, 3);
    assert_eq!(chksum, Chksum::hash(Chksum::zero(), b"first"));
    assert_eq!(
        storage.scan().unwrap(),
        Some(Slot { idx: 2, prev: Chksum(0), chksum, len: 5 })
    );
    assert_eq!(storage.next_idx(), 3);
    assert_eq!(storage.prev(), chksum);
}

#[test]
fn slot_indices_are_taken_around_the_ring() {
    let mut storage = Storage::<_, SLOT_SIZE, SLOT_COUNT>::new(Recorder::new());
    let (next, _) = storage.write(9, None, b"wrapped").unwrap();
    assert_eq!(next, 2);
    assert_eq!(storage.flash().ops[0], Op::Erase(64));
    let mut buf = [0u8; 16];
    assert_eq!(storage.read(9, &mut buf).unwrap().map(|d| &*d), Some(&b"wrapped"[..]));
    assert_eq!(storage.read(1, &mut buf).unwrap().map(|d| &*d), Some(&b"wrapped"[..]));
    storage.erase(17).unwrap();
    assert_eq!(storage.flash().ops.last(), Some(&Op::Erase(64)));
    assert_eq!(storage.scan().unwrap(), None);
}

#[test]
fn the_medium_holds_the_record_bit_for_bit() {
    let mut storage = Storage::<_, SLOT_SIZE, SLOT_COUNT>::new(MockFlash::<SIZE>::new());
    let data: Vec<u8> = (0..120u8).collect();
    storage.append(&data).unwrap();
    let mut flash = storage.into_flash();
    let mut all = [0u8; SIZE];
    flash.read(0, &mut all).unwrap();

    let chksum = Chksum::hash(Chksum::zero(), &data);
    assert_eq!(all[0..4], chksum.to_bytes());
    assert_eq!(all[4..8], [0, 0, 0, 120]);
    assert_eq!(all[8..12], [0, 0, 0, 0]);
    assert_eq!(all[12..64], data[..52]);
    assert_eq!(all[64], 0xFF);
    assert_eq!(all[65..128], data[52..115]);
    assert_eq!(all[128], 0xFF);
    assert_eq!(all[129..134], data[115..]);
    assert!(all[134..].iter().all(|b| *b == 0xFF));
    assert_eq!(all[0] & 0x80, 0);
}

#[test]
fn commit_touches_as_many_bytes_as_the_record_takes() {
    for len in [0usize, 1, 11, 51, 52, 53, 114, 115, 116, 178, 320, 492, 493] {
        let mut storage = Storage::<_, SLOT_SIZE, SLOT_COUNT>::new(Recorder::new());
        let data = vec![0x5Au8; len];
        let (next, _) = storage.write(3, None, &data).unwrap();
        let slot = Slot::create(3, Chksum::zero(), &data);
        let used = slot.used_bytes::<SLOT_SIZE>();
        let all = touched(&storage.flash().ops);
        assert_eq!(all.len(), used, "payload of {} bytes", len);
        // They are the bytes from the start of slot 3 on, around the ring.
        let mut expected: Vec<u32> = (0..used as u32).map(|b| (192 + b) % SIZE as u32).collect();
        expected.sort();
        assert_eq!(all, expected);
        assert_eq!(next, slot.next_slot::<SLOT_SIZE, SLOT_COUNT>());
        assert_eq!(next, (3 + (used + SLOT_SIZE - 1) / SLOT_SIZE) % SLOT_COUNT);
    }
}

#[test]
fn the_longest_payload_takes_the_whole_ring() {
    let longest = 52 + 7 * 63;
    let data: Vec<u8> = (0..longest).map(|n| (n % 251) as u8).collect();
    let mut storage = Storage::<_, SLOT_SIZE, SLOT_COUNT>::new(SectorMockFlash::<64, 8>::new());
    storage.append(&data).unwrap();
    assert_eq!(storage.next_idx(), 0);
    let found = storage.scan().unwrap().unwrap();
    assert_eq!(found, Slot::create(0, Chksum::zero(), &data));
    assert_eq!(found.used_bytes::<SLOT_SIZE>(), SIZE);
    let mut buf = vec![0u8; longest];
    assert_eq!(storage.read(0, &mut buf).unwrap().map(|d| &*d), Some(&data[..]));
}

#[test]
fn a_payload_longer_than_the_ring_touches_fewer_bytes_than_it_takes() {
    // 512 payload bytes take 532 bytes in nine slots; the ring has 512.
    let mut storage = Storage::<_, SLOT_SIZE, SLOT_COUNT>::new(Recorder::new());
    let data = vec![1u8; SIZE];
    let (next, _) = storage.write(0, None, &data).unwrap();
    let slot = Slot::create(0, Chksum::zero(), &data);
    assert_eq!(slot.used_bytes::<SLOT_SIZE>(), 532);
    assert_eq!(next, 1);
    assert_eq!(touched(&storage.flash().ops).len(), SIZE);
}

#[test]
fn round_trip_for_every_length_that_fits() {
    for len in 0..=(52 + 7 * 63) {
        let data: Vec<u8> = (0..len).map(|n| (n * 7 + len) as u8).collect();
        let mut storage = Storage::<_, SLOT_SIZE, SLOT_COUNT>::new(MockFlash::<SIZE>::new());
        storage.append(b"before").unwrap();
        storage.append(&data).unwrap();
        let found = storage.scan().unwrap().unwrap();
        assert_eq!(found.idx, 1);
        assert_eq!(found.len as usize, len);
        let mut buf = vec![0u8; len];
        assert_eq!(storage.read(found.idx, &mut buf).unwrap().map(|d| &*d), Some(&data[..]));
    }
}

#[test]
fn round_trip_on_the_sector_device() {
    for len in [0usize, 1, 52, 53, 115, 116, 300, 430] {
        let data: Vec<u8> = (0..len).map(|n| (n * 13 + 5) as u8).collect();
        let mut storage = Storage::<_, SLOT_SIZE, SLOT_COUNT>::new(SectorMockFlash::<64, 8>::new());
        storage.append(b"before").unwrap();
        storage.append(&data).unwrap();
        let found = storage.scan().unwrap().unwrap();
        assert_eq!(found, Slot::create(1, Chksum::hash(Chksum(0), b"before"), &data));
        let mut buf = vec![0u8; 512];
        assert_eq!(storage.read(found.idx, &mut buf).unwrap().map(|d| &*d), Some(&data[..]));
    }
}

#[test]
fn read_leaves_the_rest_of_the_buffer_alone() {
    let mut storage = Storage::<_, SLOT_SIZE, SLOT_COUNT>::new(MockFlash::<SIZE>::new());
    storage.append(b"hello world").unwrap();
    let mut buf = [0xA5u8; 16];
    let data = storage.read(0, &mut buf).unwrap().unwrap();
    assert_eq!(data.len(), 11);
    data[0] = b'j';
    assert_eq!(&buf[..11], b"jello world");
    assert_eq!(buf[11..], [0xA5; 5]);
}

#[test]
fn read_needs_a_buffer_as_long_as_the_payload() {
    let mut storage = Storage::<_, SLOT_SIZE, SLOT_COUNT>::new(MockFlash::<SIZE>::new());
    storage.append(b"hello world").unwrap();
    let mut short = [0u8; 10];
    assert_eq!(storage.read(0, &mut short).unwrap(), None);
    let mut exact = [0u8; 11];
    assert_eq!(storage.read(0, &mut exact).unwrap().map(|d| &*d), Some(&b"hello world"[..]));
}

#[test]
fn read_of_an_erased_slot_finds_no_room() {
    // Erased flash spells a length of 0xFFFFFFFF.
    let mut storage = Storage::<_, SLOT_SIZE, SLOT_COUNT>::new(MockFlash::<SIZE>::new());
    let mut buf = [0u8; 64];
    assert_eq!(storage.read(3, &mut buf).unwrap(), None);
}

#[test]
fn read_does_not_check_the_checksum() {
    let mut storage = Storage::<_, SLOT_SIZE, SLOT_COUNT>::new(MockFlash::<SIZE>::new());
    storage.append(b"hello world").unwrap();
    let mut flash = storage.into_flash();
    flash.write(12, b"j").unwrap();
    let mut storage = Storage::<_, SLOT_SIZE, SLOT_COUNT>::new(flash);
    let mut buf = [0u8; 16];
    assert_eq!(storage.read(0, &mut buf).unwrap().map(|d| &*d), Some(&b"jello world"[..]));
}

#[test]
fn read_static_reads_from_the_first_slot() {
    let mut storage = Storage::<_, SLOT_SIZE, SLOT_COUNT>::new(MockFlash::<SIZE>::new());
    storage.append(b"first").unwrap();
    storage.append(b"hello world").unwrap();
    assert_eq!(storage.read_static::<5>(1).unwrap(), *b"hello");
    assert_eq!(storage.read_static::<11>(1).unwrap(), *b"hello world");
    assert_eq!(storage.read_static::<0>(1).unwrap(), []);
    let all = storage.read_static::<52>(0).unwrap();
    assert_eq!(&all[..5], b"first");
    assert!(all[5..].iter().all(|b| *b == 0xFF));
}

#[test]
fn erase_takes_a_record_out_of_sight() {
    let mut storage = Storage::<_, SLOT_SIZE, SLOT_COUNT>::new(MockFlash::<SIZE>::new());
    storage.append(b"one").unwrap();
    storage.append(b"two").unwrap();
    let one = Slot::create(0, Chksum::zero(), b"one");
    let two = Slot::create(1, one.chksum, b"two");
    assert_eq!(storage.scan().unwrap(), Some(two));
    storage.erase(1).unwrap();
    assert_eq!(storage.scan().unwrap(), Some(one));
    assert_eq!(storage.next_idx(), 1);
    assert_eq!(storage.prev(), one.chksum);
    storage.erase(0).unwrap();
    assert_eq!(storage.scan().unwrap(), None);
    // A scan that finds nothing leaves the store's place alone.
    assert_eq!(storage.next_idx(), 1);
    assert_eq!(storage.prev(), one.chksum);
}

#[test]
fn erase_all_starts_over_at_slot_zero() {
    for sector in [false, true] {
        let check = |found: Option<Slot>, next: usize, prev: Chksum| {
            assert_eq!(found, None);
            assert_eq!(next, 0);
            assert_eq!(prev, Chksum::zero());
        };
        let fresh = Slot::create(0, Chksum::zero(), b"fresh");
        if sector {
            let mut storage = Storage::<_, 64, 8>::new(SectorMockFlash::<64, 8>::new());
            for n in 0..11u8 {
                storage.append(&[n; 70]).unwrap();
            }
            storage.erase_all().unwrap();
            let found = storage.scan().unwrap();
            check(found, storage.next_idx(), storage.prev());
            storage.erase_all().unwrap();
            assert_eq!(storage.scan().unwrap(), None);
            storage.append(b"fresh").unwrap();
            assert_eq!(storage.scan().unwrap(), Some(fresh));
        } else {
            let mut storage = Storage::<_, 64, 8>::new(MockFlash::<SIZE>::new());
            for n in 0..11u8 {
                storage.append(&[n; 70]).unwrap();
            }
            storage.erase_all().unwrap();
            let found = storage.scan().unwrap();
            check(found, storage.next_idx(), storage.prev());
            storage.erase_all().unwrap();
            assert_eq!(storage.scan().unwrap(), None);
            storage.append(b"fresh").unwrap();
            assert_eq!(storage.scan().unwrap(), Some(fresh));
        }
    }
}

#[test]
fn multi_slot_records_follow_each_other() {
    let mut storage = Storage::<_, SLOT_SIZE, SLOT_COUNT>::new(MockFlash::<SIZE>::new());
    storage.append(&[b'A'; 320]).unwrap();
    let first = storage.scan().unwrap().unwrap();
    assert_eq!((first.idx, first.len), (0, 320));
    assert_eq!(first.next_slot::<SLOT_SIZE, SLOT_COUNT>(), 6);
    let mut buf = [0u8; 512];
    assert_eq!(storage.read(0, &mut buf).unwrap().map(|d| &*d), Some(&[b'A'; 320][..]));

    storage.append(&[b'B'; 320]).unwrap();
    let second = storage.scan().unwrap().unwrap();
    assert_eq!((second.idx, second.len, second.prev), (6, 320, first.chksum));
    assert_eq!(storage.next_idx(), 4);
    assert_eq!(storage.read(6, &mut buf).unwrap().map(|d| &*d), Some(&[b'B'; 320][..]));
}

#[test]
fn the_chain_is_followed_in_slot_order() {
    let mut storage = Storage::<_, SLOT_SIZE, SLOT_COUNT>::new(MockFlash::<SIZE>::new());
    let mut prev = Chksum::zero();
    for n in 0..5u8 {
        storage.append(&[n]).unwrap();
        prev = Chksum::hash(prev, &[n]);
        let found = storage.scan().unwrap().unwrap();
        assert_eq!(found.idx, n as usize);
        assert_eq!(found.chksum, prev);
        assert_eq!(found.chksum, Chksum::hash(found.prev, &[n]));
        assert_eq!(storage.prev(), prev);
    }
}

#[test]
fn of_two_unlinked_records_the_first_is_kept() {
    let mut storage = Storage::<_, SLOT_SIZE, SLOT_COUNT>::new(MockFlash::<SIZE>::new());
    let (_, a) = storage.write(2, Some(Chksum(1)), b"a").unwrap();
    storage.write(5, Some(Chksum(2)), b"b").unwrap();
    assert_eq!(
        storage.scan().unwrap(),
        Some(Slot { idx: 2, prev: Chksum(1), chksum: a, len: 1 })
    );
}

#[test]
fn a_header_with_an_invalid_predecessor_is_skipped() {
    let mut storage = Storage::<_, SLOT_SIZE, SLOT_COUNT>::new(MockFlash::<SIZE>::new());
    storage.write(0, Some(Chksum(0x8000_0000)), b"a").unwrap();
    assert_eq!(storage.scan().unwrap(), None);
}

#[test]
fn a_stale_header_that_names_the_newest_record_takes_the_scan_along() {
    // The ninth record's checksum is that of the first, which is gone but
    // still named by the second: the scan follows the old chain from there.
    let mut storage = Storage::<_, SLOT_SIZE, SLOT_COUNT>::new(MockFlash::<SIZE>::new());
    for n in 0..8u8 {
        storage.append(&[0, 0, 0, n, 0, 0]).unwrap();
    }
    let first = Chksum::hash(Chksum::zero(), &[0, 0, 0, 0, 0, 0]);
    assert_eq!(first, Chksum(900587333));
    let eighth = storage.prev();
    storage.append(&[0, 37, 229, 34, 32, 64, 47]).unwrap();
    assert_eq!(storage.prev(), first);
    assert_eq!(storage.next_idx(), 1);

    let found = storage.scan().unwrap().unwrap();
    assert_eq!(found.idx, 7);
    assert_eq!(found.chksum, eighth);
    assert_eq!(storage.next_idx(), 0);
}

#[test]
fn the_ring_takes_slot_size_times_slot_count_bytes() {
    assert_eq!(Storage::<MockFlash<SIZE>, SLOT_SIZE, SLOT_COUNT>::space(), 512);
    assert_eq!(Storage::<MockFlash<26>, 13, 2>::space(), 26);
}

#[test]
fn the_smallest_ring_holds_a_record() {
    // Two slots of thirteen bytes: one payload byte in the first, twelve
    // in the second.
    let mut storage = Storage::<_, 13, 2>::new(MockFlash::<26>::new());
    let data: Vec<u8> = (1..=13).collect();
    storage.append(&data).unwrap();
    assert_eq!(storage.next_idx(), 0);
    let found = storage.scan().unwrap().unwrap();
    assert_eq!(found, Slot::create(0, Chksum::zero(), &data));
    let mut buf = [0u8; 13];
    assert_eq!(storage.read(0, &mut buf).unwrap().map(|d| &*d), Some(&data[..]));

    storage.append(&[9]).unwrap();
    let found = storage.scan().unwrap().unwrap();
    assert_eq!((found.idx, found.len, storage.next_idx()), (0, 1, 1));
}
