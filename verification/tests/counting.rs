use save_slots::chksum::Chksum;
use save_slots::mock::{CountingFlash, MockFlash, SectorMockFlash};
use save_slots::storage::{Flash, Storage};
use save_slots::Slot;

const SLOT_SIZE: usize = 64;
const SLOT_COUNT: usize = 8;
const SIZE: usize = SLOT_SIZE * SLOT_COUNT;

type Counted = Storage<CountingFlash<MockFlash<SIZE>>, SLOT_SIZE, SLOT_COUNT>;

fn counted_storage() -> Counted {
    Storage::new(CountingFlash::new(MockFlash::<SIZE>::new()))
}

#[test]
fn empty_scan_reads_one_byte_per_slot() {
    let mut storage = counted_storage();
    assert_eq!(storage.scan().unwrap(), None);
    assert_eq!(storage.flash().read_bytes(), SLOT_COUNT);
    assert_eq!(storage.flash().written_bytes(), 0);
    assert_eq!(storage.flash().erases(), 0);
    assert_eq!(storage.next_idx(), 0);
    assert_eq!(storage.prev(), Chksum::zero());
}

#[test]
fn single_small_record_costs_one_erase_and_23_bytes() {
    let mut storage = counted_storage();
    storage.append(b"hello world").unwrap();
    assert_eq!(storage.flash().written_bytes(), 23);
    assert_eq!(storage.flash().erases(), 1);
    assert_eq!(storage.flash().read_bytes(), 0);

    let found = storage.scan().unwrap();
    assert_eq!(
        found,
        Some(Slot {
            idx: 0,
            prev: Chksum(0),
            chksum: Chksum::hash(Chksum(0), b"hello world"),
            len: 11,
        })
    );
    assert_eq!(storage.flash().written_bytes(), 23);
    assert_eq!(storage.flash().erases(), 1);
}

#[test]
fn scan_reads_the_rest_of_a_header_only_where_the_first_byte_is_written() {
    let mut storage = counted_storage();
    storage.append(b"hello world").unwrap();
    storage.scan().unwrap();
    // One byte for each of the eight slots, eleven more for the one header.
    assert_eq!(storage.flash().read_bytes(), 8 + 11);
}

#[test]
fn read_back_costs_header_and_payload() {
    let mut storage = counted_storage();
    storage.append(b"hello world").unwrap();
    storage.scan().unwrap();
    let before = storage.flash().read_bytes();

    let mut buf = [0u8; 1024];
    let data = storage.read(0, &mut buf).unwrap();
    assert_eq!(data.map(|d| &*d), Some(&b"hello world"[..]));
    assert_eq!(storage.flash().read_bytes() - before, 23);
    assert_eq!(storage.flash().written_bytes(), 23);
    assert_eq!(storage.flash().erases(), 1);
}

#[test]
fn read_into_a_short_buffer_reads_the_header_alone() {
    let mut storage = counted_storage();
    storage.append(b"hello world").unwrap();
    let mut buf = [0u8; 10];
    assert_eq!(storage.read(0, &mut buf).unwrap(), None);
    assert_eq!(storage.flash().read_bytes(), 12);
    assert_eq!(buf, [0u8; 10]);
}

#[test]
fn multi_slot_record_costs_one_erase_per_slot() {
    let mut storage = counted_storage();
    storage.append(&[b'A'; 320]).unwrap();
    // 12 + 320 bytes are written; the five reserved bytes are only erased.
    assert_eq!(storage.flash().written_bytes(), 332);
    assert_eq!(storage.flash().erases(), 6);
    assert_eq!(storage.next_idx(), 6);
}

#[test]
fn erase_all_erases_every_slot_once() {
    let mut storage = counted_storage();
    storage.append(b"hello world").unwrap();
    storage.erase_all().unwrap();
    assert_eq!(storage.flash().erases(), 1 + SLOT_COUNT);
    assert_eq!(storage.flash().written_bytes(), 23);
}

#[test]
fn counting_wrapper_hands_operations_on() {
    let mut flash = CountingFlash::new(SectorMockFlash::<16, 2>::new());
    flash.write(3, &[0x0F, 0xF0]).unwrap();
    flash.write(3, &[0x3C, 0x3C]).unwrap();
    let mut buf = [0u8; 4];
    flash.read(2, &mut buf).unwrap();
    assert_eq!(buf, [0xFF, 0x0C, 0x30, 0xFF]);
    flash.erase(5).unwrap();
    flash.read(2, &mut buf).unwrap();
    assert_eq!(buf, [0xFF; 4]);
    assert_eq!(flash.read_bytes(), 8);
    assert_eq!(flash.written_bytes(), 4);
    assert_eq!(flash.erases(), 1);

    let mut inner = flash.into_inner();
    inner.read(0, &mut buf).unwrap();
    assert_eq!(buf, [0xFF; 4]);
}

#[test]
fn counting_wrapper_counts_empty_operations() {
    let mut flash = CountingFlash::new(MockFlash::<8>::new());
    flash.write(0, &[]).unwrap();
    flash.read(8, &mut []).unwrap();
    assert_eq!(flash.read_bytes(), 0);
    assert_eq!(flash.written_bytes(), 0);
    assert_eq!(flash.erases(), 0);
}
