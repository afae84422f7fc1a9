use save_slots::mock::{MockFlash, SectorMockFlash};
use save_slots::storage::Flash;

#[test]
fn byte_device_starts_erased() {
    let mut flash = MockFlash::<32>::new();
    let mut buf = [0u8; 32];
    flash.read(0, &mut buf).unwrap();
    assert_eq!(buf, [0xFF; 32]);
    let mut flash = MockFlash::<32>::default();
    flash.read(0, &mut buf).unwrap();
    assert_eq!(buf, [0xFF; 32]);
}

#[test]
fn byte_device_stores_bytes_as_given() {
    let mut flash = MockFlash::<32>::new();
    flash.write(4, &[1, 2, 3]).unwrap();
    flash.write(5, &[0xF0, 0x0F]).unwrap();
    let mut buf = [0u8; 5];
    flash.read(3, &mut buf).unwrap();
    assert_eq!(buf, [0xFF, 1, 0xF0, 0x0F, 0xFF]);
}

#[test]
fn byte_device_erases_one_byte() {
    let mut flash = MockFlash::<32>::new();
    flash.write(0, &[0; 32]).unwrap();
    flash.erase(7).unwrap();
    let mut buf = [0u8; 32];
    flash.read(0, &mut buf).unwrap();
    let mut expected = [0u8; 32];
    expected[7] = 0xFF;
    assert_eq!(buf, expected);
}

#[test]
fn byte_device_reads_and_writes_up_to_its_end() {
    let mut flash = MockFlash::<4>::new();
    flash.write(2, &[9, 8]).unwrap();
    let mut buf = [0u8; 2];
    flash.read(2, &mut buf).unwrap();
    assert_eq!(buf, [9, 8]);
    flash.erase(3).unwrap();
    flash.read(2, &mut buf).unwrap();
    assert_eq!(buf, [9, 0xFF]);
}

#[test]
fn sector_device_starts_erased() {
    let mut flash = SectorMockFlash::<8, 4>::new();
    let mut buf = [0u8; 32];
    flash.read(0, &mut buf).unwrap();
    assert_eq!(buf, [0xFF; 32]);
    let mut flash = SectorMockFlash::<8, 4>::default();
    flash.read(0, &mut buf).unwrap();
    assert_eq!(buf, [0xFF; 32]);
}

#[test]
fn sector_device_can_only_clear_bits() {
    let mut flash = SectorMockFlash::<8, 4>::new();
    flash.write(1, &[0b1010_1010]).unwrap();
    flash.write(1, &[0b1100_1100]).unwrap();
    let mut buf = [0u8; 3];
    flash.read(0, &mut buf).unwrap();
    assert_eq!(buf, [0xFF, 0b1000_1000, 0xFF]);
    flash.write(1, &[0xFF]).unwrap();
    flash.read(0, &mut buf).unwrap();
    assert_eq!(buf, [0xFF, 0b1000_1000, 0xFF]);
}

#[test]
fn sector_device_erases_the_whole_sector() {
    let mut flash = SectorMockFlash::<8, 4>::new();
    flash.write(0, &[0; 32]).unwrap();
    flash.erase(13).unwrap();
    let mut buf = [0u8; 32];
    flash.read(0, &mut buf).unwrap();
    let mut expected = [0u8; 32];
    for byte in &mut expected[8..16] {
        *byte = 0xFF;
    }
    assert_eq!(buf, expected);
}

#[test]
fn sector_device_reads_and_writes_across_sectors() {
    let mut flash = SectorMockFlash::<4, 4>::new();
    flash.write(2, &[1, 2, 3, 4, 5, 6, 7]).unwrap();
    let mut buf = [0u8; 9];
    flash.read(1, &mut buf).unwrap();
    assert_eq!(buf, [0xFF, 1, 2, 3, 4, 5, 6, 7, 0xFF]);
    flash.erase(4).unwrap();
    flash.read(1, &mut buf).unwrap();
    assert_eq!(buf, [0xFF, 1, 2, 0xFF, 0xFF, 0xFF, 0xFF, 7, 0xFF]);
}

#[test]
fn bulk_erase_takes_the_start_of_each_slot() {
    let mut flash = MockFlash::<32>::new();
    flash.write(0, &[0; 32]).unwrap();
    flash.erase_all(8, 3).unwrap();
    let mut buf = [0u8; 32];
    flash.read(0, &mut buf).unwrap();
    let mut expected = [0u8; 32];
    expected[0] = 0xFF;
    expected[8] = 0xFF;
    expected[16] = 0xFF;
    assert_eq!(buf, expected);

    let mut flash = SectorMockFlash::<8, 4>::new();
    flash.write(0, &[0; 32]).unwrap();
    flash.erase_all(8, 3).unwrap();
    flash.read(0, &mut buf).unwrap();
    let mut expected = [0xFFu8; 32];
    for byte in &mut expected[24..] {
        *byte = 0;
    }
    assert_eq!(buf, expected);
}

#[test]
fn bulk_erase_twice_is_bulk_erase_once() {
    let mut once = MockFlash::<32>::new();
    once.write(0, &[0x5A; 32]).unwrap();
    once.erase_all(8, 4).unwrap();
    let mut twice = MockFlash::<32>::new();
    twice.write(0, &[0x5A; 32]).unwrap();
    twice.erase_all(8, 4).unwrap();
    twice.erase_all(8, 4).unwrap();
    let mut a = [0u8; 32];
    let mut b = [0u8; 32];
    once.read(0, &mut a).unwrap();
    twice.read(0, &mut b).unwrap();
    assert_eq!(a, b);
}
