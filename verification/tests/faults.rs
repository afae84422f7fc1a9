use save_slots::chksum::Chksum;
use save_slots::mock::CountingFlash;
use save_slots::storage::{Flash, Storage};
use save_slots::Slot;

const SLOT_SIZE: usize = 64;
const SLOT_COUNT: usize = 8;
const SIZE: usize = SLOT_SIZE * SLOT_COUNT;

#[derive(Debug, PartialEq, Eq)]
enum Fault {
    Read,
    Change,
}

/// A device that loses power: it serves a number of reads and a number of
/// erases and writes, and fails every operation after them, leaving the
/// medium as it is.
#[derive(Debug, Clone)]
struct Cut {
    data: Vec<u8>,
    sectors: bool,
    reads: usize,
    changes: usize,
}

impl Cut {
    fn new(sectors: bool) -> Self {
        Cut { data: vec![0xFF; SIZE], sectors, reads: usize::MAX, changes: usize::MAX }
    }

    fn serving(mut self, reads: usize, changes: usize) -> Self {
        self.reads = reads;
        self.changes = changes;
        self
    }

    fn change(&mut self) -> Result<(), Fault> {
        if self.changes == 0 {
            return Err(Fault::Change);
        }
        self.changes -= 1;
        Ok(())
    }
}

impl Flash for Cut {
    type Error = Fault;

    fn read(&mut self, addr: u32, buf: &mut [u8]) -> Result<(), Fault> {
        if self.reads == 0 {
            return Err(Fault::Read);
        }
        self.reads -= 1;
        let at = addr as usize;
        buf.copy_from_slice(&self.data[at..at + buf.len()]);
        Ok(())
    }

    fn write(&mut self, addr: u32, data: &[u8]) -> Result<(), Fault> {
        self.change()?;
        for (i, byte) in data.iter().enumerate() {
            let cell = &mut self.data[addr as usize + i];
            *cell = if self.sectors { *cell & *byte } else { *byte };
        }
        Ok(())
    }

    fn erase(&mut self, addr: u32) -> Result<(), Fault> {
        self.change()?;
        let at = addr as usize;
        if self.sectors {
            let start = at - at % SLOT_SIZE;
            self.data[start..start + SLOT_SIZE].fill(0xFF);
        } else {
            self.data[at] = 0xFF;
        }
        Ok(())
    }
}

type Store = Storage<Cut, SLOT_SIZE, SLOT_COUNT>;

/// What a store that is created anew over the device finds.
fn found_after_restart(flash: Cut) -> (Store, Option<Slot>) {
    let mut store = Store::new(flash.serving(usize::MAX, usize::MAX));
    let found = store.scan().unwrap();
    (store, found)
}

#[test]
fn a_failed_append_keeps_place_and_predecessor() {
    // 130 bytes take three slots: seven erases and writes.
    let data = [3u8; 130];
    for sectors in [false, true] {
        for changes in 0..7 {
            let mut store = Store::new(Cut::new(sectors));
            store.append(b"first").unwrap();
            let next = store.next_idx();
            let prev = store.prev();
            assert_eq!((next, prev), (1, Chksum::hash(Chksum::zero(), b"first")));

            let mut store = Store::new(store.into_flash().serving(usize::MAX, changes));
            store.scan().unwrap();
            assert_eq!(store.append(&data), Err(Fault::Change));
            assert_eq!((store.next_idx(), store.prev()), (next, prev));
        }
    }
}

#[test]
fn an_append_that_is_served_in_full_succeeds() {
    let mut store = Store::new(Cut::new(false).serving(0, 7));
    assert_eq!(store.append(&[3u8; 130]), Ok(()));
    assert_eq!(store.next_idx(), 3);
    assert_eq!(store.prev(), Chksum::hash(Chksum::zero(), &[3u8; 130]));
    assert_eq!(store.flash().changes, 0);
}

#[test]
fn a_failed_scan_leaves_the_store_in_place() {
    // The header stands in the last slot: eight reads of a first byte and
    // one of the rest of the header.
    for reads in 0..9 {
        let mut store = Store::new(Cut::new(false));
        store.write(7, Some(Chksum(9)), b"last slot").unwrap();
        let mut store = Store::new(store.into_flash().serving(reads, 0));
        assert_eq!(store.scan(), Err(Fault::Read));
        assert_eq!(store.next_idx(), 0);
        assert_eq!(store.prev(), Chksum::zero());
    }
    let mut store = Store::new(Cut::new(false));
    store.write(7, Some(Chksum(9)), b"last slot").unwrap();
    let mut store = Store::new(store.into_flash().serving(9, 0));
    assert_eq!(store.scan().unwrap().map(|s| s.idx), Some(7));
    assert_eq!(store.next_idx(), 0);
    assert_eq!(store.prev(), Chksum::hash(Chksum(9), b"last slot"));
}

#[test]
fn a_failed_read_is_an_error_and_not_a_short_buffer() {
    // 100 bytes in two slots: the header and two parts of the payload.
    let mut store = Store::new(Cut::new(false));
    store.append(&[1u8; 100]).unwrap();
    let mut buf = [0u8; 128];
    for reads in 0..3 {
        let mut failing = Store::new(store.into_flash().serving(reads, 0));
        assert_eq!(failing.read(0, &mut buf), Err(Fault::Read));
        store = failing;
    }
    let mut failing = Store::new(store.into_flash().serving(0, 0));
    assert_eq!(failing.read_static::<4>(0), Err(Fault::Read));
    let mut served = Store::new(failing.into_flash().serving(3, 0));
    assert_eq!(served.read(0, &mut buf).unwrap().map(|d| d.len()), Some(100));
}

#[test]
fn a_failed_erase_or_write_is_reported() {
    let mut store = Store::new(Cut::new(false).serving(0, 0));
    assert_eq!(store.erase(2), Err(Fault::Change));
    assert_eq!(store.write(0, None, b"x"), Err(Fault::Change));
    let mut store = Store::new(Cut::new(false).serving(0, 2));
    assert_eq!(store.write(0, None, b"x"), Err(Fault::Change));
}

#[test]
fn a_failed_erase_all_leaves_the_store_in_place() {
    for changes in 0..8 {
        let mut store = Store::new(Cut::new(false));
        store.append(b"first").unwrap();
        let prev = store.prev();
        let mut store = Store::new(store.into_flash().serving(usize::MAX, changes));
        store.scan().unwrap();
        assert_eq!(store.erase_all(), Err(Fault::Change));
        assert_eq!(store.next_idx(), 1);
        assert_eq!(store.prev(), prev);
    }
    let mut store = Store::new(Cut::new(false));
    store.append(b"first").unwrap();
    let mut store = Store::new(store.into_flash().serving(usize::MAX, 8));
    store.scan().unwrap();
    assert_eq!(store.erase_all(), Ok(()));
    assert_eq!(store.next_idx(), 0);
    assert_eq!(store.prev(), Chksum::zero());
}

#[test]
fn power_loss_during_an_append_keeps_the_old_record_or_gives_the_new() {
    for sectors in [false, true] {
        // Committed before: two records, in slots 0 and 1..3.
        let mut store = Store::new(Cut::new(sectors));
        store.append(b"one").unwrap();
        store.append(&[2u8; 130]).unwrap();
        let old = store.scan().unwrap().unwrap();
        assert_eq!((old.idx, old.len), (1, 130));
        let committed = store.into_flash();

        // Appended now: four slots, from slot 4 to slot 7.
        let data: Vec<u8> = (0..200u8).collect();
        let new = Slot::create(4, old.chksum, &data);
        let total = 2 * 4 + 1;
        for served in 0..=total {
            let mut store = Store::new(committed.clone().serving(usize::MAX, served));
            assert_eq!(store.scan().unwrap(), Some(old));
            assert_eq!(store.append(&data).is_ok(), served == total);

            let (mut after, found) = found_after_restart(store.into_flash());
            let mut buf = [0u8; 256];
            if served < total {
                assert_eq!(found, Some(old), "after {} operations", served);
                assert_eq!(
                    after.read(old.idx, &mut buf).unwrap().map(|d| &*d),
                    Some(&[2u8; 130][..])
                );
            } else {
                assert_eq!(found, Some(new));
                assert_eq!(after.read(new.idx, &mut buf).unwrap().map(|d| &*d), Some(&data[..]));
            }
        }
    }
}

#[test]
fn power_loss_during_an_append_that_wraps_keeps_the_old_record_or_gives_the_new() {
    for sectors in [false, true] {
        // Committed before: six one-slot records and one of two slots that
        // ends the first round; the tip stands in slots 6 and 7.
        let mut store = Store::new(Cut::new(sectors));
        for n in 0..6u8 {
            store.append(&[n; 9]).unwrap();
        }
        store.append(&[6u8; 70]).unwrap();
        let old = store.scan().unwrap().unwrap();
        assert_eq!((old.idx, store.next_idx()), (6, 0));
        let committed = store.into_flash();

        // Appended now: six slots, all that the tip leaves.
        let data = [b'N'; 320];
        let new = Slot::create(0, old.chksum, &data);
        let total = 2 * 6 + 1;
        for served in 0..=total {
            let mut store = Store::new(committed.clone().serving(usize::MAX, served));
            assert_eq!(store.scan().unwrap(), Some(old));
            assert_eq!(store.append(&data).is_ok(), served == total);
            let (_, found) = found_after_restart(store.into_flash());
            assert_eq!(found, Some(if served < total { old } else { new }));
        }
    }
}

#[test]
fn power_loss_while_a_record_overwrites_its_predecessor_can_lose_both() {
    // The record in slots 0..6 is the only one; the next one takes six
    // slots from slot 6 on and runs over it.
    let mut store = Store::new(Cut::new(false));
    store.append(&[b'A'; 320]).unwrap();
    // Served: erase and write of slots 6 and 7, and the erase of slot 0.
    let mut store = Store::new(store.into_flash().serving(usize::MAX, 5));
    assert_eq!(store.scan().unwrap().map(|s| s.idx), Some(0));
    assert_eq!(store.append(&[b'B'; 320]), Err(Fault::Change));
    let (_, found) = found_after_restart(store.into_flash());
    assert_eq!(found, None);
}

#[test]
fn the_counting_wrapper_counts_what_was_served() {
    let mut flash = CountingFlash::new(Cut::new(false).serving(1, 2));
    let mut buf = [0u8; 4];
    assert_eq!(flash.read(0, &mut buf), Ok(()));
    assert_eq!(flash.read(0, &mut buf), Err(Fault::Read));
    assert_eq!(flash.write(0, &[1, 2, 3]), Ok(()));
    assert_eq!(flash.erase(0), Ok(()));
    assert_eq!(flash.write(0, &[1, 2, 3]), Err(Fault::Change));
    assert_eq!(flash.erase(0), Err(Fault::Change));
    assert_eq!(flash.read_bytes(), 4);
    assert_eq!(flash.written_bytes(), 3);
    assert_eq!(flash.erases(), 1);
}

#[test]
fn a_failed_append_is_counted_up_to_the_failure() {
    // Served: the erase and the write of the first slot, and the erase of
    // the second.
    let flash = CountingFlash::new(Cut::new(false).serving(0, 3));
    let mut store = Storage::<_, SLOT_SIZE, SLOT_COUNT>::new(flash);
    assert_eq!(store.append(&[7u8; 100]), Err(Fault::Change));
    assert_eq!(store.flash().erases(), 2);
    assert_eq!(store.flash().written_bytes(), 52);
    assert_eq!(store.flash().read_bytes(), 0);
}
