use save_slots::chksum::Chksum;
use save_slots::mock::{MockFlash, SectorMockFlash};
use save_slots::storage::{Flash, Storage};

const SLOT_SIZE: usize = 64;
const SLOT_COUNT: usize = 8;
const SIZE: usize = SLOT_SIZE * SLOT_COUNT;

/// A device that fails one call, the one with the number it is given, and
/// would serve every other. Where it fails a write or an erase it leaves
/// the bytes that the call could reach scrambled.
#[derive(Debug)]
struct Once {
    data: Vec<u8>,
    calls: usize,
    fail_at: usize,
}

impl Once {
    fn over(data: Vec<u8>, fail_at: usize) -> Self {
        Once { data, calls: 0, fail_at }
    }

    fn fails(&mut self) -> Option<usize> {
        let call = self.calls;
        self.calls += 1;
        if call == self.fail_at {
            Some(call)
        } else {
            None
        }
    }
}

impl Flash for Once {
    type Error = usize;

    fn read(&mut self, addr: u32, buf: &mut [u8]) -> Result<(), usize> {
        if let Some(call) = self.fails() {
            return Err(call);
        }
        let at = addr as usize;
        buf.copy_from_slice(&self.data[at..at + buf.len()]);
        Ok(())
    }

    fn write(&mut self, addr: u32, data: &[u8]) -> Result<(), usize> {
        let at = addr as usize;
        if let Some(call) = self.fails() {
            self.data[at..at + data.len()].fill(0x00);
            return Err(call);
        }
        self.data[at..at + data.len()].copy_from_slice(data);
        Ok(())
    }

    fn erase(&mut self, addr: u32) -> Result<(), usize> {
        if let Some(call) = self.fails() {
            self.data[addr as usize] = 0x00;
            return Err(call);
        }
        self.data[addr as usize] = 0xFF;
        Ok(())
    }
}

type Store = Storage<Once, SLOT_SIZE, SLOT_COUNT>;

/// A ring that holds one record of 100 bytes in slots 0 and 1.
fn one_record() -> Vec<u8> {
    let mut store = Store::new(Once::over(vec![0xFF; SIZE], usize::MAX));
    store.append(&[1u8; 100]).unwrap();
    store.into_flash().data
}

#[test]
fn append_stops_at_the_first_failure_with_its_error() {
    // 130 bytes take three slots: seven calls.
    for fail_at in 0..7 {
        let mut store = Store::new(Once::over(vec![0xFF; SIZE], fail_at));
        assert_eq!(store.append(&[3u8; 130]), Err(fail_at));
        assert_eq!(store.flash().calls, fail_at + 1);
        assert_eq!(store.next_idx(), 0);
        assert_eq!(store.prev(), Chksum::zero());
    }
    let mut store = Store::new(Once::over(vec![0xFF; SIZE], 7));
    assert_eq!(store.append(&[3u8; 130]), Ok(()));
    assert_eq!(store.flash().calls, 7);
}

#[test]
fn write_that_fails_before_the_header_leaves_the_slot_erased() {
    // Slot 2 holds a record; a new one is written over it and fails.
    for fail_at in 1..6 {
        let mut store = Store::new(Once::over(vec![0xFF; SIZE], usize::MAX));
        store.write(2, None, &[9u8; 20]).unwrap();
        let mut store = Store::new(Once::over(store.into_flash().data, fail_at));
        assert_eq!(store.write(2, None, &[3u8; 130]), Err(fail_at));
        assert_eq!(store.flash().calls, fail_at + 1);
        assert_eq!(store.flash().data[2 * SLOT_SIZE], 0xFF);
        let mut after = Store::new(Once::over(store.into_flash().data, usize::MAX));
        assert_eq!(after.scan().unwrap().map(|s| s.idx).filter(|idx| *idx == 2), None);
    }
}

#[test]
fn scan_stops_at_the_first_failure_with_its_error() {
    // Nine reads: a first byte for each slot, and the rest of one header.
    for fail_at in 0..9 {
        let mut store = Store::new(Once::over(one_record(), fail_at));
        assert_eq!(store.scan(), Err(fail_at));
        assert_eq!(store.flash().calls, fail_at + 1);
    }
    let mut store = Store::new(Once::over(one_record(), 9));
    assert_eq!(store.scan().unwrap().map(|s| s.len), Some(100));
    assert_eq!(store.flash().calls, 9);
}

#[test]
fn read_stops_at_the_first_failure_and_keeps_the_rest_of_the_buffer() {
    // Three reads: the header and the payload's two parts.
    for fail_at in 0..3 {
        let mut store = Store::new(Once::over(one_record(), fail_at));
        let mut buf = [0xA5u8; 128];
        assert_eq!(store.read(0, &mut buf), Err(fail_at));
        assert_eq!(store.flash().calls, fail_at + 1);
        assert_eq!(buf[100..], [0xA5u8; 28]);
        if fail_at == 0 {
            assert_eq!(buf, [0xA5u8; 128]);
        }
        assert_eq!(store.read_static::<4>(0), Ok([1u8; 4]));
    }
    let mut store = Store::new(Once::over(one_record(), 0));
    assert_eq!(store.read_static::<4>(0), Err(0));
    assert_eq!(store.flash().calls, 1);
}

#[test]
fn erase_all_stops_at_the_first_failure_with_its_error() {
    for fail_at in 0..SLOT_COUNT {
        let mut store = Store::new(Once::over(one_record(), fail_at));
        assert_eq!(store.erase_all(), Err(fail_at));
        assert_eq!(store.flash().calls, fail_at + 1);
    }
    let mut store = Store::new(Once::over(one_record(), SLOT_COUNT));
    assert_eq!(store.erase_all(), Ok(()));
    assert_eq!(store.flash().calls, SLOT_COUNT);
    assert_eq!(store.erase(3), Err(SLOT_COUNT));
    assert_eq!(store.flash().calls, SLOT_COUNT + 1);
}

#[test]
fn erase_all_asks_for_one_erase_at_the_start_of_each_slot() {
    let mut data = vec![0u8; SIZE];
    data[5] = 7;
    let mut store = Store::new(Once::over(data, usize::MAX));
    store.erase_all().unwrap();
    let after = &store.flash().data;
    for (at, byte) in after.iter().enumerate() {
        let expected = if at % SLOT_SIZE == 0 { 0xFF } else if at == 5 { 7 } else { 0 };
        assert_eq!(*byte, expected, "byte {}", at);
    }
    assert_eq!(store.flash().calls, SLOT_COUNT);
}

#[test]
fn a_second_erase_all_changes_nothing() {
    fn bytes<F: Flash>(flash: &mut F) -> Vec<u8>
    where
        F::Error: core::fmt::Debug,
    {
        let mut all = vec![0u8; SIZE];
        flash.read(0, &mut all).unwrap();
        all
    }
    let mut store = Storage::<_, SLOT_SIZE, SLOT_COUNT>::new(MockFlash::<SIZE>::new());
    for n in 0..11u8 {
        store.append(&[n; 70]).unwrap();
    }
    store.erase_all().unwrap();
    let mut flash = store.into_flash();
    let once = bytes(&mut flash);
    let mut store = Storage::<_, SLOT_SIZE, SLOT_COUNT>::new(flash);
    store.erase_all().unwrap();
    assert_eq!((store.next_idx(), store.prev()), (0, Chksum::zero()));
    let mut flash = store.into_flash();
    assert_eq!(bytes(&mut flash), once);

    let mut store = Storage::<_, 64, 8>::new(SectorMockFlash::<64, 8>::new());
    store.append(&[1u8; 300]).unwrap();
    store.erase_all().unwrap();
    let mut flash = store.into_flash();
    let once = bytes(&mut flash);
    assert_eq!(once, vec![0xFFu8; SIZE]);
    let mut store = Storage::<_, 64, 8>::new(flash);
    store.erase_all().unwrap();
    let mut flash = store.into_flash();
    assert_eq!(bytes(&mut flash), once);
}
