//! Block devices that live in memory: one that programs bytes as given and
//! erases them one at a time, one that can only clear bits and erases whole
//! sectors, and a wrapper that counts what is asked of a device.

use crate::cost::{bytes_read, bytes_written, erase_count, lemma_cost_push};
use crate::model::{erased, programmed, DeviceKind, Failure, FlashOp};
use crate::storage::Flash;
use core::convert::Infallible;
use vstd::arithmetic::div_mod::{lemma_fundamental_div_mod, lemma_mod_bound};
use vstd::prelude::*;

verus! {

/// A device of `SIZE` bytes that stores what it is given and erases single
/// bytes, as an EEPROM does.
pub struct MockFlash<const SIZE: usize> {
    data: [u8; SIZE],
    log: Ghost<Seq<FlashOp>>,
}

impl<const SIZE: usize> MockFlash<SIZE> {
    /// A device on which every byte is erased.
    pub fn new() -> (r: Self)
        ensures
            r.contents() == Seq::new(SIZE as nat, |a: int| 0xFFu8),
            r.log() == Seq::<FlashOp>::empty(),
            r.inv(),
    {
        let r = Self { data: [0xFFu8;SIZE], log: Ghost(Seq::empty()) };
        assert(r.data@ =~= Seq::new(SIZE as nat, |a: int| 0xFFu8));
        r
    }
}

impl<const SIZE: usize> Default for MockFlash<SIZE> {
    fn default() -> (r: Self)
        ensures
            r.contents() == Seq::new(SIZE as nat, |a: int| 0xFFu8),
            r.log() == Seq::<FlashOp>::empty(),
            r.inv(),
    {
        Self::new()
    }
}

impl<const SIZE: usize> Flash for MockFlash<SIZE> {
    type Error = Infallible;

    /// The backing array.
    closed spec fn contents(&self) -> Seq<u8> {
        self.data@
    }

    /// The device always holds its `SIZE` bytes.
    open spec fn inv(&self) -> bool {
        self.contents().len() == SIZE
    }

    /// Bytes are stored as given, and an erase takes one byte.
    open spec fn kind(&self) -> DeviceKind {
        DeviceKind { erase_size: 1, clears_only: false }
    }

    /// No operation fails.
    open spec fn reliable(&self) -> bool {
        true
    }

    /// What the device has served since it was made.
    closed spec fn log(&self) -> Seq<FlashOp> {
        self.log@
    }

    fn read(&mut self, addr: u32, buf: &mut [u8]) -> (r: Result<(), Self::Error>) {
        let start = addr as usize;
        let mut k: usize = 0;
        while k < buf.len()
            invariant
                k <= buf@.len(),
                buf@.len() == old(buf)@.len(),
                start + buf@.len() <= SIZE,
                self.data == old(self).data,
                self.log == old(self).log,
                forall|j: int| 0 <= j < k ==> buf@[j] == self.data@[start + j],
            decreases buf@.len() - k,
        {
            buf[k] = self.data[start + k];
            k = k + 1;
        }
        assert(buf@ =~= self.data@.subrange(addr as int, addr + buf@.len()));
        self.log = Ghost(self.log@.push(FlashOp::Read { addr: addr as int, len: buf@.len() }));
        Ok(())
    }

    fn write(&mut self, addr: u32, data: &[u8]) -> (r: Result<(), Self::Error>) {
        let start = addr as usize;
        let mut k: usize = 0;
        while k < data.len()
            invariant
                k <= data@.len(),
                start + data@.len() <= SIZE,
                self.log == old(self).log,
                forall|a: int|
                    0 <= a < SIZE ==> self.data@[a] == if start <= a < start + k {
                        data@[a - start]
                    } else {
                        old(self).data@[a]
                    },
            decreases data@.len() - k,
        {
            self.data[start + k] = data[k];
            k = k + 1;
        }
        assert(self.data@ =~= programmed(old(self).data@, false, addr as int, data@));
        self.log = Ghost(self.log@.push(FlashOp::Write { addr: addr as int, data: data@ }));
        Ok(())
    }

    fn erase(&mut self, addr: u32) -> (r: Result<(), Self::Error>) {
        self.data[addr as usize] = 0xFF;
        assert(self.data@ =~= erased(old(self).data@, 1, addr as int));
        self.log = Ghost(self.log@.push(FlashOp::Erase { addr: addr as int }));
        Ok(())
    }
}

/// A device of `SECTOR_COUNT` sectors of `SECTOR_SIZE` bytes that can only
/// clear bits when it programs and erases a whole sector at once, as NOR
/// flash does.
pub struct SectorMockFlash<const SECTOR_SIZE: usize, const SECTOR_COUNT: usize> {
    data: [[u8; SECTOR_SIZE]; SECTOR_COUNT],
    log: Ghost<Seq<FlashOp>>,
}

/// An address on a device of `count` sectors of `size` bytes lies in one of
/// its sectors, at one offset.
proof fn lemma_sector(a: int, size: int, count: int)
    requires
        0 <= a < size * count,
        0 <= size,
        0 <= count,
    ensures
        size > 0,
        0 <= a / size < count,
        0 <= a % size < size,
        a == size * (a / size) + a % size,
{
    assert(size > 0) by (nonlinear_arith)
        requires
            0 <= a < size * count,
            0 <= size,
    ;
    lemma_fundamental_div_mod(a, size);
    lemma_mod_bound(a, size);
    let q = a / size;
    assert(0 <= q < count) by (nonlinear_arith)
        requires
            a == size * q + a % size,
            0 <= a % size < size,
            0 <= a < size * count,
            size > 0,
    ;
}

/// The addresses of one sector are those between its first and the next
/// sector's first.
proof fn lemma_same_sector(a: int, b: int, size: int)
    requires
        0 <= a,
        0 <= b,
        size > 0,
    ensures
        a / size == b / size <==> b - b % size <= a < b - b % size + size,
{
    lemma_fundamental_div_mod(a, size);
    lemma_mod_bound(a, size);
    lemma_fundamental_div_mod(b, size);
    lemma_mod_bound(b, size);
    let qa = a / size;
    let qb = b / size;
    if qa < qb {
        assert(size * qa + size <= size * qb) by (nonlinear_arith)
            requires
                qa < qb,
                size > 0,
        ;
    }
    if qb < qa {
        assert(size * qb + size <= size * qa) by (nonlinear_arith)
            requires
                qb < qa,
                size > 0,
        ;
    }
}

impl<const SECTOR_SIZE: usize, const SECTOR_COUNT: usize> SectorMockFlash<
    SECTOR_SIZE,
    SECTOR_COUNT,
> {
    /// A device on which every byte is erased.
    pub fn new() -> (r: Self)
        ensures
            r.contents() == Seq::new((SECTOR_SIZE * SECTOR_COUNT) as nat, |a: int| 0xFFu8),
            r.log() == Seq::<FlashOp>::empty(),
    {
        let r = Self { data: [[0xFFu8;SECTOR_SIZE];SECTOR_COUNT], log: Ghost(Seq::empty()) };
        proof {
            assert forall|a: int| 0 <= a < SECTOR_SIZE * SECTOR_COUNT implies r.contents()[a]
                == 0xFFu8 by {
                lemma_sector(a, SECTOR_SIZE as int, SECTOR_COUNT as int);
            }
            assert(r.contents() =~= Seq::new(
                (SECTOR_SIZE * SECTOR_COUNT) as nat,
                |a: int| 0xFFu8,
            ));
        }
        r
    }

    /// The sector that holds `addr`, and the offset of `addr` in it.
    fn div_rem(addr: usize) -> (r: (usize, usize))
        requires
            addr < SECTOR_SIZE * SECTOR_COUNT,
        ensures
            r.0 == addr as int / SECTOR_SIZE as int,
            r.1 == addr as int % SECTOR_SIZE as int,
            r.0 < SECTOR_COUNT,
            r.1 < SECTOR_SIZE,
    {
        proof {
            lemma_sector(addr as int, SECTOR_SIZE as int, SECTOR_COUNT as int);
        }
        (addr / SECTOR_SIZE, addr % SECTOR_SIZE)
    }
}

impl<const SECTOR_SIZE: usize, const SECTOR_COUNT: usize> Default for SectorMockFlash<
    SECTOR_SIZE,
    SECTOR_COUNT,
> {
    fn default() -> (r: Self)
        ensures
            r.contents() == Seq::new((SECTOR_SIZE * SECTOR_COUNT) as nat, |a: int| 0xFFu8),
            r.log() == Seq::<FlashOp>::empty(),
    {
        Self::new()
    }
}

impl<const SECTOR_SIZE: usize, const SECTOR_COUNT: usize> Flash for SectorMockFlash<
    SECTOR_SIZE,
    SECTOR_COUNT,
> {
    type Error = Infallible;

    /// The sectors, one after the other.
    closed spec fn contents(&self) -> Seq<u8> {
        Seq::new(
            (SECTOR_SIZE * SECTOR_COUNT) as nat,
            |a: int| self.data@[a / SECTOR_SIZE as int]@[a % SECTOR_SIZE as int],
        )
    }

    /// The device can be used where its addresses fit in `usize`.
    open spec fn inv(&self) -> bool {
        SECTOR_SIZE * SECTOR_COUNT <= usize::MAX
    }

    /// Programming clears bits, and an erase takes a sector.
    open spec fn kind(&self) -> DeviceKind {
        DeviceKind { erase_size: SECTOR_SIZE as nat, clears_only: true }
    }

    /// No operation fails.
    open spec fn reliable(&self) -> bool {
        true
    }

    /// What the device has served since it was made.
    closed spec fn log(&self) -> Seq<FlashOp> {
        self.log@
    }

    fn read(&mut self, addr: u32, buf: &mut [u8]) -> (r: Result<(), Self::Error>) {
        let start = addr as usize;
        let mut k: usize = 0;
        while k < buf.len()
            invariant
                k <= buf@.len(),
                buf@.len() == old(buf)@.len(),
                start + buf@.len() <= SECTOR_SIZE * SECTOR_COUNT,
                SECTOR_SIZE * SECTOR_COUNT <= usize::MAX,
                self.data == old(self).data,
                self.log == old(self).log,
                forall|j: int| 0 <= j < k ==> buf@[j] == self.contents()[start + j],
            decreases buf@.len() - k,
        {
            let (sector, offset) = Self::div_rem(start + k);
            buf[k] = self.data[sector][offset];
            k = k + 1;
        }
        assert(buf@ =~= self.contents().subrange(addr as int, addr + buf@.len()));
        self.log = Ghost(self.log@.push(FlashOp::Read { addr: addr as int, len: buf@.len() }));
        Ok(())
    }

    fn write(&mut self, addr: u32, data: &[u8]) -> (r: Result<(), Self::Error>) {
        let start = addr as usize;
        let mut k: usize = 0;
        while k < data.len()
            invariant
                k <= data@.len(),
                start + data@.len() <= SECTOR_SIZE * SECTOR_COUNT,
                SECTOR_SIZE * SECTOR_COUNT <= usize::MAX,
                self.log == old(self).log,
                forall|a: int|
                    0 <= a < SECTOR_SIZE * SECTOR_COUNT ==> #[trigger] self.contents()[a]
                        == if start <= a < start + k {
                        old(self).contents()[a] & data@[a - start]
                    } else {
                        old(self).contents()[a]
                    },
            decreases data@.len() - k,
        {
            let ghost before = self.contents();
            let (sector, offset) = Self::div_rem(start + k);
            let mut row = self.data[sector];
            row[offset] = row[offset] & data[k];
            self.data[sector] = row;
            proof {
                assert forall|a: int| 0 <= a < SECTOR_SIZE * SECTOR_COUNT implies self.contents()[a]
                    == if a == start + k {
                    before[a] & data@[k as int]
                } else {
                    before[a]
                } by {
                    lemma_sector(a, SECTOR_SIZE as int, SECTOR_COUNT as int);
                    lemma_sector(start + k, SECTOR_SIZE as int, SECTOR_COUNT as int);
                }
            }
            k = k + 1;
        }
        assert(self.contents() =~= programmed(old(self).contents(), true, addr as int, data@));
        self.log = Ghost(self.log@.push(FlashOp::Write { addr: addr as int, data: data@ }));
        Ok(())
    }

    fn erase(&mut self, addr: u32) -> (r: Result<(), Self::Error>) {
        let (sector, _offset) = Self::div_rem(addr as usize);
        let blank: [u8; SECTOR_SIZE] = [0xFFu8;SECTOR_SIZE];
        assert(blank == vstd::array::spec_array_fill_for_copy_type::<u8, SECTOR_SIZE>(0xFFu8));
        self.data[sector] = blank;
        proof {
            let after = erased(old(self).contents(), SECTOR_SIZE as nat, addr as int);
            assert forall|a: int| 0 <= a < SECTOR_SIZE * SECTOR_COUNT implies self.contents()[a]
                == after[a] by {
                lemma_sector(a, SECTOR_SIZE as int, SECTOR_COUNT as int);
                lemma_same_sector(a, addr as int, SECTOR_SIZE as int);
                let row = a / SECTOR_SIZE as int;
                let col = a % SECTOR_SIZE as int;
                assert(self.contents()[a] == self.data@[row]@[col]);
                assert(old(self).contents()[a] == old(self).data@[row]@[col]);
                if row == sector {
                    assert(self.data@[row] == blank);
                    assert(blank@[col] == 0xFFu8);
                } else {
                    assert(self.data@[row] == old(self).data@[row]);
                }
            }
            assert(self.contents() =~= after);
        }
        self.log = Ghost(self.log@.push(FlashOp::Erase { addr: addr as int }));
        Ok(())
    }
}

/// A device that hands every operation on to the device it wraps and
/// counts what that device has served since: the bytes read, the bytes
/// written and the erases. A count that reaches `usize::MAX` stays there.
/// Its log starts empty: it holds what the wrapped device has served
/// since it was wrapped.
pub struct CountingFlash<F: Flash> {
    inner: F,
    read_bytes: usize,
    written_bytes: usize,
    erases: usize,
    start: Ghost<nat>,
}

/// `n`, or `usize::MAX` where `n` is more.
pub open spec fn capped(n: nat) -> usize {
    if n <= usize::MAX {
        n as usize
    } else {
        usize::MAX
    }
}

/// A capped count that grows by `more` is the capped sum.
proof fn lemma_capped(n: nat, more: usize)
    ensures
        capped(n + more as nat) == if capped(n) + more <= usize::MAX {
            (capped(n) + more) as usize
        } else {
            usize::MAX
        },
{
}

impl<F: Flash> CountingFlash<F> {
    /// The bytes read so far.
    pub closed spec fn spec_read_bytes(&self) -> usize {
        self.read_bytes
    }

    /// The bytes written so far.
    pub closed spec fn spec_written_bytes(&self) -> usize {
        self.written_bytes
    }

    /// The erases so far.
    pub closed spec fn spec_erases(&self) -> usize {
        self.erases
    }

    /// The wrapped device.
    pub closed spec fn spec_inner(&self) -> F {
        self.inner
    }

    /// How many operations the wrapped device had served when it was wrapped.
    pub closed spec fn spec_start(&self) -> nat {
        self.start@
    }

    /// The operations that the wrapped device has served since it was
    /// wrapped, first to last.
    pub open spec fn tallied(&self) -> Seq<FlashOp> {
        self.spec_inner().log().skip(self.spec_start() as int)
    }

    /// Whether the counts are those of the operations served since the
    /// device was wrapped.
    pub open spec fn in_tally(&self) -> bool {
        &&& self.spec_start() <= self.spec_inner().log().len()
        &&& self.spec_read_bytes() == capped(bytes_read(self.tallied()))
        &&& self.spec_written_bytes() == capped(bytes_written(self.tallied()))
        &&& self.spec_erases() == capped(erase_count(self.tallied()))
    }

    /// Wraps `inner`, with every count at zero.
    pub fn new(inner: F) -> (r: Self)
        ensures
            r.spec_inner() == inner,
            r.spec_start() == inner.log().len(),
            r.tallied() == Seq::<FlashOp>::empty(),
            r.in_tally(),
            r.spec_read_bytes() == 0,
            r.spec_written_bytes() == 0,
            r.spec_erases() == 0,
    {
        let r = Self {
            inner,
            read_bytes: 0,
            written_bytes: 0,
            erases: 0,
            start: Ghost(inner.log().len()),
        };
        assert(r.tallied() =~= Seq::<FlashOp>::empty());
        r
    }

    /// The bytes read so far.
    #[verifier::when_used_as_spec(spec_read_bytes)]
    pub fn read_bytes(&self) -> (r: usize)
        ensures
            r == self.spec_read_bytes(),
    {
        self.read_bytes
    }

    /// The bytes written so far.
    #[verifier::when_used_as_spec(spec_written_bytes)]
    pub fn written_bytes(&self) -> (r: usize)
        ensures
            r == self.spec_written_bytes(),
    {
        self.written_bytes
    }

    /// The erases so far.
    #[verifier::when_used_as_spec(spec_erases)]
    pub fn erases(&self) -> (r: usize)
        ensures
            r == self.spec_erases(),
    {
        self.erases
    }

    /// Gives the wrapped device back.
    pub fn into_inner(self) -> (r: F)
        ensures
            r == self.spec_inner(),
    {
        self.inner
    }
}

/// One operation more that the wrapped device has served is one more in
/// the tally.
proof fn lemma_tally_push(log: Seq<FlashOp>, start: nat, op: FlashOp)
    requires
        start <= log.len(),
    ensures
        log.push(op).skip(start as int) == log.skip(start as int).push(op),
{
    assert(log.push(op).skip(start as int) =~= log.skip(start as int).push(op));
}

impl<F: Flash> Flash for CountingFlash<F> {
    type Error = F::Error;

    /// What the wrapped device holds.
    open spec fn contents(&self) -> Seq<u8> {
        self.spec_inner().contents()
    }

    /// The wrapped device can be used, and the counts are in tally.
    open spec fn inv(&self) -> bool {
        self.spec_inner().inv() && self.in_tally()
    }

    /// The kind of the wrapped device.
    open spec fn kind(&self) -> DeviceKind {
        self.spec_inner().kind()
    }

    /// Whether the wrapped device is reliable.
    open spec fn reliable(&self) -> bool {
        self.spec_inner().reliable()
    }

    /// What the wrapped device has served since it was wrapped.
    open spec fn log(&self) -> Seq<FlashOp> {
        self.tallied()
    }

    /// What the wrapped device has failed.
    open spec fn failures(&self) -> Seq<Failure<Self::Error>> {
        self.spec_inner().failures()
    }

    /// Whether the wrapped device failed the call it was asked last.
    open spec fn last_failed(&self) -> bool {
        self.spec_inner().last_failed()
    }

    fn read(&mut self, addr: u32, buf: &mut [u8]) -> (r: Result<(), Self::Error>)
        ensures
            final(self).spec_start() == old(self).spec_start(),
    {
        let len = buf.len();
        let r = self.inner.read(addr, buf);
        if r.is_ok() {
            proof {
                let op = FlashOp::Read { addr: addr as int, len: len as nat };
                lemma_tally_push(old(self).inner.log(), self.start@, op);
                lemma_cost_push(old(self).tallied(), op);
                lemma_capped(bytes_read(old(self).tallied()), len);
            }
            self.read_bytes = self.read_bytes.saturating_add(len);
        }
        r
    }

    fn write(&mut self, addr: u32, data: &[u8]) -> (r: Result<(), Self::Error>)
        ensures
            final(self).spec_start() == old(self).spec_start(),
    {
        let r = self.inner.write(addr, data);
        if r.is_ok() {
            proof {
                let op = FlashOp::Write { addr: addr as int, data: data@ };
                lemma_tally_push(old(self).inner.log(), self.start@, op);
                lemma_cost_push(old(self).tallied(), op);
                lemma_capped(bytes_written(old(self).tallied()), data.len());
            }
            self.written_bytes = self.written_bytes.saturating_add(data.len());
        }
        r
    }

    fn erase(&mut self, addr: u32) -> (r: Result<(), Self::Error>)
        ensures
            final(self).spec_start() == old(self).spec_start(),
    {
        let r = self.inner.erase(addr);
        if r.is_ok() {
            proof {
                let op = FlashOp::Erase { addr: addr as int };
                lemma_tally_push(old(self).inner.log(), self.start@, op);
                lemma_cost_push(old(self).tallied(), op);
                lemma_capped(erase_count(old(self).tallied()), 1);
            }
            self.erases = self.erases.saturating_add(1);
        }
        r
    }
}

} // verus!
