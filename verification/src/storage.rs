//! The block device that the store is built on, and the store itself.

use crate::chksum::{be_value, Chksum, BYTE_MASK};
use crate::layout::{lemma_slots_used, slots_used, HEADER_SIZE};
use crate::commit::suits;
use crate::laws::{after_append, lemma_scan_after_erase_all};
use crate::lemma_header_round_trip;
use crate::model::{
    apply_all, asked, bulk_erase_done, bulk_erase_ops, bulk_erased, candidate, candidates,
    carried_out, chunk_start, commit_ops, erased, erased_at_least, error_of, lead, least,
    lemma_apply_next, lemma_chunk_of, lemma_chunk_reaches, lemma_chunk_start_next,
    lemma_log_push, lemma_next_in_ring, lemma_part_read, lemma_scan_reads_prefix, payload_reads,
    programmed, record_reads, scan_from, scan_reads, scan_result, served, slot_addr,
    slot_reads, stored_header, stored_payload, torn, DeviceKind, Failure, FlashOp, Trace,
};
use crate::Slot;
use vstd::arithmetic::div_mod::{lemma_fundamental_div_mod, lemma_mod_bound, lemma_mod_twice};
use vstd::prelude::*;
use vstd::slice::slice_subrange;

verus! {

/// A block device: bytes by address, which can be read, programmed and
/// erased. Every operation returns only when its effect is durable.
///
/// The contracts speak of the device through unknowns that an
/// implementation fixes: the bytes it holds (`contents`), how it programs
/// and erases (`kind`), whether its operations can fail (`reliable`), what
/// it has been asked (`log`, `failures`, `last_failed`), what its bulk
/// erase does (`bulk_erased_by`, `bulk_erase_calls`), and when it is in a
/// state to be used at all (`inv`). As they are provided here a device
/// holds nothing and is never in a state to be used: an implementation
/// that verified code is to use says what it holds and when it can be
/// used, and is then held to the contracts below.
pub trait Flash: Sized {
    /// What the device reports when an operation fails.
    type Error;

    /// The bytes that the device holds, by address.
    open spec fn contents(&self) -> Seq<u8> {
        Seq::empty()
    }

    /// Whether the device is in a state in which it can be used.
    open spec fn inv(&self) -> bool {
        false
    }

    /// How the device programs and erases.
    open spec fn kind(&self) -> DeviceKind {
        DeviceKind { erase_size: 1, clears_only: false }
    }

    /// Whether every operation on the device succeeds.
    open spec fn reliable(&self) -> bool {
        false
    }

    /// The operations that the device has served, first to last. One that
    /// failed is not among them.
    open spec fn log(&self) -> Seq<FlashOp> {
        Seq::empty()
    }

    /// The calls that the device has failed, first to last, each with the
    /// error that it reported.
    open spec fn failures(&self) -> Seq<Failure<Self::Error>> {
        Seq::empty()
    }

    /// Whether the call that the device was asked last failed.
    open spec fn last_failed(&self) -> bool {
        false
    }

    /// What the device holds after a bulk erase of the first `count` slots
    /// of `slot_size` bytes. As provided, what the erases of the slots leave,
    /// one after the other; a device with a bulk erase of its own says what
    /// that leaves.
    open spec fn bulk_erased_by(&self, slot_size: nat, count: nat) -> Seq<u8> {
        bulk_erased(self.contents(), self.kind().erase_size, slot_size, count)
    }

    /// The operations that a bulk erase of the first `count` slots of
    /// `slot_size` bytes is made of. As provided, one erase at the start of
    /// each slot; a device with a bulk erase of its own says what it serves.
    open spec fn bulk_erase_calls(&self, slot_size: nat, count: nat) -> Seq<FlashOp> {
        bulk_erase_ops(slot_size, count)
    }

    /// Fills `buf` with the bytes from `addr` on.
    fn read(&mut self, addr: u32, buf: &mut [u8]) -> (r: Result<(), Self::Error>)
        requires
            old(self).inv(),
            addr + old(buf)@.len() <= old(self).contents().len(),
        ensures
            final(self).inv(),
            final(self).kind() == old(self).kind(),
            final(self).reliable() == old(self).reliable(),
            final(self).contents() == old(self).contents(),
            final(buf)@.len() == old(buf)@.len(),
            r is Ok ==> final(buf)@ == old(self).contents().subrange(
                addr as int,
                addr + old(buf)@.len(),
            ),
            (Trace {
                log: final(self).log(),
                failures: final(self).failures(),
                last_failed: final(self).last_failed(),
            }) == asked(
                (Trace {
                log: old(self).log(),
                failures: old(self).failures(),
                last_failed: old(self).last_failed(),
            }),
                FlashOp::Read { addr: addr as int, len: old(buf)@.len() },
                error_of(r),
            ),
            old(self).reliable() ==> r is Ok,
    ;

    /// Programs `data` from `addr` on. Where it fails, no byte but those
    /// that were to be programmed has changed.
    fn write(&mut self, addr: u32, data: &[u8]) -> (r: Result<(), Self::Error>)
        requires
            old(self).inv(),
            addr + data@.len() <= old(self).contents().len(),
        ensures
            final(self).inv(),
            final(self).kind() == old(self).kind(),
            final(self).reliable() == old(self).reliable(),
            final(self).contents().len() == old(self).contents().len(),
            r is Ok ==> final(self).contents() == programmed(
                old(self).contents(),
                old(self).kind().clears_only,
                addr as int,
                data@,
            ),
            r is Err ==> torn(
                old(self).contents(),
                final(self).contents(),
                old(self).kind(),
                FlashOp::Write { addr: addr as int, data: data@ },
            ),
            (Trace {
                log: final(self).log(),
                failures: final(self).failures(),
                last_failed: final(self).last_failed(),
            }) == asked(
                (Trace {
                log: old(self).log(),
                failures: old(self).failures(),
                last_failed: old(self).last_failed(),
            }),
                FlashOp::Write { addr: addr as int, data: data@ },
                error_of(r),
            ),
            old(self).reliable() ==> r is Ok,
    ;

    /// Returns the erase unit that holds `addr` to the erased state, in
    /// which every bit is one. Where it fails, no byte outside that unit
    /// has changed.
    fn erase(&mut self, addr: u32) -> (r: Result<(), Self::Error>)
        requires
            old(self).inv(),
            addr < old(self).contents().len(),
        ensures
            final(self).inv(),
            final(self).kind() == old(self).kind(),
            final(self).reliable() == old(self).reliable(),
            final(self).contents().len() == old(self).contents().len(),
            r is Ok ==> final(self).contents() == erased(
                old(self).contents(),
                old(self).kind().erase_size,
                addr as int,
            ),
            r is Err ==> torn(
                old(self).contents(),
                final(self).contents(),
                old(self).kind(),
                FlashOp::Erase { addr: addr as int },
            ),
            (Trace {
                log: final(self).log(),
                failures: final(self).failures(),
                last_failed: final(self).last_failed(),
            }) == asked(
                (Trace {
                log: old(self).log(),
                failures: old(self).failures(),
                last_failed: old(self).last_failed(),
            }),
                FlashOp::Erase { addr: addr as int },
                error_of(r),
            ),
            old(self).reliable() ==> r is Ok,
    ;

    /// Erases the first `count` slots of `slot_size` bytes: at the least the
    /// erase unit at the start of each, and no byte takes another value than
    /// the erased one. It is either the device's own bulk erase, which
    /// leaves what `bulk_erased_by` says and asks for `bulk_erase_calls`, or
    /// the one provided here, which erases slot by slot and nothing else and
    /// stops at the first erase that fails.
    fn erase_all(&mut self, slot_size: usize, count: usize) -> (r: Result<(), Self::Error>)
        requires
            old(self).inv(),
            slot_size > 0,
            count * slot_size <= old(self).contents().len(),
            count * slot_size <= u32::MAX,
        ensures
            final(self).inv(),
            final(self).kind() == old(self).kind(),
            final(self).reliable() == old(self).reliable(),
            final(self).contents().len() == old(self).contents().len(),
            r is Ok ==> erased_at_least(
                final(self).contents(),
                bulk_erased(
                    old(self).contents(),
                    old(self).kind().erase_size,
                    slot_size as nat,
                    count as nat,
                ),
            ),
            bulk_erase_done(
                final(self).contents(),
                (Trace {
                log: old(self).log(),
                failures: old(self).failures(),
                last_failed: old(self).last_failed(),
            }),
                (Trace {
                log: final(self).log(),
                failures: final(self).failures(),
                last_failed: final(self).last_failed(),
            }),
                old(self).bulk_erased_by(slot_size as nat, count as nat),
                old(self).bulk_erase_calls(slot_size as nat, count as nat),
                error_of(r),
            ) || bulk_erase_done(
                final(self).contents(),
                (Trace {
                log: old(self).log(),
                failures: old(self).failures(),
                last_failed: old(self).last_failed(),
            }),
                (Trace {
                log: final(self).log(),
                failures: final(self).failures(),
                last_failed: final(self).last_failed(),
            }),
                bulk_erased(
                    old(self).contents(),
                    old(self).kind().erase_size,
                    slot_size as nat,
                    count as nat,
                ),
                bulk_erase_ops(slot_size as nat, count as nat),
                error_of(r),
            ),
            old(self).reliable() ==> r is Ok,
        default_ensures
            bulk_erase_done(
                final(self).contents(),
                (Trace {
                log: old(self).log(),
                failures: old(self).failures(),
                last_failed: old(self).last_failed(),
            }),
                (Trace {
                log: final(self).log(),
                failures: final(self).failures(),
                last_failed: final(self).last_failed(),
            }),
                bulk_erased(
                    old(self).contents(),
                    old(self).kind().erase_size,
                    slot_size as nat,
                    count as nat,
                ),
                bulk_erase_ops(slot_size as nat, count as nat),
                error_of(r),
            ),
    {
        let ghost all = bulk_erase_ops(slot_size as nat, count as nat);
        let ghost before = (Trace {
                log: old(self).log(),
                failures: old(self).failures(),
                last_failed: old(self).last_failed(),
            });
        let mut i: usize = 0;
        proof {
            assert(before.log + all.take(0) =~= before.log);
        }
        while i < count
            invariant
                i <= count,
                self.inv(),
                self.kind() == old(self).kind(),
                self.reliable() == old(self).reliable(),
                self.contents().len() == old(self).contents().len(),
                slot_size > 0,
                count * slot_size <= old(self).contents().len(),
                count * slot_size <= u32::MAX,
                all == bulk_erase_ops(slot_size as nat, count as nat),
                before == (Trace {
                log: old(self).log(),
                failures: old(self).failures(),
                last_failed: old(self).last_failed(),
            }),
                self.contents() == bulk_erased(
                    old(self).contents(),
                    old(self).kind().erase_size,
                    slot_size as nat,
                    i as nat,
                ),
                self.log() == before.log + all.take(i as int),
                self.failures() == before.failures,
                self.last_failed() == (i == 0 && before.last_failed),
            decreases count - i,
        {
            assert(i * slot_size + slot_size <= count * slot_size) by (nonlinear_arith)
                requires
                    i < count,
            ;
            let addr = (i * slot_size) as u32;
            proof {
                assert(all.take(i + 1) =~= all.take(i as int).push(all[i as int]));
                assert((before.log + all.take(i as int)).push(all[i as int]) =~= before.log
                    + all.take(i + 1));
            }
            self.erase(addr)?;
            i = i + 1;
        }
        proof {
            assert(all.take(count as int) =~= all);
        }
        Ok(())
    }
}

/// What `flash` has been asked so far.
pub open spec fn trace_of<F: Flash>(flash: &F) -> Trace<F::Error> {
    Trace { log: flash.log(), failures: flash.failures(), last_failed: flash.last_failed() }
}

/// What a store is, to its callers: the bytes on its device and the place
/// and predecessor of the next record.
pub struct StoreState {
    /// The bytes that the device holds.
    pub mem: Seq<u8>,
    /// The slot in which the next appended record starts.
    pub next_idx: nat,
    /// The checksum that the next appended record names as its predecessor.
    pub prev: Chksum,
}

/// A ring of `SLOT_COUNT` slots of `SLOT_SIZE` bytes at the start of a
/// device, holding a chain of records of which the last is the current one.
#[derive(Debug)]
pub struct Storage<F: Flash, const SLOT_SIZE: usize, const SLOT_COUNT: usize> {
    flash: F,
    prev: Chksum,
    idx: usize,
}

impl<F: Flash, const SLOT_SIZE: usize, const SLOT_COUNT: usize> Storage<F, SLOT_SIZE, SLOT_COUNT> {
    /// The bytes on the device, and where and after what the next record goes.
    pub closed spec fn view(&self) -> StoreState {
        StoreState { mem: self.flash.contents(), next_idx: self.idx as nat, prev: self.prev }
    }

    /// How the device programs and erases.
    pub closed spec fn kind(&self) -> DeviceKind {
        self.flash.kind()
    }

    /// Whether every operation on the device succeeds.
    pub closed spec fn reliable(&self) -> bool {
        self.flash.reliable()
    }

    /// Whether the device is in a state in which it can be used.
    pub closed spec fn device_inv(&self) -> bool {
        self.flash.inv()
    }

    /// What the device has been asked so far.
    pub closed spec fn trace(&self) -> Trace<F::Error> {
        trace_of(&self.flash)
    }

    /// The device under the store.
    pub closed spec fn device(&self) -> F {
        self.flash
    }

    /// The store speaks of its device as the device does of itself.
    pub proof fn lemma_device(&self)
        ensures
            self@.mem == self.device().contents(),
            self.kind() == self.device().kind(),
            self.reliable() == self.device().reliable(),
            self.device_inv() == self.device().inv(),
            self.trace() == trace_of(&self.device()),
    {
    }

    /// The limits on the two sizes: a slot holds more than a header, the
    /// ring has at least two slots, and every address in it fits in 32 bits.
    pub open spec fn geometry_ok() -> bool {
        &&& SLOT_SIZE > HEADER_SIZE
        &&& SLOT_COUNT >= 2
        &&& SLOT_SIZE * SLOT_COUNT <= u32::MAX
    }

    /// Whether the store is well formed: the sizes are within their limits,
    /// the device is usable, suits the ring and holds all of it, the next
    /// slot is one of the ring, and the predecessor's checksum is a checksum.
    pub open spec fn wf(&self) -> bool {
        &&& Self::geometry_ok()
        &&& self.device_inv()
        &&& suits(self.kind(), SLOT_SIZE as nat)
        &&& SLOT_SIZE * SLOT_COUNT <= self@.mem.len()
        &&& self@.next_idx < SLOT_COUNT
        &&& self@.prev.spec_is_valid()
    }

    /// A store over `flash` that takes the ring to be empty: the next
    /// record goes to slot 0 and has no predecessor. Nothing is read or
    /// written; `scan` finds what the device holds.
    pub fn new(flash: F) -> (r: Self)
        requires
            Self::geometry_ok(),
            flash.inv(),
            suits(flash.kind(), SLOT_SIZE as nat),
            SLOT_SIZE * SLOT_COUNT <= flash.contents().len(),
        ensures
            r.wf(),
            r@ == (StoreState { mem: flash.contents(), next_idx: 0, prev: Chksum(0) }),
            r.kind() == flash.kind(),
            r.reliable() == flash.reliable(),
            r.trace() == trace_of(&flash),
            r.device() == flash,
    {
        Self { flash, prev: Chksum::zero(), idx: 0 }
    }

    /// The slot in which the next appended record starts.
    pub fn next_idx(&self) -> (r: usize)
        ensures
            r == self@.next_idx,
    {
        self.idx
    }

    /// The checksum that the next appended record names as its predecessor.
    pub fn prev(&self) -> (r: Chksum)
        ensures
            r == self@.prev,
    {
        self.prev
    }

    /// The device under the store.
    pub fn flash(&self) -> (r: &F)
        ensures
            r.contents() == self@.mem,
            r.kind() == self.kind(),
            r.reliable() == self.reliable(),
            r.inv() == self.device_inv(),
            trace_of(r) == self.trace(),
            *r == self.device(),
    {
        &self.flash
    }

    /// Gives the device back, as the store leaves it.
    pub fn into_flash(self) -> (r: F)
        ensures
            r.contents() == self@.mem,
            r.kind() == self.kind(),
            r.reliable() == self.reliable(),
            r.inv() == self.device_inv(),
            trace_of(&r) == self.trace(),
            r == self.device(),
    {
        self.flash
    }

    /// The bytes that the ring takes on the device.
    pub fn space() -> (r: u32)
        requires
            Self::geometry_ok(),
        ensures
            r == SLOT_SIZE * SLOT_COUNT,
    {
        (SLOT_SIZE * SLOT_COUNT) as u32
    }

    /// The address at which slot `idx` of the ring starts.
    fn addr(&self, idx: usize) -> (a: u32)
        requires
            Self::geometry_ok(),
        ensures
            a == slot_addr(SLOT_SIZE as nat, SLOT_COUNT as nat, idx as nat),
            a + SLOT_SIZE <= SLOT_SIZE * SLOT_COUNT,
    {
        let i = idx % SLOT_COUNT;
        assert(i * SLOT_SIZE + SLOT_SIZE <= SLOT_COUNT * SLOT_SIZE) by (nonlinear_arith)
            requires
                i < SLOT_COUNT,
        ;
        assert(SLOT_COUNT * SLOT_SIZE == SLOT_SIZE * SLOT_COUNT) by (nonlinear_arith);
        (i * SLOT_SIZE) as u32
    }

    /// Finds the current record: the first valid header in slot order, and
    /// from then on each valid header that names the one held so far as its
    /// predecessor. Where one is found, the next record will follow it.
    ///
    /// Of a slot whose first byte has its high bit set only that byte is read.
    pub fn scan(&mut self) -> (r: Result<Option<Slot>, F::Error>)
        requires
            old(self).wf(),
        ensures
            final(self).wf(),
            final(self).kind() == old(self).kind(),
            final(self).reliable() == old(self).reliable(),
            final(self)@.mem == old(self)@.mem,
            match r {
                Ok(found) => {
                    &&& found == scan_result(old(self)@.mem, SLOT_SIZE as nat, SLOT_COUNT as nat)
                    &&& match found {
                        Some(slot) => {
                            &&& final(self)@.next_idx == slot.spec_next_slot(
                                SLOT_SIZE as nat,
                                SLOT_COUNT as nat,
                            )
                            &&& final(self)@.prev == slot.chksum
                        },
                        None => {
                            &&& final(self)@.next_idx == old(self)@.next_idx
                            &&& final(self)@.prev == old(self)@.prev
                        },
                    }
                },
                Err(_) => {
                    &&& final(self)@.next_idx == old(self)@.next_idx
                    &&& final(self)@.prev == old(self)@.prev
                },
            },
            served(
                old(self).trace(),
                final(self).trace(),
                scan_reads(old(self)@.mem, SLOT_SIZE as nat, SLOT_COUNT as nat),
                error_of(r),
            ),
            old(self).reliable() ==> r is Ok,
    {
        let ghost mem = self.flash.contents();
        let ghost log = self.flash.log();
        let ghost reads = scan_reads(mem, SLOT_SIZE as nat, SLOT_COUNT as nat);
        let ghost all = candidates(mem, SLOT_SIZE as nat, SLOT_COUNT as nat);
        assert(log + scan_reads(mem, SLOT_SIZE as nat, 0) =~= log);
        let mut current: Option<Slot> = None;
        let mut i: usize = 0;
        while i < SLOT_COUNT
            invariant
                i <= SLOT_COUNT,
                self.wf(),
                self.flash.contents() == mem,
                self.flash.kind() == old(self).flash.kind(),
                self.flash.reliable() == old(self).flash.reliable(),
                self.idx == old(self).idx,
                self.prev == old(self).prev,
                mem == old(self).flash.contents(),
                all == candidates(mem, SLOT_SIZE as nat, SLOT_COUNT as nat),
                current == scan_from(None, all.take(i as int)),
                current matches Some(slot) ==> slot.spec_is_valid(),
                log == old(self).flash.log(),
                reads == scan_reads(mem, SLOT_SIZE as nat, SLOT_COUNT as nat),
                self.flash.log() == log + scan_reads(mem, SLOT_SIZE as nat, i as nat),
                self.flash.failures() == old(self).flash.failures(),
                self.flash.last_failed() == (i == 0 && old(self).flash.last_failed()),
            decreases SLOT_COUNT - i,
        {
            let at = self.addr(i);
            let ghost so_far = scan_reads(mem, SLOT_SIZE as nat, i as nat);
            let ghost here = slot_reads(mem, SLOT_SIZE as nat, i as nat);
            proof {
                lemma_small_index(i as nat, SLOT_COUNT as nat);
                lemma_scan_reads_prefix(mem, SLOT_SIZE as nat, i as nat, SLOT_COUNT as nat);
                let at_slot = reads.subrange(
                    so_far.len() as int,
                    (so_far.len() + here.len()) as int,
                );
                assert(at_slot[0] == reads[so_far.len() as int]);
                assert(reads.take(so_far.len() as int + 1) =~= so_far.push(here[0]));
                assert((log + so_far).push(here[0]) =~= log + so_far.push(here[0]));
                assert(log + scan_reads(mem, SLOT_SIZE as nat, (i + 1) as nat) =~= (log
                    + so_far) + here);
            }
            let mut first = [0u8; 1];
            self.flash.read(at, &mut first)?;
            let mut seen: Option<Slot> = None;
            proof {
                let b = first[0];
                assert((b & 0x80 == 0) == (b < 0x80)) by (bit_vector);
                assert(first[0] == mem[at as int]);
            }
            if first[0] & BYTE_MASK == 0 {
                let mut rest = [0u8; 11];
                proof {
                    assert(((log + so_far).push(here[0])).push(here[1]) =~= (log + so_far) + here);
                }
                self.flash.read(at + 1, &mut rest)?;
                let bytes = [
                    first[0],
                    rest[0],
                    rest[1],
                    rest[2],
                    rest[3],
                    rest[4],
                    rest[5],
                    rest[6],
                    rest[7],
                    rest[8],
                    rest[9],
                    rest[10],
                ];
                assert(bytes@ =~= mem.subrange(at as int, at + HEADER_SIZE));
                let slot = Slot::from_bytes(i, bytes);
                if slot.is_valid() {
                    seen = Some(slot);
                }
            } else {
                proof {
                    let head = mem.subrange(at as int, at + HEADER_SIZE);
                    assert(head[0] == first[0]);
                    lemma_high_bit_invalid(head);
                    assert((log + so_far).push(here[0]) =~= (log + so_far) + here);
                }
            }
            assert(seen == candidate(mem, SLOT_SIZE as nat, i as nat));
            current = match seen {
                None => current,
                Some(slot) => match current {
                    None => Some(slot),
                    Some(held) => if slot.is_update_to(&held) {
                        Some(slot)
                    } else {
                        current
                    },
                },
            };
            proof {
                assert(all.take(i + 1).drop_last() =~= all.take(i as int));
                assert(all.take(i + 1).last() == candidate(mem, SLOT_SIZE as nat, i as nat));
            }
            i = i + 1;
        }
        assert(all.take(SLOT_COUNT as int) =~= all);
        if let Some(slot) = current {
            self.idx = slot.next_slot::<SLOT_SIZE, SLOT_COUNT>();
            self.prev = slot.chksum;
        }
        Ok(current)
    }

    /// Erases slot `idx` of the ring, or as much of its start as the device
    /// erases at once.
    pub fn erase(&mut self, idx: usize) -> (r: Result<(), F::Error>)
        requires
            old(self).wf(),
        ensures
            final(self).wf(),
            final(self).kind() == old(self).kind(),
            final(self).reliable() == old(self).reliable(),
            final(self)@.next_idx == old(self)@.next_idx,
            final(self)@.prev == old(self)@.prev,
            r is Ok ==> final(self)@.mem == erased(
                old(self)@.mem,
                old(self).kind().erase_size,
                slot_addr(SLOT_SIZE as nat, SLOT_COUNT as nat, idx as nat),
            ),
            r is Err ==> torn(
                old(self)@.mem,
                final(self)@.mem,
                old(self).kind(),
                FlashOp::Erase { addr: slot_addr(SLOT_SIZE as nat, SLOT_COUNT as nat, idx as nat) },
            ),
            final(self).trace() == asked(
                old(self).trace(),
                FlashOp::Erase { addr: slot_addr(SLOT_SIZE as nat, SLOT_COUNT as nat, idx as nat) },
                error_of(r),
            ),
            old(self).reliable() ==> r is Ok,
    {
        let at = self.addr(idx);
        self.flash.erase(at)?;
        Ok(())
    }

    /// Erases the whole ring and takes it to be empty: the next record goes
    /// to slot 0 and has no predecessor. Where the device fails, the store
    /// keeps its place.
    ///
    /// The device is asked for one bulk erase of `SLOT_COUNT` slots. That
    /// is its own, or the provided one, which asks for one erase at the
    /// start of each slot and for nothing else.
    pub fn erase_all(&mut self) -> (r: Result<(), F::Error>)
        requires
            old(self).wf(),
        ensures
            final(self).wf(),
            final(self).kind() == old(self).kind(),
            final(self).reliable() == old(self).reliable(),
            match r {
                Ok(_) => {
                    &&& final(self)@.next_idx == 0
                    &&& final(self)@.prev == Chksum(0)
                    &&& scan_result(final(self)@.mem, SLOT_SIZE as nat, SLOT_COUNT as nat) is None
                },
                Err(_) => {
                    &&& final(self)@.next_idx == old(self)@.next_idx
                    &&& final(self)@.prev == old(self)@.prev
                },
            },
            bulk_erase_done(
                final(self)@.mem,
                old(self).trace(),
                final(self).trace(),
                old(self).device().bulk_erased_by(SLOT_SIZE as nat, SLOT_COUNT as nat),
                old(self).device().bulk_erase_calls(SLOT_SIZE as nat, SLOT_COUNT as nat),
                error_of(r),
            ) || bulk_erase_done(
                final(self)@.mem,
                old(self).trace(),
                final(self).trace(),
                bulk_erased(
                    old(self)@.mem,
                    old(self).kind().erase_size,
                    SLOT_SIZE as nat,
                    SLOT_COUNT as nat,
                ),
                bulk_erase_ops(SLOT_SIZE as nat, SLOT_COUNT as nat),
                error_of(r),
            ),
            old(self).reliable() ==> r is Ok,
    {
        assert(SLOT_COUNT * SLOT_SIZE == SLOT_SIZE * SLOT_COUNT) by (nonlinear_arith);
        let ghost mem = self.flash.contents();
        self.flash.erase_all(SLOT_SIZE, SLOT_COUNT)?;
        proof {
            lemma_scan_after_erase_all(
                mem,
                self.flash.contents(),
                self.flash.kind().erase_size,
                SLOT_SIZE as nat,
                SLOT_COUNT as nat,
            );
        }
        self.idx = 0;
        self.prev = Chksum::zero();
        Ok(())
    }

    /// Reads the payload of the record that starts in slot `idx` into the
    /// front of `buf` and returns that part of it, or `None` where `buf` is
    /// shorter than the header says the payload is. The bytes are returned
    /// as the device holds them: no checksum is computed.
    #[verifier::rlimit(50)]
    pub fn read<'a>(&mut self, idx: usize, buf: &'a mut [u8]) -> (r: Result<
        Option<&'a mut [u8]>,
        F::Error,
    >)
        requires
            old(self).wf(),
        ensures
            final(self).wf(),
            final(self).kind() == old(self).kind(),
            final(self).reliable() == old(self).reliable(),
            final(self)@ == old(self)@,
            match r {
                Ok(Some(data)) => {
                    let len = stored_header(
                        old(self)@.mem,
                        SLOT_SIZE as nat,
                        SLOT_COUNT as nat,
                        idx,
                    ).len as nat;
                    &&& len <= old(buf)@.len()
                    &&& data@ == stored_payload(
                        old(self)@.mem,
                        SLOT_SIZE as nat,
                        SLOT_COUNT as nat,
                        idx as nat,
                        len,
                    )
                    &&& final(buf)@ == final(data)@ + old(buf)@.skip(len as int)
                },
                Ok(None) => {
                    &&& stored_header(
                        old(self)@.mem,
                        SLOT_SIZE as nat,
                        SLOT_COUNT as nat,
                        idx,
                    ).len > old(buf)@.len()
                    &&& final(buf)@ == old(buf)@
                },
                Err(_) => {
                    let len = stored_header(
                        old(self)@.mem,
                        SLOT_SIZE as nat,
                        SLOT_COUNT as nat,
                        idx,
                    ).len as int;
                    &&& final(buf)@.len() == old(buf)@.len()
                    &&& final(self).trace().log == old(self).trace().log ==> final(buf)@ == old(
                        buf,
                    )@
                    &&& final(self).trace().log != old(self).trace().log ==> final(buf)@.skip(len)
                        == old(buf)@.skip(len)
                },
            },
            served(
                old(self).trace(),
                final(self).trace(),
                record_reads(
                    old(self)@.mem,
                    SLOT_SIZE as nat,
                    SLOT_COUNT as nat,
                    idx,
                    old(buf)@.len(),
                ),
                error_of(r),
            ),
            old(self).reliable() ==> r is Ok,
    {
        let ghost mem = self.flash.contents();
        let ghost log = self.flash.log();
        let ghost size = SLOT_SIZE as nat;
        let ghost count = SLOT_COUNT as nat;
        let ghost ops = record_reads(mem, size, count, idx, buf@.len());
        let first_at = self.addr(idx);
        let mut head = [0u8; HEADER_SIZE];
        proof {
            lemma_log_push(log, ops, 0);
        }
        self.flash.read(first_at, &mut head)?;
        let slot = Slot::from_bytes(idx, head);
        let len = slot.len as usize;
        if buf.len() < len {
            proof {
                assert(ops.take(1) =~= ops);
            }
            return Ok(None);
        }
        let ghost parts = payload_reads(size, count, idx as nat, len as nat);
        proof {
            
            lemma_slots_used(size, len as nat);
        }
        let ghost stored = stored_payload(mem, size, count, idx as nat, len as nat);
        let mut done: usize = 0;
        let mut cur: usize = idx % SLOT_COUNT;
        let mut at: u32 = first_at + HEADER_SIZE as u32;
        let mut room: usize = SLOT_SIZE - HEADER_SIZE;
        let ghost mut c: nat = 0;
        proof {
            lemma_mod_twice(idx as int, count as int);
        }
        while done < len
            invariant
                self.wf(),
                self.flash.contents() == mem,
                self.flash.kind() == old(self).flash.kind(),
                self.flash.reliable() == old(self).flash.reliable(),
                self.idx == old(self).idx,
                self.prev == old(self).prev,
                mem == old(self).flash.contents(),
                size == SLOT_SIZE,
                count == SLOT_COUNT,
                stored == stored_payload(mem, size, count, idx as nat, len as nat),
                buf@.len() == old(buf)@.len(),
                len <= buf@.len(),
                done == least(len as nat, chunk_start(size, c)),
                cur == (idx + c) % (count as int),
                cur < SLOT_COUNT,
                at == slot_addr(size, count, idx as nat + c) + lead(c),
                room == SLOT_SIZE - lead(c),
                buf@.take(done as int) == stored.take(done as int),
                buf@.skip(len as int) == old(buf)@.skip(len as int),
                log == old(self).flash.log(),
                ops == record_reads(mem, size, count, idx, old(buf)@.len()),
                parts == payload_reads(size, count, idx as nat, len as nat),
                ops.len() == 1 + parts.len(),
                forall|k: int| 0 <= k < parts.len() ==> #[trigger] ops[1 + k] == parts[k],
                c <= parts.len(),
                self.flash.log() == log + ops.take(1 + c as int),
                self.flash.failures() == old(self).flash.failures(),
                !self.flash.last_failed(),
                len == stored_header(mem, size, count, idx).len,
            decreases len - done,
        {
            let n = if len - done < room {
                len - done
            } else {
                room
            };
            proof {
                if c >= 1 {
                    lemma_chunk_reaches(size, len as nat, c);
                }
                lemma_slots_used(size, len as nat);
                assert(ops[1 + c as int] == parts[c as int]);
                lemma_log_push(log, ops, (1 + c) as int);
                lemma_chunk_start_next(size, c);
                lemma_small_index(cur as nat, count);
                assert(slot_addr(size, count, idx as nat + c) + SLOT_SIZE <= SLOT_SIZE * SLOT_COUNT)
                    by (nonlinear_arith)
                    requires
                        slot_addr(size, count, idx as nat + c) == cur * SLOT_SIZE,
                        cur < SLOT_COUNT,
                ;
            }
            let ghost before = buf@;
            let (_front, tail) = buf.split_at_mut(done);
            let (part, _back) = tail.split_at_mut(n);
            self.flash.read(at, part)?;
            proof {
                assert(buf@ =~= before.take(done as int) + mem.subrange(at as int, at + n)
                    + before.skip(done + n));
                lemma_part_read(mem, size, count, idx as nat, len as nat, c, before, buf@);
                lemma_next_in_ring(count, idx as nat, c + 1);
            }
            done = done + n;
            cur = if cur + 1 == SLOT_COUNT {
                0
            } else {
                cur + 1
            };
            at = self.addr(cur) + 1;
            room = SLOT_SIZE - 1;
            proof {
                lemma_small_index(cur as nat, count);
                lemma_mod_twice((idx + c + 1) as int, count as int);
                c = c + 1;
            }
        }
        proof {
            if c >= 1 {
                lemma_chunk_reaches(size, len as nat, c);
            }
            assert(ops.take(1 + c as int) =~= ops);
        }
        let (data, _rest) = buf.split_at_mut(len);
        assert(data@ =~= stored);
        Ok(Some(data))
    }

    /// Reads `N` bytes of the payload of the record that starts in slot
    /// `idx`, all from that slot.
    pub fn read_static<const N: usize>(&mut self, idx: usize) -> (r: Result<[u8; N], F::Error>)
        requires
            old(self).wf(),
            N <= SLOT_SIZE - HEADER_SIZE,
        ensures
            final(self).wf(),
            final(self).kind() == old(self).kind(),
            final(self).reliable() == old(self).reliable(),
            final(self)@ == old(self)@,
            r matches Ok(data) ==> data@ == stored_payload(
                old(self)@.mem,
                SLOT_SIZE as nat,
                SLOT_COUNT as nat,
                idx as nat,
                N as nat,
            ),
            final(self).trace() == asked(
                old(self).trace(),
                FlashOp::Read {
                    addr: slot_addr(SLOT_SIZE as nat, SLOT_COUNT as nat, idx as nat) + HEADER_SIZE,
                    len: N as nat,
                },
                error_of(r),
            ),
            old(self).reliable() ==> r is Ok,
    {
        let ghost mem = self.flash.contents();
        let at = self.addr(idx);
        let mut data = [0u8; N];
        self.flash.read(at + HEADER_SIZE as u32, &mut data)?;
        proof {
            let stored = stored_payload(
                mem,
                SLOT_SIZE as nat,
                SLOT_COUNT as nat,
                idx as nat,
                N as nat,
            );
            assert forall|j: int| 0 <= j < N implies data@[j] == stored[j] by {
                lemma_chunk_start_next(SLOT_SIZE as nat, 0);
                lemma_chunk_of(SLOT_SIZE as nat, 0, j as nat);
            }
            assert(data@ =~= stored);
        }
        Ok(data)
    }

    /// Commits `data` as a record that starts in slot `idx` and follows a
    /// record with checksum `prev`, or none. The store's own place for the
    /// next record is left alone: this is for callers that keep their own.
    ///
    /// Each slot is erased before its share of the payload is written, and
    /// the header is written last. Returns the slot after the record and the
    /// record's checksum.
    pub fn write(&mut self, idx: usize, prev: Option<Chksum>, data: &[u8]) -> (r: Result<
        (usize, Chksum),
        F::Error,
    >)
        requires
            old(self).wf(),
            data@.len() <= u32::MAX,
        ensures
            final(self).wf(),
            final(self).kind() == old(self).kind(),
            final(self).reliable() == old(self).reliable(),
            final(self)@.next_idx == old(self)@.next_idx,
            final(self)@.prev == old(self)@.prev,
            r matches Ok((next, chksum)) ==> {
                let before = match prev {
                    Some(p) => p,
                    None => Chksum(0),
                };
                &&& chksum == Chksum::spec_hash(before, data@)
                &&& next == (idx + slots_used(SLOT_SIZE as nat, data@.len())) % (SLOT_COUNT as int)
            },
            carried_out(
                old(self)@.mem,
                final(self)@.mem,
                old(self).kind(),
                old(self).trace(),
                final(self).trace(),
                commit_ops(
                    SLOT_SIZE as nat,
                    SLOT_COUNT as nat,
                    idx,
                    match prev {
                        Some(p) => p,
                        None => Chksum(0),
                    },
                    data@,
                ),
                error_of(r),
            ),
            old(self).reliable() ==> r is Ok,
    {
        let before = match prev {
            Some(p) => p,
            None => Chksum::zero(),
        };
        let slot = Slot::create(idx, before, data);
        let header = slot.to_bytes();
        let first_at = self.addr(idx);
        let ghost mem = self.flash.contents();
        let ghost kind = self.flash.kind();
        let ghost size = SLOT_SIZE as nat;
        let ghost count = SLOT_COUNT as nat;
        let ghost len = data@.len();
        let ghost slots = slots_used(size, len);
        let ghost ops = commit_ops(size, count, idx, before, data@);
        let ghost log = self.flash.log();
        proof {
            lemma_slots_used(size, len);
            lemma_chunk_start_next(size, 0);
            assert(ops.take(0) =~= Seq::<FlashOp>::empty());
            lemma_apply_next(mem, kind, ops, 0);
            lemma_apply_next(mem, kind, ops, 1);
            lemma_log_push(log, ops, 0);
            lemma_log_push(log, ops, 1);
        }
        self.flash.erase(first_at)?;
        let first_len = if data.len() < SLOT_SIZE - HEADER_SIZE {
            data.len()
        } else {
            SLOT_SIZE - HEADER_SIZE
        };
        self.flash.write(first_at + HEADER_SIZE as u32, slice_subrange(data, 0, first_len))?;
        let mut written: usize = first_len;
        let mut cur: usize = idx % SLOT_COUNT;
        let ghost mut c: nat = 1;
        while written < data.len()
            invariant
                self.wf(),
                self.flash.kind() == kind,
                self.flash.kind() == old(self).flash.kind(),
                self.flash.reliable() == old(self).flash.reliable(),
                self.idx == old(self).idx,
                self.prev == old(self).prev,
                size == SLOT_SIZE,
                count == SLOT_COUNT,
                len == data@.len(),
                slots == slots_used(size, len),
                ops == commit_ops(size, count, idx, before, data@),
                1 <= c <= slots,
                written == least(len, chunk_start(size, c)),
                written <= len,
                cur == (idx + c - 1) % (count as int),
                cur < SLOT_COUNT,
                self.flash.contents() == apply_all(mem, kind, ops.take((2 * c) as int)),
                log == old(self).flash.log(),
                self.flash.log() == log + ops.take((2 * c) as int),
                self.flash.failures() == old(self).flash.failures(),
                !self.flash.last_failed(),
                mem == old(self).flash.contents(),
                kind == old(self).flash.kind(),
                before == match prev {
                    Some(p) => p,
                    None => Chksum(0),
                },
            decreases data@.len() - written,
        {
            proof {
                lemma_chunk_reaches(size, len, c);
                lemma_chunk_reaches(size, len, c + 1);
                lemma_chunk_start_next(size, c);
                lemma_next_in_ring(count, idx as nat, c);
                lemma_apply_next(mem, kind, ops, (2 * c) as int);
                lemma_apply_next(mem, kind, ops, (2 * c + 1) as int);
                lemma_log_push(log, ops, (2 * c) as int);
                lemma_log_push(log, ops, (2 * c + 1) as int);
            }
            cur = if cur + 1 == SLOT_COUNT {
                0
            } else {
                cur + 1
            };
            let at = self.addr(cur);
            proof {
                lemma_small_index(cur as nat, count);
                lemma_mod_twice((idx + c) as int, count as int);
            }
            self.flash.erase(at)?;
            let room = SLOT_SIZE - 1;
            let n = if data.len() - written < room {
                data.len() - written
            } else {
                room
            };
            self.flash.write(at + 1, slice_subrange(data, written, written + n))?;
            written = written + n;
            proof {
                c = c + 1;
            }
        }
        proof {
            lemma_chunk_reaches(size, len, c);
            lemma_apply_next(mem, kind, ops, (2 * slots) as int);
            lemma_log_push(log, ops, (2 * slots) as int);
            assert(ops.take((2 * slots + 1) as int) =~= ops);
            lemma_next_in_ring(count, idx as nat, slots);
            lemma_header_round_trip(slot);
        }
        self.flash.write(first_at, header.as_slice())?;
        let next = if cur + 1 == SLOT_COUNT {
            0
        } else {
            cur + 1
        };
        Ok((next, slot.chksum))
    }

    /// Commits `data` as the record after the current one, and makes it the
    /// current one. Where the device fails, the store keeps its place.
    ///
    /// What a scan finds afterwards is the matter of
    /// `laws::lemma_append_in_order`.
    pub fn append(&mut self, data: &[u8]) -> (r: Result<(), F::Error>)
        requires
            old(self).wf(),
            data@.len() <= u32::MAX,
        ensures
            final(self).wf(),
            final(self).kind() == old(self).kind(),
            final(self).reliable() == old(self).reliable(),
            match r {
                Ok(_) => final(self)@ == after_append(
                    old(self)@,
                    old(self).kind(),
                    SLOT_SIZE as nat,
                    SLOT_COUNT as nat,
                    data@,
                ),
                Err(_) => {
                    &&& final(self)@.next_idx == old(self)@.next_idx
                    &&& final(self)@.prev == old(self)@.prev
                },
            },
            carried_out(
                old(self)@.mem,
                final(self)@.mem,
                old(self).kind(),
                old(self).trace(),
                final(self).trace(),
                commit_ops(
                    SLOT_SIZE as nat,
                    SLOT_COUNT as nat,
                    old(self)@.next_idx as usize,
                    old(self)@.prev,
                    data@,
                ),
                error_of(r),
            ),
            old(self).reliable() ==> r is Ok,
    {
        let at = self.idx;
        let before = self.prev;
        let (next, chksum) = self.write(at, Some(before), data)?;
        proof {
            lemma_mod_bound(
                at + slots_used(SLOT_SIZE as nat, data@.len()),
                SLOT_COUNT as int,
            );
        }
        self.idx = next;
        self.prev = chksum;
        Ok(())
    }
}

/// An index below the ring's size is its own slot.
pub proof fn lemma_small_index(i: nat, slot_count: nat)
    requires
        i < slot_count,
    ensures
        i % slot_count == i,
{
    lemma_fundamental_div_mod(i as int, slot_count as int);
    lemma_mod_bound(i as int, slot_count as int);
    let q = i as int / slot_count as int;
    assert(q == 0) by (nonlinear_arith)
        requires
            i == slot_count * q + i % slot_count,
            0 <= i % slot_count < slot_count,
            i < slot_count,
    ;
    assert(slot_count * q == 0) by (nonlinear_arith)
        requires
            q == 0,
    ;
}

/// Twelve bytes of which the first has its high bit set spell no valid
/// header: that bit is the marker bit of the record's checksum.
pub proof fn lemma_high_bit_invalid(head: Seq<u8>)
    requires
        head.len() >= HEADER_SIZE,
        head[0] >= 0x80,
    ensures
        forall|idx: usize| !(#[trigger] Slot::parse(idx, head)).spec_is_valid(),
{
    let b = head.subrange(0, 4);
    assert(b[0] == head[0]);
    assert(be_value(b) >= 0x8000_0000);
}

} // verus!
