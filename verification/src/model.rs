//! The mathematical model of the medium and of what the store does to it:
//! how a device programs and erases, which slots hold a header, what a scan
//! finds, and the sequence of device operations that commits a record.

use crate::layout::{
    continuation_slots, lemma_ceil_div_bounds, lemma_slots_used, slots_used, HEADER_SIZE,
};
use crate::Slot;
use vstd::arithmetic::div_mod::{
    lemma_fundamental_div_mod, lemma_fundamental_div_mod_converse, lemma_mod_bound,
};
use vstd::prelude::*;

verus! {

/// How a device programs and erases.
pub struct DeviceKind {
    /// Bytes that one erase returns to the erased state. They start at the
    /// multiple of `erase_size` at or below the address that was named.
    pub erase_size: nat,
    /// Whether programming can only clear bits, as on NOR flash, or stores
    /// exactly the bytes given, as on an EEPROM.
    pub clears_only: bool,
}

/// What one byte holds after `new` is programmed over `before`.
pub open spec fn programmed_byte(clears_only: bool, before: u8, new: u8) -> u8 {
    if clears_only {
        before & new
    } else {
        new
    }
}

/// The contents after `data` is programmed at `addr`.
pub open spec fn programmed(mem: Seq<u8>, clears_only: bool, addr: int, data: Seq<u8>) -> Seq<u8> {
    Seq::new(
        mem.len(),
        |a: int|
            if addr <= a < addr + data.len() {
                programmed_byte(clears_only, mem[a], data[a - addr])
            } else {
                mem[a]
            },
    )
}

/// The first address of the erase unit that holds `addr`.
pub open spec fn erase_start(erase_size: nat, addr: int) -> int {
    addr - addr % (erase_size as int)
}

/// The contents after the erase unit that holds `addr` is erased.
pub open spec fn erased(mem: Seq<u8>, erase_size: nat, addr: int) -> Seq<u8> {
    Seq::new(
        mem.len(),
        |a: int|
            if erase_start(erase_size, addr) <= a < erase_start(erase_size, addr) + erase_size {
                0xFFu8
            } else {
                mem[a]
            },
    )
}

/// The contents after the erase units at the start of each of the first
/// `count` slots are erased, one after the other.
pub open spec fn bulk_erased(mem: Seq<u8>, erase_size: nat, slot_size: nat, count: nat) -> Seq<u8>
    decreases count,
{
    if count == 0 {
        mem
    } else {
        erased(
            bulk_erased(mem, erase_size, slot_size, (count - 1) as nat),
            erase_size,
            (count - 1) * slot_size,
        )
    }
}

/// The erases that a bulk erase of the first `count` slots is made of,
/// where the device has nothing faster.
pub open spec fn bulk_erase_ops(slot_size: nat, count: nat) -> Seq<FlashOp> {
    Seq::new(count, |i: int| FlashOp::Erase { addr: i * slot_size })
}

/// Whether `mem` is `target` but for bytes that are erased in `mem` and were
/// not in `target`.
pub open spec fn erased_at_least(mem: Seq<u8>, target: Seq<u8>) -> bool {
    &&& mem.len() == target.len()
    &&& forall|a: int| 0 <= a < mem.len() ==> mem[a] == target[a] || #[trigger] mem[a] == 0xFFu8
}

/// One operation on the device.
pub enum FlashOp {
    /// `len` bytes are read from `addr` on.
    Read { addr: int, len: nat },
    /// The erase unit that holds `addr` is erased.
    Erase { addr: int },
    /// `data` is programmed from `addr` on.
    Write { addr: int, data: Seq<u8> },
}

/// The contents after `op`.
pub open spec fn apply(mem: Seq<u8>, kind: DeviceKind, op: FlashOp) -> Seq<u8> {
    match op {
        FlashOp::Read { .. } => mem,
        FlashOp::Erase { addr } => erased(mem, kind.erase_size, addr),
        FlashOp::Write { addr, data } => programmed(mem, kind.clears_only, addr, data),
    }
}

/// The contents after all of `ops`, first to last.
pub open spec fn apply_all(mem: Seq<u8>, kind: DeviceKind, ops: Seq<FlashOp>) -> Seq<u8>
    decreases ops.len(),
{
    if ops.len() == 0 {
        mem
    } else {
        apply(apply_all(mem, kind, ops.drop_last()), kind, ops.last())
    }
}

/// The address at which slot `idx` starts. Slot indices wrap around the ring.
pub open spec fn slot_addr(slot_size: nat, slot_count: nat, idx: nat) -> int {
    ((idx % slot_count) * slot_size) as int
}

/// The offset in a record's `c`-th slot at which its payload bytes start:
/// behind the header in the first slot, behind the reserved byte in the others.
pub open spec fn lead(c: nat) -> nat {
    if c == 0 {
        HEADER_SIZE as nat
    } else {
        1
    }
}

/// The index of the first payload byte that goes to a record's `c`-th slot,
/// were the payload long enough to reach it.
pub open spec fn chunk_start(slot_size: nat, c: nat) -> nat {
    if c == 0 {
        0
    } else {
        ((slot_size - HEADER_SIZE) + (c - 1) * (slot_size - 1)) as nat
    }
}

/// The smaller of two numbers.
pub open spec fn least(a: nat, b: nat) -> nat {
    if a <= b {
        a
    } else {
        b
    }
}

/// The payload bytes that go to a record's `c`-th slot.
pub open spec fn chunk(slot_size: nat, data: Seq<u8>, c: nat) -> Seq<u8> {
    data.subrange(
        least(data.len(), chunk_start(slot_size, c)) as int,
        least(data.len(), chunk_start(slot_size, c + 1)) as int,
    )
}

/// The `i`-th operation of the commit of a record that takes `slots` slots
/// from slot `idx` on: for each slot in turn an erase and the write of its
/// share of the payload, and last of all the write of the header.
pub open spec fn commit_op(
    slot_size: nat,
    slot_count: nat,
    idx: nat,
    header: Seq<u8>,
    data: Seq<u8>,
    slots: nat,
    i: int,
) -> FlashOp {
    let c = (i / 2) as nat;
    if i == 2 * slots {
        FlashOp::Write { addr: slot_addr(slot_size, slot_count, idx), data: header }
    } else if i % 2 == 0 {
        FlashOp::Erase { addr: slot_addr(slot_size, slot_count, idx + c) }
    } else {
        FlashOp::Write {
            addr: slot_addr(slot_size, slot_count, idx + c) + lead(c),
            data: chunk(slot_size, data, c),
        }
    }
}

/// The operations that commit `data` as a record that starts in slot `idx`
/// and follows a record with checksum `prev`. The header goes last: until
/// it is written the first byte of slot `idx` reads as erased, and no scan
/// takes the record for one.
pub open spec fn commit_ops(
    slot_size: nat,
    slot_count: nat,
    idx: usize,
    prev: crate::chksum::Chksum,
    data: Seq<u8>,
) -> Seq<FlashOp> {
    let slots = slots_used(slot_size, data.len());
    let header = Slot::spec_create(idx, prev, data).header_bytes();
    Seq::new(
        2 * slots + 1,
        |i: int| commit_op(slot_size, slot_count, idx as nat, header, data, slots, i),
    )
}

/// The header that slot `i` holds, if its twelve first bytes spell a valid one.
pub open spec fn candidate(mem: Seq<u8>, slot_size: nat, i: nat) -> Option<Slot> {
    let at = (i * slot_size) as int;
    let header = Slot::parse(i as usize, mem.subrange(at, at + HEADER_SIZE));
    if header.spec_is_valid() {
        Some(header)
    } else {
        None
    }
}

/// For each slot of the ring, the valid header it holds, if any.
pub open spec fn candidates(mem: Seq<u8>, slot_size: nat, slot_count: nat) -> Seq<Option<Slot>> {
    Seq::new(slot_count, |i: int| candidate(mem, slot_size, i as nat))
}

/// What a scan holds after it has seen one more slot: the first header it
/// meets, and from then on each header that names the held one as its
/// predecessor.
pub open spec fn scan_step(current: Option<Slot>, seen: Option<Slot>) -> Option<Slot> {
    match seen {
        None => current,
        Some(header) => match current {
            None => Some(header),
            Some(held) => if header.spec_is_update_to(&held) {
                Some(header)
            } else {
                current
            },
        },
    }
}

/// What a scan holds after it has seen `seen`, slot by slot, when it held
/// `current` before.
pub open spec fn scan_from(current: Option<Slot>, seen: Seq<Option<Slot>>) -> Option<Slot>
    decreases seen.len(),
{
    if seen.len() == 0 {
        current
    } else {
        scan_step(scan_from(current, seen.drop_last()), seen.last())
    }
}

/// The record that a scan of the whole ring returns.
pub open spec fn scan_result(mem: Seq<u8>, slot_size: nat, slot_count: nat) -> Option<Slot> {
    scan_from(None, candidates(mem, slot_size, slot_count))
}

/// A call that the device did not serve, and the error it reported.
pub struct Failure<E> {
    /// The operation that was asked for.
    pub op: FlashOp,
    /// What the device reported.
    pub error: E,
}

/// What a device has been asked so far.
pub struct Trace<E> {
    /// The operations that it has served, first to last.
    pub log: Seq<FlashOp>,
    /// The calls that it has failed, first to last.
    pub failures: Seq<Failure<E>>,
    /// Whether the call it was asked last failed.
    pub last_failed: bool,
}

/// The error of a result, if it is one.
pub open spec fn error_of<T, E>(r: Result<T, E>) -> Option<E> {
    match r {
        Ok(_) => None,
        Err(e) => Some(e),
    }
}

/// The trace of a device once it was asked for `op`, and served it or
/// failed with `error`.
pub open spec fn asked<E>(before: Trace<E>, op: FlashOp, error: Option<E>) -> Trace<E> {
    match error {
        None => Trace { log: before.log.push(op), failures: before.failures, last_failed: false },
        Some(e) => Trace {
            log: before.log,
            failures: before.failures.push(Failure { op, error: e }),
            last_failed: true,
        },
    }
}

/// Whether a device with trace `before` has trace `after` once it was
/// asked for `ops` in turn, up to the first that failed. Without an error
/// all were served and none failed. With an error the first few were
/// served, the next one failed with that error, and nothing was asked
/// after it.
pub open spec fn served<E>(
    before: Trace<E>,
    after: Trace<E>,
    ops: Seq<FlashOp>,
    error: Option<E>,
) -> bool {
    match error {
        None => {
            &&& after.log == before.log + ops
            &&& after.failures == before.failures
            &&& after.last_failed == (ops.len() == 0 && before.last_failed)
        },
        Some(e) => exists|m: int|
            {
                &&& 0 <= m < ops.len()
                &&& after.log == before.log + #[trigger] ops.take(m)
                &&& after.failures == before.failures.push(Failure { op: ops[m], error: e })
                &&& after.last_failed
            },
    }
}

/// Whether a bulk erase that was to leave `target` and to ask for `ops`
/// took a device with trace `before` to one that holds `now` with trace
/// `after`: it asked for `ops` in turn up to the first that failed, and
/// without an error the device holds `target`.
pub open spec fn bulk_erase_done<E>(
    now: Seq<u8>,
    before: Trace<E>,
    after: Trace<E>,
    target: Seq<u8>,
    ops: Seq<FlashOp>,
    error: Option<E>,
) -> bool {
    &&& served(before, after, ops, error)
    &&& error is None ==> now == target
}

/// Whether `op` can change the byte at `a`.
pub open spec fn in_reach(kind: DeviceKind, op: FlashOp, a: int) -> bool {
    match op {
        FlashOp::Read { .. } => false,
        FlashOp::Erase { addr } => erase_start(kind.erase_size, addr) <= a < erase_start(
            kind.erase_size,
            addr,
        ) + kind.erase_size,
        FlashOp::Write { addr, data } => addr <= a < addr + data.len(),
    }
}

/// Whether `after` is what a device can hold that held `before` and then
/// failed at `op`: the bytes that `op` cannot change are as they were, the
/// others may hold anything.
pub open spec fn torn(before: Seq<u8>, after: Seq<u8>, kind: DeviceKind, op: FlashOp) -> bool {
    &&& after.len() == before.len()
    &&& forall|a: int|
        0 <= a < before.len() && !in_reach(kind, op, a) ==> #[trigger] after[a] == before[a]
}

/// Whether a device that held `mem` with trace `before` holds `now` with
/// trace `after` once it was asked for `ops` in turn, up to the first that
/// failed. Without an error it holds what `ops` add up to. With an error
/// it holds what the operations served add up to, torn by the one that
/// failed.
pub open spec fn carried_out<E>(
    mem: Seq<u8>,
    now: Seq<u8>,
    kind: DeviceKind,
    before: Trace<E>,
    after: Trace<E>,
    ops: Seq<FlashOp>,
    error: Option<E>,
) -> bool {
    match error {
        None => served(before, after, ops, error) && now == apply_all(mem, kind, ops),
        Some(e) => exists|m: int|
            {
                &&& 0 <= m < ops.len()
                &&& after.log == before.log + #[trigger] ops.take(m)
                &&& after.failures == before.failures.push(Failure { op: ops[m], error: e })
                &&& after.last_failed
                &&& torn(apply_all(mem, kind, ops.take(m)), now, kind, ops[m])
            },
    }
}

/// The reads that a scan makes of slot `i`: the slot's first byte, and the
/// rest of the header where that byte has its high bit clear.
pub open spec fn slot_reads(mem: Seq<u8>, slot_size: nat, i: nat) -> Seq<FlashOp> {
    let at = (i * slot_size) as int;
    if mem[at] < 0x80 {
        seq![
            FlashOp::Read { addr: at, len: 1 },
            FlashOp::Read { addr: at + 1, len: (HEADER_SIZE - 1) as nat },
        ]
    } else {
        seq![FlashOp::Read { addr: at, len: 1 }]
    }
}

/// The reads that a scan makes of the first `n` slots, in slot order.
pub open spec fn scan_reads(mem: Seq<u8>, slot_size: nat, n: nat) -> Seq<FlashOp>
    decreases n,
{
    if n == 0 {
        Seq::empty()
    } else {
        scan_reads(mem, slot_size, (n - 1) as nat) + slot_reads(mem, slot_size, (n - 1) as nat)
    }
}

/// The reads that fetch a payload of `len` bytes from the record that
/// starts in slot `idx`: one for each slot that holds a part of it.
pub open spec fn payload_reads(slot_size: nat, slot_count: nat, idx: nat, len: nat) -> Seq<
    FlashOp,
> {
    Seq::new(
        if len == 0 {
            0
        } else {
            slots_used(slot_size, len)
        },
        |c: int|
            FlashOp::Read {
                addr: slot_addr(slot_size, slot_count, (idx + c) as nat) + lead(c as nat),
                len: (least(len, chunk_start(slot_size, (c + 1) as nat)) - least(
                    len,
                    chunk_start(slot_size, c as nat),
                )) as nat,
            },
    )
}

/// The reads that `read` makes of the record that starts in slot `idx` for
/// a buffer of `room` bytes: the header, and the payload where it fits.
pub open spec fn record_reads(
    mem: Seq<u8>,
    slot_size: nat,
    slot_count: nat,
    idx: usize,
    room: nat,
) -> Seq<FlashOp> {
    let len = stored_header(mem, slot_size, slot_count, idx).len as nat;
    let header = seq![
        FlashOp::Read {
            addr: slot_addr(slot_size, slot_count, idx as nat),
            len: HEADER_SIZE as nat,
        },
    ];
    if len > room {
        header
    } else {
        header + payload_reads(slot_size, slot_count, idx as nat, len)
    }
}

/// The slot of a record, counted from its first, that holds payload byte `j`.
pub open spec fn chunk_of(slot_size: nat, j: nat) -> nat {
    if j < slot_size - HEADER_SIZE {
        0
    } else {
        (1 + (j - (slot_size - HEADER_SIZE)) / (slot_size - 1)) as nat
    }
}

/// The address of payload byte `j` of a record that starts in slot `idx`.
pub open spec fn payload_addr(slot_size: nat, slot_count: nat, idx: nat, j: nat) -> int {
    let c = chunk_of(slot_size, j);
    slot_addr(slot_size, slot_count, idx + c) + lead(c) + (j - chunk_start(slot_size, c))
}

/// The `len` payload bytes of a record that starts in slot `idx`, as the
/// medium holds them.
pub open spec fn stored_payload(
    mem: Seq<u8>,
    slot_size: nat,
    slot_count: nat,
    idx: nat,
    len: nat,
) -> Seq<u8> {
    Seq::new(len, |j: int| mem[payload_addr(slot_size, slot_count, idx, j as nat)])
}

/// The header that slot `idx` of the ring holds, valid or not.
pub open spec fn stored_header(mem: Seq<u8>, slot_size: nat, slot_count: nat, idx: usize) -> Slot {
    let at = slot_addr(slot_size, slot_count, idx as nat);
    Slot::parse(idx, mem.subrange(at, at + HEADER_SIZE))
}

/// The contents after the first `m + 1` of `ops` are the contents after the
/// first `m`, with the next operation applied.
pub proof fn lemma_apply_next(mem: Seq<u8>, kind: DeviceKind, ops: Seq<FlashOp>, m: int)
    requires
        0 <= m < ops.len(),
    ensures
        apply_all(mem, kind, ops.take(m + 1)) == apply(
            apply_all(mem, kind, ops.take(m)),
            kind,
            ops[m],
        ),
{
    assert(ops.take(m + 1).drop_last() =~= ops.take(m));
}

/// The payload reaches a record's `c`-th slot exactly if the record takes
/// more than `c` slots.
pub proof fn lemma_chunk_reaches(slot_size: nat, len: nat, c: nat)
    requires
        slot_size > HEADER_SIZE,
        c >= 1,
    ensures
        chunk_start(slot_size, c) < len <==> c < slots_used(slot_size, len),
{
    lemma_slots_used(slot_size, len);
    let first = (slot_size - HEADER_SIZE) as nat;
    let per = (slot_size - 1) as nat;
    let more = continuation_slots(slot_size, len);
    assert((c - 1) * per >= 0) by (nonlinear_arith)
        requires
            c >= 1,
            per >= 0,
    ;
    if len > first {
        let rest = (len - first) as nat;
        lemma_ceil_div_bounds(rest, per);
        if c <= more {
            assert((c - 1) * per <= (more - 1) * per) by (nonlinear_arith)
                requires
                    c <= more,
                    per > 0,
            ;
        } else {
            assert(more * per <= (c - 1) * per) by (nonlinear_arith)
                requires
                    more <= c - 1,
                    per > 0,
            ;
        }
    }
}

/// Where one slot's share of the payload ends the next one's starts, one
/// slot's room further on.
pub proof fn lemma_chunk_start_next(slot_size: nat, c: nat)
    requires
        slot_size > HEADER_SIZE,
    ensures
        chunk_start(slot_size, c + 1) == chunk_start(slot_size, c) + slot_size - lead(c),
{
    if c > 0 {
        assert(c * (slot_size - 1) == (c - 1) * (slot_size - 1) + (slot_size - 1))
            by (nonlinear_arith);
    } else {
        assert(0 * (slot_size - 1) == 0) by (nonlinear_arith);
    }
}

/// A payload byte between the starts of two neighbouring shares lies in the
/// first of them.
pub proof fn lemma_chunk_of(slot_size: nat, c: nat, j: nat)
    requires
        slot_size > HEADER_SIZE,
        chunk_start(slot_size, c) <= j < chunk_start(slot_size, c + 1),
    ensures
        chunk_of(slot_size, j) == c,
{
    lemma_chunk_start_next(slot_size, c);
    if c > 0 {
        let first = (slot_size - HEADER_SIZE) as nat;
        let per = (slot_size - 1) as int;
        let off = j - first;
        assert((c - 1) * per >= 0) by (nonlinear_arith)
            requires
                c >= 1,
                per >= 0,
        ;
        assert(per * (c - 1) == (c - 1) * per) by (nonlinear_arith);
        lemma_fundamental_div_mod_converse(off, per, c - 1, off - (c - 1) * per);
    }
}

/// The slot after slot `idx + c - 1` of the ring is slot `idx + c`.
pub proof fn lemma_next_in_ring(slot_count: nat, idx: nat, c: nat)
    requires
        slot_count > 0,
        c >= 1,
    ensures
        (idx + c) % slot_count == if (idx + c - 1) % (slot_count as int) + 1 == slot_count {
            0
        } else {
            (idx + c - 1) % (slot_count as int) + 1
        },
{
    let n = slot_count as int;
    let before = (idx + c - 1) % n;
    lemma_mod_bound(idx + c - 1, n);
    lemma_fundamental_div_mod(idx + c - 1, n);
    let q = (idx + c - 1) / n;
    if before + 1 == n {
        assert(n * (q + 1) == n * q + n) by (nonlinear_arith);
        lemma_fundamental_div_mod_converse((idx + c) as int, n, q + 1, 0);
    } else {
        lemma_fundamental_div_mod_converse((idx + c) as int, n, q, before + 1);
    }
}

/// Later slots take later payload bytes.
pub proof fn lemma_chunk_start_grows(slot_size: nat, a: nat, b: nat)
    requires
        slot_size > HEADER_SIZE,
        a <= b,
    ensures
        chunk_start(slot_size, a) <= chunk_start(slot_size, b),
{
    if a > 0 {
        assert((a - 1) * (slot_size - 1) <= (b - 1) * (slot_size - 1)) by (nonlinear_arith)
            requires
                1 <= a <= b,
                slot_size > 1,
        ;
    } else if b > 0 {
        assert((b - 1) * (slot_size - 1) >= 0) by (nonlinear_arith)
            requires
                1 <= b,
                slot_size > 1,
        ;
    }
}

/// Payload byte `j` lies in the share of the slot that `chunk_of` names,
/// behind that slot's lead and within the slot.
pub proof fn lemma_chunk_bounds(slot_size: nat, j: nat)
    requires
        slot_size > HEADER_SIZE,
    ensures
        chunk_start(slot_size, chunk_of(slot_size, j)) <= j < chunk_start(
            slot_size,
            chunk_of(slot_size, j) + 1,
        ),
        lead(chunk_of(slot_size, j)) + (j - chunk_start(slot_size, chunk_of(slot_size, j)))
            < slot_size,
{
    let c = chunk_of(slot_size, j);
    lemma_chunk_start_next(slot_size, c);
    if j >= slot_size - HEADER_SIZE {
        let first = (slot_size - HEADER_SIZE) as nat;
        let per = (slot_size - 1) as int;
        let off = j - first;
        lemma_fundamental_div_mod(off, per);
        lemma_mod_bound(off, per);
        assert(per * (off / per) == (off / per) * per) by (nonlinear_arith);
        assert(off / per >= 0) by (nonlinear_arith)
            requires
                off == per * (off / per) + off % per,
                0 <= off % per < per,
                off >= 0,
        ;
    }
}

/// A payload byte that comes before the share of slot `c` lies in an
/// earlier slot.
pub proof fn lemma_chunk_before(slot_size: nat, c: nat, j: nat)
    requires
        slot_size > HEADER_SIZE,
        j < chunk_start(slot_size, c),
    ensures
        chunk_of(slot_size, j) < c,
{
    lemma_chunk_bounds(slot_size, j);
    if chunk_of(slot_size, j) >= c {
        lemma_chunk_start_grows(slot_size, c, chunk_of(slot_size, j));
    }
}

/// Every byte of a payload lies in one of the slots that its record takes.
pub proof fn lemma_chunk_in_record(slot_size: nat, len: nat, j: nat)
    requires
        slot_size > HEADER_SIZE,
        j < len,
    ensures
        chunk_of(slot_size, j) < slots_used(slot_size, len),
{
    lemma_chunk_bounds(slot_size, j);
    lemma_slots_used(slot_size, len);
    if chunk_of(slot_size, j) >= 1 {
        lemma_chunk_reaches(slot_size, len, chunk_of(slot_size, j));
    }
}

/// The reads that a scan makes of the first `i` slots are the first of the
/// reads that it makes of more slots, and the reads of slot `i` follow them.
pub proof fn lemma_scan_reads_prefix(mem: Seq<u8>, slot_size: nat, i: nat, n: nat)
    requires
        i < n,
    ensures
        scan_reads(mem, slot_size, i).len() + slot_reads(mem, slot_size, i).len() <= scan_reads(
            mem,
            slot_size,
            n,
        ).len(),
        scan_reads(mem, slot_size, n).take(scan_reads(mem, slot_size, i).len() as int)
            == scan_reads(mem, slot_size, i),
        scan_reads(mem, slot_size, n).subrange(
            scan_reads(mem, slot_size, i).len() as int,
            (scan_reads(mem, slot_size, i).len() + slot_reads(mem, slot_size, i).len()) as int,
        ) == slot_reads(mem, slot_size, i),
    decreases n,
{
    let before = scan_reads(mem, slot_size, i);
    let here = slot_reads(mem, slot_size, i);
    let all = scan_reads(mem, slot_size, n);
    if n == i + 1 {
        assert(all.take(before.len() as int) =~= before);
        assert(all.subrange(before.len() as int, (before.len() + here.len()) as int) =~= here);
    } else {
        lemma_scan_reads_prefix(mem, slot_size, i, (n - 1) as nat);
        let shorter = scan_reads(mem, slot_size, (n - 1) as nat);
        assert(all.take(before.len() as int) =~= shorter.take(before.len() as int));
        assert(all.subrange(before.len() as int, (before.len() + here.len()) as int)
            =~= shorter.subrange(before.len() as int, (before.len() + here.len()) as int));
    }
}

/// Operations that are served one after the other add up.
pub proof fn lemma_log_push(log: Seq<FlashOp>, ops: Seq<FlashOp>, m: int)
    requires
        0 <= m < ops.len(),
    ensures
        (log + ops.take(m)).push(ops[m]) == log + ops.take(m + 1),
        log + ops.take(0) == log,
        log + ops.take(ops.len() as int) == log + ops,
{
    assert((log + ops.take(m)).push(ops[m]) =~= log + ops.take(m + 1));
    assert(log + ops.take(0) =~= log);
    assert(ops.take(ops.len() as int) =~= ops);
}

/// A buffer whose front holds the payload up to the share of slot `c`, and
/// into which that share is read next, then holds the payload up to the
/// share of the next slot. What lies behind the payload stays as it was.
pub proof fn lemma_part_read(
    mem: Seq<u8>,
    slot_size: nat,
    slot_count: nat,
    idx: nat,
    len: nat,
    c: nat,
    before: Seq<u8>,
    after: Seq<u8>,
)
    requires
        slot_size > HEADER_SIZE,
        chunk_start(slot_size, c) < len <= before.len(),
        0 <= slot_addr(slot_size, slot_count, idx + c),
        slot_addr(slot_size, slot_count, idx + c) + slot_size <= mem.len(),
        before.take(chunk_start(slot_size, c) as int) == stored_payload(
            mem,
            slot_size,
            slot_count,
            idx,
            len,
        ).take(chunk_start(slot_size, c) as int),
        after == before.take(chunk_start(slot_size, c) as int) + mem.subrange(
            slot_addr(slot_size, slot_count, idx + c) + lead(c),
            slot_addr(slot_size, slot_count, idx + c) + lead(c) + (least(
                len,
                chunk_start(slot_size, c + 1),
            ) - chunk_start(slot_size, c)),
        ) + before.skip(least(len, chunk_start(slot_size, c + 1)) as int),
    ensures
        after.len() == before.len(),
        after.take(least(len, chunk_start(slot_size, c + 1)) as int) == stored_payload(
            mem,
            slot_size,
            slot_count,
            idx,
            len,
        ).take(least(len, chunk_start(slot_size, c + 1)) as int),
        after.skip(len as int) == before.skip(len as int),
{
    let stored = stored_payload(mem, slot_size, slot_count, idx, len);
    let done = chunk_start(slot_size, c) as int;
    let end = least(len, chunk_start(slot_size, c + 1)) as int;
    lemma_chunk_start_next(slot_size, c);
    assert forall|j: int| 0 <= j < end implies after[j] == stored[j] by {
        if j < done {
            assert(after[j] == before.take(done)[j]);
            assert(stored[j] == stored.take(done)[j]);
        } else {
            lemma_chunk_of(slot_size, c, j as nat);
        }
    }
    assert(after.take(end) =~= stored.take(end));
    assert(after.skip(len as int) =~= before.skip(len as int));
}

} // verus!
