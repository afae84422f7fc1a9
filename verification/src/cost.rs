//! What an operation of the store costs the device: how many bytes it
//! reads and writes, and how many erases it asks for.

use crate::chksum::Chksum;
use crate::layout::{lemma_slots_used, slots_used, used_bytes, HEADER_SIZE};
use crate::lemma_header_round_trip;
use crate::model::{
    chunk_start, commit_ops, least, lemma_chunk_reaches, lemma_chunk_start_grows, payload_reads,
    record_reads, scan_reads, slot_reads, stored_header, FlashOp,
};
use crate::Slot;
use vstd::prelude::*;

verus! {

/// The bytes that `op` reads.
pub open spec fn read_cost(op: FlashOp) -> nat {
    match op {
        FlashOp::Read { len, .. } => len,
        _ => 0,
    }
}

/// The bytes that `op` writes.
pub open spec fn write_cost(op: FlashOp) -> nat {
    match op {
        FlashOp::Write { data, .. } => data.len(),
        _ => 0,
    }
}

/// One if `op` is an erase, else none.
pub open spec fn erase_cost(op: FlashOp) -> nat {
    match op {
        FlashOp::Erase { .. } => 1,
        _ => 0,
    }
}

/// The bytes that `ops` read, all in all.
pub open spec fn bytes_read(ops: Seq<FlashOp>) -> nat
    decreases ops.len(),
{
    if ops.len() == 0 {
        0
    } else {
        bytes_read(ops.drop_last()) + read_cost(ops.last())
    }
}

/// The bytes that `ops` write, all in all.
pub open spec fn bytes_written(ops: Seq<FlashOp>) -> nat
    decreases ops.len(),
{
    if ops.len() == 0 {
        0
    } else {
        bytes_written(ops.drop_last()) + write_cost(ops.last())
    }
}

/// The erases among `ops`.
pub open spec fn erase_count(ops: Seq<FlashOp>) -> nat
    decreases ops.len(),
{
    if ops.len() == 0 {
        0
    } else {
        erase_count(ops.drop_last()) + erase_cost(ops.last())
    }
}

/// The cost of operations that follow each other is the sum of their costs.
pub proof fn lemma_cost_adds(a: Seq<FlashOp>, b: Seq<FlashOp>)
    ensures
        bytes_read(a + b) == bytes_read(a) + bytes_read(b),
        bytes_written(a + b) == bytes_written(a) + bytes_written(b),
        erase_count(a + b) == erase_count(a) + erase_count(b),
    decreases b.len(),
{
    if b.len() == 0 {
        assert(a + b =~= a);
    } else {
        assert((a + b).drop_last() =~= a + b.drop_last());
        lemma_cost_adds(a, b.drop_last());
    }
}

/// The cost of one operation more.
pub proof fn lemma_cost_push(a: Seq<FlashOp>, op: FlashOp)
    ensures
        bytes_read(a.push(op)) == bytes_read(a) + read_cost(op),
        bytes_written(a.push(op)) == bytes_written(a) + write_cost(op),
        erase_count(a.push(op)) == erase_count(a) + erase_cost(op),
{
    assert(a.push(op).drop_last() =~= a);
}

/// The cost of one operation alone.
pub proof fn lemma_cost_one(op: FlashOp)
    ensures
        bytes_read(seq![op]) == read_cost(op),
        bytes_written(seq![op]) == write_cost(op),
        erase_count(seq![op]) == erase_cost(op),
{
    assert(seq![op].drop_last() =~= Seq::<FlashOp>::empty());
    assert(bytes_read(Seq::<FlashOp>::empty()) == 0);
    assert(bytes_written(Seq::<FlashOp>::empty()) == 0);
    assert(erase_count(Seq::<FlashOp>::empty()) == 0);
}

/// What the first `m` operations of a commit cost, as long as the header
/// is not among them.
proof fn lemma_commit_prefix_cost(
    slot_size: nat,
    slot_count: nat,
    idx: usize,
    prev: Chksum,
    data: Seq<u8>,
    m: int,
)
    requires
        slot_size > HEADER_SIZE,
        0 <= m <= 2 * slots_used(slot_size, data.len()),
    ensures
        bytes_read(commit_ops(slot_size, slot_count, idx, prev, data).take(m)) == 0,
        bytes_written(commit_ops(slot_size, slot_count, idx, prev, data).take(m)) == least(
            data.len(),
            chunk_start(slot_size, (m / 2) as nat),
        ),
        erase_count(commit_ops(slot_size, slot_count, idx, prev, data).take(m)) == (m + 1) / 2,
    decreases m,
{
    let ops = commit_ops(slot_size, slot_count, idx, prev, data);
    if m > 0 {
        let c = ((m - 1) / 2) as nat;
        lemma_commit_prefix_cost(slot_size, slot_count, idx, prev, data, m - 1);
        assert(ops.take(m) =~= ops.take(m - 1).push(ops[m - 1]));
        lemma_cost_push(ops.take(m - 1), ops[m - 1]);
        lemma_chunk_start_grows(slot_size, c, c + 1);
    }
}

/// What a commit costs. It reads nothing, writes the header and the
/// payload, and erases each slot that the record takes once. Counted with
/// one byte for each erase but the first, whose byte the header takes,
/// these are the bytes that the record takes.
pub proof fn lemma_commit_cost(
    slot_size: nat,
    slot_count: nat,
    idx: usize,
    prev: Chksum,
    data: Seq<u8>,
)
    requires
        slot_size > HEADER_SIZE,
    ensures
        bytes_read(commit_ops(slot_size, slot_count, idx, prev, data)) == 0,
        bytes_written(commit_ops(slot_size, slot_count, idx, prev, data)) == HEADER_SIZE
            + data.len(),
        erase_count(commit_ops(slot_size, slot_count, idx, prev, data)) == slots_used(
            slot_size,
            data.len(),
        ),
        bytes_written(commit_ops(slot_size, slot_count, idx, prev, data)) + erase_count(
            commit_ops(slot_size, slot_count, idx, prev, data),
        ) - 1 == used_bytes(slot_size, data.len()),
{
    let ops = commit_ops(slot_size, slot_count, idx, prev, data);
    let slots = slots_used(slot_size, data.len()) as int;
    lemma_slots_used(slot_size, data.len());
    lemma_commit_prefix_cost(slot_size, slot_count, idx, prev, data, 2 * slots);
    lemma_chunk_reaches(slot_size, data.len(), slots as nat);
    lemma_header_round_trip(Slot::spec_create(idx, prev, data));
    assert(ops =~= ops.take(2 * slots).push(ops[2 * slots]));
    lemma_cost_push(ops.take(2 * slots), ops[2 * slots]);
}

/// The slots among the first `n` whose first byte has its high bit clear.
pub open spec fn written_heads(mem: Seq<u8>, slot_size: nat, n: nat) -> nat
    decreases n,
{
    if n == 0 {
        0
    } else {
        written_heads(mem, slot_size, (n - 1) as nat) + if mem[(n - 1) * slot_size] < 0x80 {
            1nat
        } else {
            0nat
        }
    }
}

/// What a scan costs. It writes and erases nothing, and reads one byte of
/// each slot and eleven more of each slot whose first byte has its high
/// bit clear: of a ring without such a slot, as many bytes as it has slots.
pub proof fn lemma_scan_cost(mem: Seq<u8>, slot_size: nat, n: nat)
    ensures
        bytes_written(scan_reads(mem, slot_size, n)) == 0,
        erase_count(scan_reads(mem, slot_size, n)) == 0,
        bytes_read(scan_reads(mem, slot_size, n)) == n + (HEADER_SIZE - 1) * written_heads(
            mem,
            slot_size,
            n,
        ),
        (forall|i: int| 0 <= i < n ==> #[trigger] mem[i * slot_size] >= 0x80) ==> bytes_read(
            scan_reads(mem, slot_size, n),
        ) == n,
    decreases n,
{
    if n > 0 {
        let before = scan_reads(mem, slot_size, (n - 1) as nat);
        let here = slot_reads(mem, slot_size, (n - 1) as nat);
        lemma_scan_cost(mem, slot_size, (n - 1) as nat);
        lemma_cost_adds(before, here);
        lemma_cost_one(here[0]);
        if here.len() == 2 {
            assert(here =~= seq![here[0]].push(here[1]));
            lemma_cost_push(seq![here[0]], here[1]);
        } else {
            assert(here =~= seq![here[0]]);
        }
        if forall|i: int| 0 <= i < n ==> #[trigger] mem[i * slot_size] >= 0x80 {
            assert(mem[(n - 1) * slot_size] >= 0x80);
        }
    }
}

/// What the first `c` reads of a payload cost.
proof fn lemma_payload_reads_cost(slot_size: nat, slot_count: nat, idx: nat, len: nat, c: int)
    requires
        slot_size > HEADER_SIZE,
        0 <= c <= payload_reads(slot_size, slot_count, idx, len).len(),
    ensures
        bytes_written(payload_reads(slot_size, slot_count, idx, len).take(c)) == 0,
        erase_count(payload_reads(slot_size, slot_count, idx, len).take(c)) == 0,
        bytes_read(payload_reads(slot_size, slot_count, idx, len).take(c)) == least(
            len,
            chunk_start(slot_size, c as nat),
        ),
    decreases c,
{
    let parts = payload_reads(slot_size, slot_count, idx, len);
    if c > 0 {
        lemma_payload_reads_cost(slot_size, slot_count, idx, len, c - 1);
        assert(parts.take(c) =~= parts.take(c - 1).push(parts[c - 1]));
        lemma_cost_push(parts.take(c - 1), parts[c - 1]);
        lemma_chunk_start_grows(slot_size, (c - 1) as nat, c as nat);
    }
}

/// What a read costs. It writes and erases nothing, and reads the header
/// and, where the buffer has room for it, the payload.
pub proof fn lemma_read_cost(
    mem: Seq<u8>,
    slot_size: nat,
    slot_count: nat,
    idx: usize,
    room: nat,
)
    requires
        slot_size > HEADER_SIZE,
    ensures
        bytes_written(record_reads(mem, slot_size, slot_count, idx, room)) == 0,
        erase_count(record_reads(mem, slot_size, slot_count, idx, room)) == 0,
        bytes_read(record_reads(mem, slot_size, slot_count, idx, room)) == HEADER_SIZE
            + if stored_header(mem, slot_size, slot_count, idx).len <= room {
            stored_header(mem, slot_size, slot_count, idx).len as nat
        } else {
            0
        },
{
    let len = stored_header(mem, slot_size, slot_count, idx).len as nat;
    let ops = record_reads(mem, slot_size, slot_count, idx, room);
    let head = seq![ops[0]];
    lemma_cost_one(ops[0]);
    if len > room {
        assert(ops =~= head);
    } else {
        let parts = payload_reads(slot_size, slot_count, idx as nat, len);
        assert(ops =~= head + parts);
        lemma_cost_adds(head, parts);
        lemma_payload_reads_cost(slot_size, slot_count, idx as nat, len, parts.len() as int);
        assert(parts.take(parts.len() as int) =~= parts);
        lemma_slots_used(slot_size, len);
        if len > 0 {
            lemma_chunk_reaches(slot_size, len, parts.len());
        }
    }
}

} // verus!
