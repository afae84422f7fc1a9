//! Which bytes of the medium the commit of a record touches, and how many.

use crate::chksum::Chksum;
use crate::commit::{cell, lemma_cell, lemma_cells_apart};
use crate::layout::{
    lemma_ceil_div_bounds, lemma_slots_used, slots_used, used_bytes, HEADER_SIZE,
};
use crate::lemma_header_round_trip;
use crate::model::{
    chunk_start, commit_ops, lead, lemma_chunk_reaches, lemma_chunk_start_next, FlashOp,
};
use crate::Slot;
use vstd::arithmetic::div_mod::{
    lemma_fundamental_div_mod, lemma_fundamental_div_mod_converse, lemma_mod_bound,
};
use vstd::prelude::*;
use vstd::relations::injective_on;
use vstd::set_lib::{lemma_int_range, lemma_map_size, set_int_range};

verus! {

/// Whether `op` touches the byte at `a`: the byte that an erase names, or
/// one of the bytes that a write programs. A read touches nothing.
pub open spec fn touches(op: FlashOp, a: int) -> bool {
    match op {
        FlashOp::Read { .. } => false,
        FlashOp::Erase { addr } => a == addr,
        FlashOp::Write { addr, data } => addr <= a < addr + data.len(),
    }
}

/// The addresses that `ops` touch.
pub open spec fn touched(ops: Seq<FlashOp>) -> Set<int> {
    Set::new(|a: int| exists|i: int| 0 <= i < ops.len() && touches(#[trigger] ops[i], a))
}

/// The address of the `b`-th byte of a record that starts in slot `idx`,
/// counted through header, payload and the reserved first bytes of its
/// further slots.
pub open spec fn record_addr(slot_size: nat, slot_count: nat, idx: nat, b: int) -> int {
    cell(slot_size, slot_count, idx, b / (slot_size as int), b % (slot_size as int))
}

/// Byte `o` of a record's `c`-th slot is the record's byte `c * slot_size + o`.
proof fn lemma_record_byte(slot_size: nat, c: int, o: int)
    requires
        slot_size > 0,
        0 <= c,
        0 <= o < slot_size,
    ensures
        (c * slot_size + o) / (slot_size as int) == c,
        (c * slot_size + o) % (slot_size as int) == o,
        0 <= c * slot_size + o,
{
    assert(slot_size * c == c * slot_size) by (nonlinear_arith);
    assert(c * slot_size >= 0) by (nonlinear_arith)
        requires
            c >= 0,
            slot_size > 0,
    ;
    lemma_fundamental_div_mod_converse(c * slot_size + o, slot_size as int, c, o);
}

/// The record's byte `b` is byte `b % slot_size` of its slot `b / slot_size`.
proof fn lemma_byte_of_record(slot_size: nat, b: int, slots: int)
    requires
        slot_size > 0,
        0 <= b < slots * slot_size,
    ensures
        0 <= b / (slot_size as int) < slots,
        0 <= b % (slot_size as int) < slot_size,
        b == (b / (slot_size as int)) * slot_size + b % (slot_size as int),
{
    let s = slot_size as int;
    lemma_fundamental_div_mod(b, s);
    lemma_mod_bound(b, s);
    let q = b / s;
    assert(s * q == q * s) by (nonlinear_arith);
    assert(0 <= q < slots) by (nonlinear_arith)
        requires
            b == q * s + b % s,
            0 <= b % s < s,
            0 <= b < slots * s,
    ;
}

/// The payload bytes before a record's `c`-th slot and the bytes that
/// header and reserved bytes take before it fill the slots before it.
proof fn lemma_chunk_start_bytes(slot_size: nat, c: int)
    requires
        slot_size > HEADER_SIZE,
        c >= 1,
    ensures
        chunk_start(slot_size, c as nat) + HEADER_SIZE + (c - 1) == c * slot_size,
{
    assert((slot_size - HEADER_SIZE) + (c - 1) * (slot_size - 1) + HEADER_SIZE + (c - 1) == c
        * slot_size) by (nonlinear_arith);
}

/// What a record takes fills all its slots but the last, and of the last
/// at least one byte.
proof fn lemma_used_bounds(slot_size: nat, len: nat)
    requires
        slot_size > HEADER_SIZE,
    ensures
        (slots_used(slot_size, len) - 1) * slot_size < used_bytes(slot_size, len) <= slots_used(
            slot_size,
            len,
        ) * slot_size,
        HEADER_SIZE <= used_bytes(slot_size, len),
        used_bytes(slot_size, len) == HEADER_SIZE + len + slots_used(slot_size, len) - 1,
{
    lemma_slots_used(slot_size, len);
    lemma_ceil_div_bounds(used_bytes(slot_size, len), slot_size);
}

/// Spanning arithmetic. The commit of a payload that fits the ring touches
/// exactly the bytes that the record takes: the `used_bytes` bytes from
/// the start of the record's first slot on, around the ring. No byte is
/// counted twice, so `used_bytes` is their number.
pub proof fn lemma_commit_touches_used_bytes(
    slot_size: nat,
    slot_count: nat,
    idx: usize,
    prev: Chksum,
    data: Seq<u8>,
)
    requires
        slot_size > HEADER_SIZE,
        slot_count > 0,
        slots_used(slot_size, data.len()) <= slot_count,
    ensures
        touched(commit_ops(slot_size, slot_count, idx, prev, data)) == set_int_range(
            0,
            used_bytes(slot_size, data.len()) as int,
        ).map(|b: int| record_addr(slot_size, slot_count, idx as nat, b)),
        injective_on(
            |b: int| record_addr(slot_size, slot_count, idx as nat, b),
            set_int_range(0, used_bytes(slot_size, data.len()) as int),
        ),
        touched(commit_ops(slot_size, slot_count, idx, prev, data)).finite(),
        touched(commit_ops(slot_size, slot_count, idx, prev, data)).len() == used_bytes(
            slot_size,
            data.len(),
        ),
{
    let ops = commit_ops(slot_size, slot_count, idx, prev, data);
    let len = data.len();
    let slots = slots_used(slot_size, len) as int;
    let used = used_bytes(slot_size, len) as int;
    let header = Slot::spec_create(idx, prev, data).header_bytes();
    let place = |b: int| record_addr(slot_size, slot_count, idx as nat, b);
    let bytes = set_int_range(0, used);
    let size = slot_size as int;
    lemma_used_bounds(slot_size, len);
    lemma_header_round_trip(Slot::spec_create(idx, prev, data));
    lemma_chunk_start_next(slot_size, 0);

    assert forall|b1: int, b2: int|
        bytes.contains(b1) && bytes.contains(b2) && #[trigger] place(b1) == #[trigger] place(
            b2,
        ) implies b1 == b2 by {
        lemma_byte_of_record(slot_size, b1, slots);
        lemma_byte_of_record(slot_size, b2, slots);
        lemma_cell(slot_size, slot_count, idx as nat, b1 / size, b1 % size);
        lemma_cell(slot_size, slot_count, idx as nat, b2 / size, b2 % size);
        if b1 / size != b2 / size {
            lemma_cells_apart(slot_size, slot_count, idx as nat, b1 / size, b2 / size);
        }
    }

    assert forall|a: int| bytes.map(place).contains(a) implies touched(ops).contains(a) by {
        let b = choose|b: int| bytes.contains(b) && a == place(b);
        lemma_byte_of_record(slot_size, b, slots);
        let c = b / size;
        let o = b % size;
        lemma_cell(slot_size, slot_count, idx as nat, c, o);
        lemma_chunk_start_next(slot_size, c as nat);
        if c == 0 && o < HEADER_SIZE {
            assert(touches(ops[2 * slots], a));
        } else if o < lead(c as nat) {
            assert(touches(ops[2 * c], a));
        } else {
            if c >= 1 {
                lemma_chunk_start_bytes(slot_size, c);
                lemma_chunk_reaches(slot_size, len, c as nat);
                lemma_chunk_reaches(slot_size, len, (c + 1) as nat);
            }
            lemma_cell(slot_size, slot_count, idx as nat, c, lead(c as nat) as int);
            assert(touches(ops[2 * c + 1], a));
        }
    }

    assert forall|a: int| touched(ops).contains(a) implies bytes.map(place).contains(a) by {
        let i = choose|i: int| 0 <= i < ops.len() && touches(#[trigger] ops[i], a);
        let c = i / 2;
        lemma_chunk_start_next(slot_size, c as nat);
        if c >= 1 && c < slots {
            lemma_chunk_start_bytes(slot_size, c);
            lemma_chunk_reaches(slot_size, len, c as nat);
        }
        let o = if i == 2 * slots {
            a - cell(slot_size, slot_count, idx as nat, 0, 0)
        } else {
            a - cell(slot_size, slot_count, idx as nat, c, 0)
        };
        let slot = if i == 2 * slots {
            0
        } else {
            c
        };
        assert(0 <= o < size);
        lemma_record_byte(slot_size, slot, o);
        let b = slot * size + o;
        lemma_cell(slot_size, slot_count, idx as nat, slot, o);
        assert(slot * size <= c * size) by (nonlinear_arith)
            requires
                0 <= slot <= c,
                size > 0,
        ;
        assert(bytes.contains(b));
        assert(a == place(b));
    }
    assert(touched(ops) =~= bytes.map(place));
    lemma_int_range(0, used);
    lemma_map_size(bytes, touched(ops), place);
}

} // verus!
