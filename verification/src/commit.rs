//! What the commit of a record does to the medium, operation by operation:
//! which bytes it leaves alone, which slots it takes out of a scan's sight
//! while it runs, and what stands on the medium once the header is written.

use crate::layout::{slots_used, HEADER_SIZE};
use crate::model::{
    apply_all, candidates, chunk, chunk_of, chunk_start, commit_ops, erase_start, erased, lead,
    least, lemma_apply_next, lemma_chunk_before, lemma_chunk_bounds, lemma_chunk_in_record,
    lemma_chunk_of, lemma_chunk_reaches, lemma_chunk_start_next, payload_addr, programmed,
    slot_addr, DeviceKind, FlashOp,
};
use crate::Slot;
use vstd::arithmetic::div_mod::{
    lemma_fundamental_div_mod, lemma_fundamental_div_mod_converse, lemma_mod_bound,
    lemma_mod_multiples_basic,
};
use vstd::prelude::*;

verus! {

/// Whether a device of this kind can hold a ring of slots of `slot_size`
/// bytes: an erase at the start of a slot stays within the slot, and where
/// the device can only clear bits it erases the whole slot.
pub open spec fn suits(kind: DeviceKind, slot_size: nat) -> bool {
    &&& kind.erase_size > 0
    &&& slot_size % kind.erase_size == 0
    &&& kind.clears_only ==> kind.erase_size == slot_size
}

/// The address of byte `o` of the slot that lies `q` slots behind slot `idx`.
pub open spec fn cell(slot_size: nat, slot_count: nat, idx: nat, q: int, o: int) -> int {
    slot_addr(slot_size, slot_count, (idx + q) as nat) + o
}

/// A byte of a slot of the ring lies on the device, within its slot.
pub proof fn lemma_cell(slot_size: nat, slot_count: nat, idx: nat, q: int, o: int)
    requires
        slot_size > 0,
        slot_count > 0,
        0 <= q,
        0 <= o < slot_size,
    ensures
        cell(slot_size, slot_count, idx, q, o) == cell(slot_size, slot_count, idx, q, 0) + o,
        0 <= cell(slot_size, slot_count, idx, q, 0),
        cell(slot_size, slot_count, idx, q, 0) + slot_size <= slot_size * slot_count,
{
    let s = (idx + q) % (slot_count as int);
    lemma_mod_bound(idx + q, slot_count as int);
    assert(0 <= s * slot_size && s * slot_size + slot_size <= slot_size * slot_count)
        by (nonlinear_arith)
        requires
            0 <= s < slot_count,
            slot_size > 0,
    ;
}

/// Different slots among one round of the ring do not overlap.
pub proof fn lemma_cells_apart(slot_size: nat, slot_count: nat, idx: nat, q1: int, q2: int)
    requires
        slot_size > 0,
        slot_count > 0,
        0 <= q1 < slot_count,
        0 <= q2 < slot_count,
        q1 != q2,
    ensures
        cell(slot_size, slot_count, idx, q1, 0) + slot_size <= cell(
            slot_size,
            slot_count,
            idx,
            q2,
            0,
        ) || cell(slot_size, slot_count, idx, q2, 0) + slot_size <= cell(
            slot_size,
            slot_count,
            idx,
            q1,
            0,
        ),
{
    let n = slot_count as int;
    let a = idx + q1;
    let b = idx + q2;
    let s1 = a % n;
    let s2 = b % n;
    lemma_mod_bound(a, n);
    lemma_mod_bound(b, n);
    lemma_fundamental_div_mod(a, n);
    lemma_fundamental_div_mod(b, n);
    if s1 == s2 {
        let d = b / n - a / n;
        assert(b - a == n * d) by (nonlinear_arith)
            requires
                a == n * (a / n) + s1,
                b == n * (b / n) + s1,
                d == b / n - a / n,
        ;
        assert(false) by (nonlinear_arith)
            requires
                b - a == n * d,
                -n < b - a < n,
                b - a != 0,
                n > 0,
        ;
    }
    if s1 < s2 {
        assert(s1 * slot_size + slot_size <= s2 * slot_size) by (nonlinear_arith)
            requires
                s1 < s2,
                slot_size > 0,
        ;
    } else {
        assert(s2 * slot_size + slot_size <= s1 * slot_size) by (nonlinear_arith)
            requires
                s2 < s1,
                slot_size > 0,
        ;
    }
}

/// An erase at the start of a slot, on a device that suits the ring, erases
/// the slot's first byte, stays within the slot, and erases all of it where
/// the device can only clear bits.
pub proof fn lemma_erase_in_slot(mem: Seq<u8>, kind: DeviceKind, slot_size: nat, start: int)
    requires
        suits(kind, slot_size),
        slot_size > 0,
        0 <= start,
        start + slot_size <= mem.len(),
        start % (slot_size as int) == 0,
    ensures
        erase_start(kind.erase_size, start) == start,
        kind.erase_size <= slot_size,
        erased(mem, kind.erase_size, start).len() == mem.len(),
        erased(mem, kind.erase_size, start)[start] == 0xFFu8,
        forall|b: int|
            0 <= b < mem.len() && !(start <= b < start + slot_size) ==> #[trigger] erased(
                mem,
                kind.erase_size,
                start,
            )[b] == mem[b],
        forall|b: int|
            0 <= b < mem.len() ==> #[trigger] erased(mem, kind.erase_size, start)[b] == mem[b]
                || erased(mem, kind.erase_size, start)[b] == 0xFFu8,
        kind.clears_only ==> forall|b: int|
            start <= b < start + slot_size ==> #[trigger] erased(mem, kind.erase_size, start)[b]
                == 0xFFu8,
{
    let g = kind.erase_size as int;
    let s = slot_size as int;
    lemma_fundamental_div_mod(s, g);
    lemma_fundamental_div_mod(start, s);
    let r = s / g;
    let w = start / s;
    assert(start == (w * r) * g) by (nonlinear_arith)
        requires
            start == s * w,
            s == g * r,
    ;
    lemma_mod_multiples_basic(w * r, g);
    assert(g <= s) by (nonlinear_arith)
        requires
            s == g * r,
            s > 0,
            g > 0,
    ;
    assert(erase_start(kind.erase_size, start) == start);
}

/// A slot of the ring starts at a multiple of the slot size.
pub proof fn lemma_cell_aligned(slot_size: nat, slot_count: nat, idx: nat, q: int)
    requires
        slot_size > 0,
        slot_count > 0,
        0 <= q,
    ensures
        cell(slot_size, slot_count, idx, q, 0) % (slot_size as int) == 0,
{
    let s = (idx + q) % (slot_count as int);
    lemma_mod_multiples_basic(s, slot_size as int);
}

/// Programming an erased byte stores the byte that is given.
pub proof fn lemma_program_erased(v: u8)
    ensures
        0xFFu8 & v == v,
{
    assert(0xFFu8 & v == v) by (bit_vector);
}

/// The address of payload byte `j` of a record that starts in slot `idx`.
pub open spec fn payload_cell(slot_size: nat, slot_count: nat, idx: nat, j: int) -> int {
    payload_addr(slot_size, slot_count, idx, j as nat)
}

/// What holds of the medium after the first `m` operations of a commit,
/// as long as the header is not written: the slots that were not reached
/// hold what they held, every slot that was reached starts with an erased
/// byte, and the payload bytes written so far stand where they belong.
/// Where the device can only clear bits, what is still to be written is
/// erased.
pub open spec fn in_progress(
    mem: Seq<u8>,
    now: Seq<u8>,
    clears_only: bool,
    slot_size: nat,
    slot_count: nat,
    idx: nat,
    data: Seq<u8>,
    m: int,
) -> bool {
    let reached = (m + 1) / 2;
    let written = least(data.len(), chunk_start(slot_size, (m / 2) as nat));
    &&& now.len() == mem.len()
    &&& forall|q: int, o: int|
        reached <= q < slot_count && 0 <= o < slot_size ==> now[#[trigger] cell(
            slot_size,
            slot_count,
            idx,
            q,
            o,
        )] == mem[cell(slot_size, slot_count, idx, q, o)]
    &&& forall|q: int|
        0 <= q < reached ==> now[#[trigger] cell(slot_size, slot_count, idx, q, 0)] == 0xFFu8
    &&& forall|j: int|
        0 <= j < written ==> now[#[trigger] payload_cell(slot_size, slot_count, idx, j)]
            == data[j]
    &&& clears_only && m >= 1 ==> forall|o: int|
        0 <= o < HEADER_SIZE ==> now[#[trigger] cell(slot_size, slot_count, idx, 0, o)] == 0xFFu8
    &&& clears_only && m % 2 == 1 ==> forall|o: int|
        0 <= o < slot_size ==> now[#[trigger] cell(slot_size, slot_count, idx, m / 2, o)]
            == 0xFFu8
}

/// Where payload byte `j` of a record lies: in the slot of its share, at
/// or behind that slot's lead.
pub proof fn lemma_payload_cell(slot_size: nat, slot_count: nat, idx: nat, j: int)
    requires
        slot_size > HEADER_SIZE,
        slot_count > 0,
        0 <= j,
    ensures
        payload_cell(slot_size, slot_count, idx, j) == cell(
            slot_size,
            slot_count,
            idx,
            chunk_of(slot_size, j as nat) as int,
            lead(chunk_of(slot_size, j as nat)) + (j - chunk_start(
                slot_size,
                chunk_of(slot_size, j as nat),
            )),
        ),
        lead(chunk_of(slot_size, j as nat)) <= lead(chunk_of(slot_size, j as nat)) + (j
            - chunk_start(slot_size, chunk_of(slot_size, j as nat))) < slot_size,
{
    lemma_chunk_bounds(slot_size, j as nat);
}

/// The erase of a record's next slot keeps the commit in progress.
pub proof fn lemma_commit_erase(
    mem: Seq<u8>,
    now: Seq<u8>,
    kind: DeviceKind,
    slot_size: nat,
    slot_count: nat,
    idx: nat,
    data: Seq<u8>,
    c: int,
)
    requires
        slot_size > HEADER_SIZE,
        slot_count > 0,
        suits(kind, slot_size),
        slot_size * slot_count <= mem.len(),
        0 <= c < slot_count,
        in_progress(mem, now, kind.clears_only, slot_size, slot_count, idx, data, 2 * c),
    ensures
        in_progress(
            mem,
            erased(now, kind.erase_size, cell(slot_size, slot_count, idx, c, 0)),
            kind.clears_only,
            slot_size,
            slot_count,
            idx,
            data,
            2 * c + 1,
        ),
{
    let start = cell(slot_size, slot_count, idx, c, 0);
    let next = erased(now, kind.erase_size, start);
    let written = least(data.len(), chunk_start(slot_size, c as nat));
    lemma_cell(slot_size, slot_count, idx, c, 0);
    lemma_cell_aligned(slot_size, slot_count, idx, c);
    lemma_erase_in_slot(now, kind, slot_size, start);
    assert forall|q: int, o: int|
        c + 1 <= q < slot_count && 0 <= o < slot_size implies next[#[trigger] cell(
        slot_size,
        slot_count,
        idx,
        q,
        o,
    )] == mem[cell(slot_size, slot_count, idx, q, o)] by {
        lemma_cell(slot_size, slot_count, idx, q, o);
        lemma_cells_apart(slot_size, slot_count, idx, q, c);
    }
    assert forall|q: int| 0 <= q < c + 1 implies next[#[trigger] cell(
        slot_size,
        slot_count,
        idx,
        q,
        0,
    )] == 0xFFu8 by {
        lemma_cell(slot_size, slot_count, idx, q, 0);
    }
    assert forall|j: int| 0 <= j < written implies next[#[trigger] payload_cell(
        slot_size,
        slot_count,
        idx,
        j,
    )] == data[j] by {
        lemma_payload_cell(slot_size, slot_count, idx, j);
        lemma_chunk_before(slot_size, c as nat, j as nat);
        let cj = chunk_of(slot_size, j as nat) as int;
        let oj = lead(cj as nat) + (j - chunk_start(slot_size, cj as nat));
        lemma_cell(slot_size, slot_count, idx, cj, oj);
        lemma_cells_apart(slot_size, slot_count, idx, cj, c);
    }
    if kind.clears_only {
        assert forall|o: int| 0 <= o < HEADER_SIZE implies next[#[trigger] cell(
            slot_size,
            slot_count,
            idx,
            0,
            o,
        )] == 0xFFu8 by {
            lemma_cell(slot_size, slot_count, idx, 0, o);
            if c > 0 {
                lemma_cells_apart(slot_size, slot_count, idx, 0, c);
            }
        }
        assert forall|o: int| 0 <= o < slot_size implies next[#[trigger] cell(
            slot_size,
            slot_count,
            idx,
            c,
            o,
        )] == 0xFFu8 by {
            lemma_cell(slot_size, slot_count, idx, c, o);
        }
    }
}

/// The write of a slot's share of the payload keeps the commit in progress.
pub proof fn lemma_commit_fill(
    mem: Seq<u8>,
    now: Seq<u8>,
    kind: DeviceKind,
    slot_size: nat,
    slot_count: nat,
    idx: nat,
    data: Seq<u8>,
    c: int,
)
    requires
        slot_size > HEADER_SIZE,
        slot_count > 0,
        suits(kind, slot_size),
        slot_size * slot_count <= mem.len(),
        0 <= c < slot_count,
        in_progress(mem, now, kind.clears_only, slot_size, slot_count, idx, data, 2 * c + 1),
    ensures
        in_progress(
            mem,
            programmed(
                now,
                kind.clears_only,
                cell(slot_size, slot_count, idx, c, lead(c as nat) as int),
                chunk(slot_size, data, c as nat),
            ),
            kind.clears_only,
            slot_size,
            slot_count,
            idx,
            data,
            2 * c + 2,
        ),
{
    let at = cell(slot_size, slot_count, idx, c, lead(c as nat) as int);
    let part = chunk(slot_size, data, c as nat);
    let next = programmed(now, kind.clears_only, at, part);
    let before = least(data.len(), chunk_start(slot_size, c as nat));
    let after = least(data.len(), chunk_start(slot_size, (c + 1) as nat));
    lemma_chunk_start_next(slot_size, c as nat);
    lemma_cell(slot_size, slot_count, idx, c, lead(c as nat) as int);
    assert(part.len() == after - before);
    assert(lead(c as nat) + part.len() <= slot_size);
    assert forall|q: int, o: int|
        c + 1 <= q < slot_count && 0 <= o < slot_size implies next[#[trigger] cell(
        slot_size,
        slot_count,
        idx,
        q,
        o,
    )] == mem[cell(slot_size, slot_count, idx, q, o)] by {
        lemma_cell(slot_size, slot_count, idx, q, o);
        lemma_cells_apart(slot_size, slot_count, idx, q, c);
    }
    assert forall|q: int| 0 <= q < c + 1 implies next[#[trigger] cell(
        slot_size,
        slot_count,
        idx,
        q,
        0,
    )] == 0xFFu8 by {
        lemma_cell(slot_size, slot_count, idx, q, 0);
        if q != c {
            lemma_cells_apart(slot_size, slot_count, idx, q, c);
        }
    }
    assert forall|j: int| 0 <= j < after implies next[#[trigger] payload_cell(
        slot_size,
        slot_count,
        idx,
        j,
    )] == data[j] by {
        lemma_payload_cell(slot_size, slot_count, idx, j);
        let cj = chunk_of(slot_size, j as nat) as int;
        let oj = lead(cj as nat) + (j - chunk_start(slot_size, cj as nat));
        lemma_cell(slot_size, slot_count, idx, cj, oj);
        if j < before {
            lemma_chunk_before(slot_size, c as nat, j as nat);
            lemma_cells_apart(slot_size, slot_count, idx, cj, c);
        } else {
            lemma_chunk_of(slot_size, c as nat, j as nat);
            assert(payload_cell(slot_size, slot_count, idx, j) == at + (j - before));
            assert(part[j - before] == data[j]);
            if kind.clears_only {
                lemma_cell(slot_size, slot_count, idx, c, oj);
                assert(now[cell(slot_size, slot_count, idx, c, oj)] == 0xFFu8);
                lemma_program_erased(data[j]);
            }
        }
    }
    if kind.clears_only {
        assert forall|o: int| 0 <= o < HEADER_SIZE implies next[#[trigger] cell(
            slot_size,
            slot_count,
            idx,
            0,
            o,
        )] == 0xFFu8 by {
            lemma_cell(slot_size, slot_count, idx, 0, o);
            if c > 0 {
                lemma_cells_apart(slot_size, slot_count, idx, 0, c);
            }
        }
    }
}

/// What holds of the medium once a record that takes `slots` slots is
/// committed: the slots behind the record hold what they held, each of the
/// record's further slots starts with an erased byte, and header and
/// payload stand where they belong.
pub open spec fn landed(
    mem: Seq<u8>,
    now: Seq<u8>,
    slot_size: nat,
    slot_count: nat,
    idx: nat,
    header: Seq<u8>,
    data: Seq<u8>,
    slots: int,
) -> bool {
    &&& now.len() == mem.len()
    &&& forall|q: int, o: int|
        slots <= q < slot_count && 0 <= o < slot_size ==> now[#[trigger] cell(
            slot_size,
            slot_count,
            idx,
            q,
            o,
        )] == mem[cell(slot_size, slot_count, idx, q, o)]
    &&& forall|q: int|
        1 <= q < slots ==> now[#[trigger] cell(slot_size, slot_count, idx, q, 0)] == 0xFFu8
    &&& forall|j: int|
        0 <= j < data.len() ==> now[#[trigger] payload_cell(slot_size, slot_count, idx, j)]
            == data[j]
    &&& forall|o: int|
        0 <= o < HEADER_SIZE ==> now[#[trigger] cell(slot_size, slot_count, idx, 0, o)]
            == header[o]
}

/// The write of the header completes a commit that was in progress.
pub proof fn lemma_commit_header(
    mem: Seq<u8>,
    now: Seq<u8>,
    kind: DeviceKind,
    slot_size: nat,
    slot_count: nat,
    idx: nat,
    header: Seq<u8>,
    data: Seq<u8>,
)
    requires
        slot_size > HEADER_SIZE,
        slot_count > 0,
        suits(kind, slot_size),
        slot_size * slot_count <= mem.len(),
        header.len() == HEADER_SIZE,
        slots_used(slot_size, data.len()) <= slot_count,
        in_progress(
            mem,
            now,
            kind.clears_only,
            slot_size,
            slot_count,
            idx,
            data,
            2 * (slots_used(slot_size, data.len()) as int),
        ),
    ensures
        landed(
            mem,
            programmed(now, kind.clears_only, cell(slot_size, slot_count, idx, 0, 0), header),
            slot_size,
            slot_count,
            idx,
            header,
            data,
            slots_used(slot_size, data.len()) as int,
        ),
{
    let slots = slots_used(slot_size, data.len()) as int;
    let at = cell(slot_size, slot_count, idx, 0, 0);
    let next = programmed(now, kind.clears_only, at, header);
    crate::layout::lemma_slots_used(slot_size, data.len());
    lemma_chunk_reaches(slot_size, data.len(), slots as nat);
    lemma_cell(slot_size, slot_count, idx, 0, 0);
    assert forall|q: int, o: int|
        slots <= q < slot_count && 0 <= o < slot_size implies next[#[trigger] cell(
        slot_size,
        slot_count,
        idx,
        q,
        o,
    )] == mem[cell(slot_size, slot_count, idx, q, o)] by {
        lemma_cell(slot_size, slot_count, idx, q, o);
        lemma_cells_apart(slot_size, slot_count, idx, q, 0);
    }
    assert forall|q: int| 1 <= q < slots implies next[#[trigger] cell(
        slot_size,
        slot_count,
        idx,
        q,
        0,
    )] == 0xFFu8 by {
        lemma_cell(slot_size, slot_count, idx, q, 0);
        lemma_cells_apart(slot_size, slot_count, idx, q, 0);
    }
    assert forall|j: int| 0 <= j < data.len() implies next[#[trigger] payload_cell(
        slot_size,
        slot_count,
        idx,
        j,
    )] == data[j] by {
        lemma_payload_cell(slot_size, slot_count, idx, j);
        lemma_chunk_in_record(slot_size, data.len(), j as nat);
        let cj = chunk_of(slot_size, j as nat) as int;
        let oj = lead(cj as nat) + (j - chunk_start(slot_size, cj as nat));
        lemma_cell(slot_size, slot_count, idx, cj, oj);
        if cj != 0 {
            lemma_cells_apart(slot_size, slot_count, idx, cj, 0);
        }
    }
    assert forall|o: int| 0 <= o < HEADER_SIZE implies next[#[trigger] cell(
        slot_size,
        slot_count,
        idx,
        0,
        o,
    )] == header[o] by {
        lemma_cell(slot_size, slot_count, idx, 0, o);
        if kind.clears_only {
            assert(now[cell(slot_size, slot_count, idx, 0, o)] == 0xFFu8);
            lemma_program_erased(header[o]);
        }
    }
}

/// After the first `m` operations of a commit, as long as the header is
/// not among them, the commit is in progress.
pub proof fn lemma_commit_prefix(
    mem: Seq<u8>,
    kind: DeviceKind,
    slot_size: nat,
    slot_count: nat,
    idx: usize,
    prev: crate::chksum::Chksum,
    data: Seq<u8>,
    m: int,
)
    requires
        slot_size > HEADER_SIZE,
        slot_count > 0,
        suits(kind, slot_size),
        slot_size * slot_count <= mem.len(),
        slots_used(slot_size, data.len()) <= slot_count,
        0 <= m <= 2 * slots_used(slot_size, data.len()),
    ensures
        in_progress(
            mem,
            apply_all(mem, kind, commit_ops(slot_size, slot_count, idx, prev, data).take(m)),
            kind.clears_only,
            slot_size,
            slot_count,
            idx as nat,
            data,
            m,
        ),
    decreases m,
{
    let ops = commit_ops(slot_size, slot_count, idx, prev, data);
    if m == 0 {
        assert(ops.take(0) =~= Seq::<FlashOp>::empty());
    } else {
        let c = (m - 1) / 2;
        let now = apply_all(mem, kind, ops.take(m - 1));
        lemma_commit_prefix(mem, kind, slot_size, slot_count, idx, prev, data, m - 1);
        lemma_apply_next(mem, kind, ops, m - 1);
        if (m - 1) % 2 == 0 {
            lemma_commit_erase(mem, now, kind, slot_size, slot_count, idx as nat, data, c);
        } else {
            lemma_commit_fill(mem, now, kind, slot_size, slot_count, idx as nat, data, c);
        }
    }
}

/// Once all operations of a commit are done, the record has landed.
pub proof fn lemma_commit_done(
    mem: Seq<u8>,
    kind: DeviceKind,
    slot_size: nat,
    slot_count: nat,
    idx: usize,
    prev: crate::chksum::Chksum,
    data: Seq<u8>,
)
    requires
        slot_size > HEADER_SIZE,
        slot_count > 0,
        suits(kind, slot_size),
        slot_size * slot_count <= mem.len(),
        slots_used(slot_size, data.len()) <= slot_count,
    ensures
        landed(
            mem,
            apply_all(mem, kind, commit_ops(slot_size, slot_count, idx, prev, data)),
            slot_size,
            slot_count,
            idx as nat,
            Slot::spec_create(idx, prev, data).header_bytes(),
            data,
            slots_used(slot_size, data.len()) as int,
        ),
{
    let ops = commit_ops(slot_size, slot_count, idx, prev, data);
    let slots = slots_used(slot_size, data.len()) as int;
    let header = Slot::spec_create(idx, prev, data).header_bytes();
    let now = apply_all(mem, kind, ops.take(2 * slots));
    lemma_commit_prefix(mem, kind, slot_size, slot_count, idx, prev, data, 2 * slots);
    lemma_apply_next(mem, kind, ops, 2 * slots);
    assert(ops.take(2 * slots + 1) =~= ops);
    crate::lemma_header_round_trip(Slot::spec_create(idx, prev, data));
    lemma_commit_header(mem, now, kind, slot_size, slot_count, idx as nat, header, data);
}

/// How many slots behind slot `x` slot `i` lies, around the ring.
pub open spec fn rank(x: int, n: int, i: int) -> int {
    if i >= x {
        i - x
    } else {
        i + n - x
    }
}

/// Slot `i` is the slot that lies `rank` slots behind slot `x`, and it is
/// among the first `k` slots from slot `x` on exactly if its rank is below `k`.
pub proof fn lemma_rank(slot_size: nat, slot_count: nat, x: nat, i: int, k: int)
    requires
        slot_size > 0,
        slot_count > 0,
        x < slot_count,
        0 <= i < slot_count,
    ensures
        0 <= rank(x as int, slot_count as int, i) < slot_count,
        cell(slot_size, slot_count, x, rank(x as int, slot_count as int, i), 0) == i * slot_size,
        crate::ring::covered(x as int, k, slot_count as int, i) <==> rank(
            x as int,
            slot_count as int,
            i,
        ) < k,
{
    let n = slot_count as int;
    let q = rank(x as int, n, i);
    if i >= x {
        lemma_fundamental_div_mod_converse(x + q, n, 0, i);
    } else {
        assert(n * 1 + i == x + q) by (nonlinear_arith)
            requires
                q == i + n - x,
        ;
        lemma_fundamental_div_mod_converse(x + q, n, 1, i);
    }
}

/// While a commit is in progress a scan sees the ring as it was, but for
/// the slots that the commit has reached: in those it sees no header.
pub proof fn lemma_candidates_in_progress(
    mem: Seq<u8>,
    now: Seq<u8>,
    clears_only: bool,
    slot_size: nat,
    slot_count: nat,
    x: nat,
    data: Seq<u8>,
    m: int,
)
    requires
        slot_size > HEADER_SIZE,
        slot_count > 0,
        x < slot_count,
        slot_size * slot_count <= mem.len(),
        0 <= m,
        in_progress(mem, now, clears_only, slot_size, slot_count, x, data, m),
    ensures
        candidates(now, slot_size, slot_count) == crate::ring::staged(
            candidates(mem, slot_size, slot_count),
            x as int,
            (m + 1) / 2,
        ),
{
    let reached = (m + 1) / 2;
    let before = candidates(mem, slot_size, slot_count);
    let after = candidates(now, slot_size, slot_count);
    let expected = crate::ring::staged(before, x as int, reached);
    assert forall|i: int| 0 <= i < slot_count implies after[i] == expected[i] by {
        lemma_rank(slot_size, slot_count, x, i, reached);
        let q = rank(x as int, slot_count as int, i);
        let at = i * slot_size;
        lemma_cell(slot_size, slot_count, x, q, 0);
        if q < reached {
            let head = now.subrange(at, at + HEADER_SIZE);
            assert(now[cell(slot_size, slot_count, x, q, 0)] == 0xFFu8);
            assert(head[0] == now[at]);
            crate::storage::lemma_high_bit_invalid(head);
        } else {
            let head = now.subrange(at, at + HEADER_SIZE);
            let old_head = mem.subrange(at, at + HEADER_SIZE);
            assert forall|o: int| 0 <= o < HEADER_SIZE implies #[trigger] head[o]
                == old_head[o] by {
                lemma_cell(slot_size, slot_count, x, q, o);
                assert(now[cell(slot_size, slot_count, x, q, o)] == mem[cell(
                    slot_size,
                    slot_count,
                    x,
                    q,
                    o,
                )]);
            }
            assert(head =~= old_head);
        }
    }
    assert(after =~= expected);
}

/// Once a record has landed a scan sees its header in its first slot, no
/// header in its further slots, and the rest of the ring as it was.
pub proof fn lemma_candidates_landed(
    mem: Seq<u8>,
    now: Seq<u8>,
    slot_size: nat,
    slot_count: nat,
    header: Slot,
    data: Seq<u8>,
    slots: int,
)
    requires
        slot_size > HEADER_SIZE,
        slot_count > 0,
        header.idx < slot_count,
        header.spec_is_valid(),
        slot_size * slot_count <= mem.len(),
        1 <= slots <= slot_count,
        landed(
            mem,
            now,
            slot_size,
            slot_count,
            header.idx as nat,
            header.header_bytes(),
            data,
            slots,
        ),
    ensures
        candidates(now, slot_size, slot_count) == crate::ring::committed(
            candidates(mem, slot_size, slot_count),
            header.idx as int,
            slots,
            header,
        ),
{
    let x = header.idx as nat;
    let before = candidates(mem, slot_size, slot_count);
    let after = candidates(now, slot_size, slot_count);
    let expected = crate::ring::committed(before, x as int, slots, header);
    crate::lemma_header_round_trip(header);
    assert forall|i: int| 0 <= i < slot_count implies after[i] == expected[i] by {
        lemma_rank(slot_size, slot_count, x, i, slots);
        let q = rank(x as int, slot_count as int, i);
        let at = i * slot_size;
        lemma_cell(slot_size, slot_count, x, q, 0);
        if q == 0 {
            let head = now.subrange(at, at + HEADER_SIZE);
            assert forall|o: int| 0 <= o < HEADER_SIZE implies #[trigger] head[o]
                == header.header_bytes()[o] by {
                lemma_cell(slot_size, slot_count, x, 0, o);
                assert(now[cell(slot_size, slot_count, x, 0, o)] == header.header_bytes()[o]);
            }
            assert(head =~= header.header_bytes());
        } else if q < slots {
            let head = now.subrange(at, at + HEADER_SIZE);
            assert(now[cell(slot_size, slot_count, x, q, 0)] == 0xFFu8);
            assert(head[0] == now[at]);
            crate::storage::lemma_high_bit_invalid(head);
        } else {
            let head = now.subrange(at, at + HEADER_SIZE);
            let old_head = mem.subrange(at, at + HEADER_SIZE);
            assert forall|o: int| 0 <= o < HEADER_SIZE implies #[trigger] head[o]
                == old_head[o] by {
                lemma_cell(slot_size, slot_count, x, q, o);
                assert(now[cell(slot_size, slot_count, x, q, o)] == mem[cell(
                    slot_size,
                    slot_count,
                    x,
                    q,
                    o,
                )]);
            }
            assert(head =~= old_head);
        }
    }
    assert(after =~= expected);
}

} // verus!
