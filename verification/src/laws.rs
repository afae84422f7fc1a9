//! What holds of the store whatever it is asked to do: the laws that relate
//! its operations to each other.

use crate::chksum::Chksum;
use crate::commit::{
    cell, lemma_candidates_in_progress, lemma_candidates_landed, lemma_cell, lemma_cell_aligned,
    lemma_cells_apart, lemma_commit_done, lemma_commit_prefix, lemma_erase_in_slot, lemma_rank,
    payload_cell, rank, suits,
};
use crate::layout::{
    lemma_fits_iff_max_payload, lemma_slots_used, max_payload, slots_used, HEADER_SIZE,
};
use crate::lemma_header_round_trip;
use crate::model::{
    apply_all, bulk_erased, candidate, candidates, commit_ops, erase_start, erased,
    erased_at_least, in_reach, lemma_chunk_start_next, scan_from, scan_result, slot_addr,
    stored_header, stored_payload, torn, DeviceKind,
};
use crate::ring::{
    chained, committed, lemma_blank, lemma_commit_keeps_chain, lemma_staged_keeps_tip, ring_next,
    ring_order, ring_tip, unclaimed,
};
use crate::storage::{lemma_high_bit_invalid, lemma_small_index, StoreState};
use crate::Slot;
use vstd::arithmetic::div_mod::{lemma_fundamental_div_mod_converse, lemma_mod_bound};
use vstd::prelude::*;

verus! {

/// A scan that sees no header holds what it held before.
pub proof fn lemma_scan_nothing(current: Option<Slot>, seen: Seq<Option<Slot>>)
    requires
        forall|i: int| 0 <= i < seen.len() ==> seen[i] is None,
    ensures
        scan_from(current, seen) == current,
    decreases seen.len(),
{
    if seen.len() > 0 {
        lemma_scan_nothing(current, seen.drop_last());
    }
}

/// An erase leaves the byte it names erased, and gives no byte another
/// value than the erased one.
pub proof fn lemma_erased(mem: Seq<u8>, erase_size: nat, addr: int)
    requires
        erase_size > 0,
        0 <= addr < mem.len(),
    ensures
        erased(mem, erase_size, addr).len() == mem.len(),
        erased(mem, erase_size, addr)[addr] == 0xFFu8,
        erased_at_least(erased(mem, erase_size, addr), mem),
{
    lemma_mod_bound(addr, erase_size as int);
}

/// After a bulk erase of `count` slots the first byte of each of them is
/// erased.
pub proof fn lemma_bulk_erased(mem: Seq<u8>, erase_size: nat, slot_size: nat, count: nat)
    requires
        erase_size > 0,
        slot_size > 0,
        count * slot_size <= mem.len(),
    ensures
        bulk_erased(mem, erase_size, slot_size, count).len() == mem.len(),
        erased_at_least(bulk_erased(mem, erase_size, slot_size, count), mem),
        forall|i: int|
            0 <= i < count ==> #[trigger] bulk_erased(mem, erase_size, slot_size, count)[i
                * slot_size] == 0xFFu8,
    decreases count,
{
    if count > 0 {
        let before = bulk_erased(mem, erase_size, slot_size, (count - 1) as nat);
        let after = bulk_erased(mem, erase_size, slot_size, count);
        let at = (count - 1) * slot_size;
        assert(at + slot_size == count * slot_size) by (nonlinear_arith)
            requires
                at == (count - 1) * slot_size,
        ;
        assert(at >= 0) by (nonlinear_arith)
            requires
                at == (count - 1) * slot_size,
                count >= 1,
        ;
        lemma_bulk_erased(mem, erase_size, slot_size, (count - 1) as nat);
        lemma_erased(before, erase_size, at);
        assert forall|i: int| 0 <= i < count implies #[trigger] after[i * slot_size] == 0xFFu8 by {
            if i < count - 1 {
                assert(before[i * slot_size] == 0xFFu8);
                assert(0 <= i * slot_size < at) by (nonlinear_arith)
                    requires
                        0 <= i < count - 1,
                        at == (count - 1) * slot_size,
                        slot_size > 0,
                ;
            }
        }
    }
}

/// A ring in which the first byte of every slot is erased holds no record:
/// a scan of it finds none.
pub proof fn lemma_scan_of_erased(mem: Seq<u8>, slot_size: nat, slot_count: nat)
    requires
        slot_size >= HEADER_SIZE,
        slot_count * slot_size <= mem.len(),
        forall|i: int| 0 <= i < slot_count ==> #[trigger] mem[i * slot_size] >= 0x80u8,
    ensures
        scan_result(mem, slot_size, slot_count) is None,
{
    let all = candidates(mem, slot_size, slot_count);
    assert forall|i: int| 0 <= i < all.len() implies all[i] is None by {
        let at = i * slot_size;
        assert(0 <= at && at + slot_size <= slot_count * slot_size) by (nonlinear_arith)
            requires
                0 <= i < slot_count,
                at == i * slot_size,
        ;
        let head = mem.subrange(at, at + HEADER_SIZE);
        assert(head[0] == mem[i * slot_size]);
        lemma_high_bit_invalid(head);
    }
    lemma_scan_nothing(None, all);
}

/// After a bulk erase of the whole ring, however much more the device
/// erased with it, a scan finds no record.
pub proof fn lemma_scan_after_erase_all(
    mem: Seq<u8>,
    after: Seq<u8>,
    erase_size: nat,
    slot_size: nat,
    slot_count: nat,
)
    requires
        erase_size > 0,
        slot_size >= HEADER_SIZE,
        slot_count * slot_size <= mem.len(),
        erased_at_least(after, bulk_erased(mem, erase_size, slot_size, slot_count)),
    ensures
        scan_result(after, slot_size, slot_count) is None,
{
    let bulk = bulk_erased(mem, erase_size, slot_size, slot_count);
    lemma_bulk_erased(mem, erase_size, slot_size, slot_count);
    assert forall|i: int| 0 <= i < slot_count implies #[trigger] after[i * slot_size] >= 0x80u8 by {
        assert(0 <= i * slot_size && i * slot_size + slot_size <= slot_count * slot_size)
            by (nonlinear_arith)
            requires
                0 <= i < slot_count,
        ;
        assert(bulk[i * slot_size] == 0xFFu8);
        assert(after[i * slot_size] == bulk[i * slot_size] || after[i * slot_size] == 0xFFu8);
    }
    lemma_scan_of_erased(after, slot_size, slot_count);
}

/// Whether a device of kind `kind` that holds `mem` can carry a ring of
/// `slot_count` slots of `slot_size` bytes.
pub open spec fn carries(mem: Seq<u8>, kind: DeviceKind, slot_size: nat, slot_count: nat) -> bool {
    &&& slot_size > HEADER_SIZE
    &&& 0 < slot_count <= usize::MAX
    &&& slot_size * slot_count <= mem.len()
    &&& suits(kind, slot_size)
}

/// Whether `data` can be committed to the ring as one record.
pub open spec fn fits(slot_size: nat, slot_count: nat, data: Seq<u8>) -> bool {
    &&& data.len() <= u32::MAX
    &&& slots_used(slot_size, data.len()) <= slot_count
}

/// Whether the store is in step with its device: the headers on the device
/// form a chain in the order in which their slots were written, and the
/// store's place and predecessor are those behind the chain's tip.
pub open spec fn in_order(state: StoreState, slot_size: nat, slot_count: nat) -> bool {
    chained(
        candidates(state.mem, slot_size, slot_count),
        state.next_idx as int,
        state.prev,
        slot_size,
    )
}

/// The store after it has appended `data`.
pub open spec fn after_append(
    state: StoreState,
    kind: DeviceKind,
    slot_size: nat,
    slot_count: nat,
    data: Seq<u8>,
) -> StoreState {
    StoreState {
        mem: apply_all(
            state.mem,
            kind,
            commit_ops(slot_size, slot_count, state.next_idx as usize, state.prev, data),
        ),
        next_idx: (state.next_idx + slots_used(slot_size, data.len())) % slot_count,
        prev: Chksum::spec_hash(state.prev, data),
    }
}

/// The store after it has appended each of `payloads` in turn.
pub open spec fn after_appends(
    state: StoreState,
    kind: DeviceKind,
    slot_size: nat,
    slot_count: nat,
    payloads: Seq<Seq<u8>>,
) -> StoreState
    decreases payloads.len(),
{
    if payloads.len() == 0 {
        state
    } else {
        after_append(
            after_appends(state, kind, slot_size, slot_count, payloads.drop_last()),
            kind,
            slot_size,
            slot_count,
            payloads.last(),
        )
    }
}

/// The header of the record that an append of `data` commits.
pub open spec fn appended_header(state: StoreState, data: Seq<u8>) -> Slot {
    Slot::spec_create(state.next_idx as usize, state.prev, data)
}

/// A ring without a header is in order, wherever the next record goes.
pub proof fn lemma_empty_ring_in_order(state: StoreState, slot_size: nat, slot_count: nat)
    requires
        state.next_idx < slot_count,
        scan_result(state.mem, slot_size, slot_count) is None,
    ensures
        in_order(state, slot_size, slot_count),
        ring_tip(candidates(state.mem, slot_size, slot_count), state.next_idx as int) is None,
{
    let c = candidates(state.mem, slot_size, slot_count);
    lemma_scan_finds_any(None, c);
    let r = ring_order(c, state.next_idx as int);
    assert(r =~= crate::ring::blank(slot_count));
    lemma_blank(Seq::empty(), slot_count);
    assert(Seq::<Option<Slot>>::empty() + crate::ring::blank(slot_count) =~= crate::ring::blank(
        slot_count,
    ));
}

/// A scan that sees a header holds one afterwards.
pub proof fn lemma_scan_finds_any(current: Option<Slot>, seen: Seq<Option<Slot>>)
    ensures
        scan_from(current, seen) is None ==> current is None && forall|i: int|
            0 <= i < seen.len() ==> seen[i] is None,
    decreases seen.len(),
{
    if seen.len() > 0 {
        lemma_scan_finds_any(current, seen.drop_last());
        if scan_from(current, seen) is None {
            assert forall|i: int| 0 <= i < seen.len() implies seen[i] is None by {
                if i < seen.len() - 1 {
                    assert(seen.drop_last()[i] is None);
                }
            }
        }
    }
}

/// Round trip. A payload that is no longer than the longest one the ring
/// can hold, once it is committed, whatever the medium held before, is on
/// the medium as it was given: the slot holds the header that was created
/// for it, and the bytes that `read` returns for that slot are the payload.
pub proof fn lemma_round_trip(
    mem: Seq<u8>,
    kind: DeviceKind,
    slot_size: nat,
    slot_count: nat,
    idx: usize,
    prev: Chksum,
    data: Seq<u8>,
)
    requires
        carries(mem, kind, slot_size, slot_count),
        data.len() <= u32::MAX,
        data.len() <= max_payload(slot_size, slot_count),
    ensures
        ({
            let after = apply_all(mem, kind, commit_ops(slot_size, slot_count, idx, prev, data));
            &&& after.len() == mem.len()
            &&& stored_header(after, slot_size, slot_count, idx) == Slot::spec_create(
                idx,
                prev,
                data,
            )
            &&& stored_payload(
                after,
                slot_size,
                slot_count,
                idx as nat,
                stored_header(after, slot_size, slot_count, idx).len as nat,
            ) == data
        }),
{
    let header = Slot::spec_create(idx, prev, data);
    let after = apply_all(mem, kind, commit_ops(slot_size, slot_count, idx, prev, data));
    lemma_fits_iff_max_payload(slot_size, slot_count, data.len());
    lemma_commit_done(mem, kind, slot_size, slot_count, idx, prev, data);
    lemma_header_round_trip(header);
    let at = slot_addr(slot_size, slot_count, idx as nat);
    let head = after.subrange(at, at + HEADER_SIZE);
    lemma_cell(slot_size, slot_count, idx as nat, 0, 0);
    assert forall|o: int| 0 <= o < HEADER_SIZE implies #[trigger] head[o]
        == header.header_bytes()[o] by {
        assert(after[crate::commit::cell(slot_size, slot_count, idx as nat, 0, o)]
            == header.header_bytes()[o]);
    }
    assert(head =~= header.header_bytes());
    let stored = stored_payload(after, slot_size, slot_count, idx as nat, data.len());
    assert forall|j: int| 0 <= j < data.len() implies #[trigger] stored[j] == data[j] by {
        assert(after[payload_cell(slot_size, slot_count, idx as nat, j)] == data[j]);
    }
    assert(stored =~= data);
}

/// Resume. Where a store is in step with its device and a scan returns
/// the tip of the chain, the scan of a store that is made anew over the
/// device brings that store to the same place and predecessor.
pub proof fn lemma_scan_resumes(state: StoreState, slot_size: nat, slot_count: nat, tip: Slot)
    requires
        in_order(state, slot_size, slot_count),
        scan_result(state.mem, slot_size, slot_count) == Some(tip),
        ring_tip(candidates(state.mem, slot_size, slot_count), state.next_idx as int) == Some(tip),
    ensures
        tip.spec_next_slot(slot_size, slot_count) == state.next_idx,
        tip.chksum == state.prev,
{
}

/// The slot behind a record of `k` slots that starts in slot `x`.
pub proof fn lemma_ring_next(x: nat, k: nat, slot_count: nat)
    requires
        x < slot_count,
        1 <= k <= slot_count,
    ensures
        (x + k) % slot_count == ring_next(x as int, k as int, slot_count as int),
        0 <= ring_next(x as int, k as int, slot_count as int) < slot_count,
{
    let n = slot_count as int;
    if x + k < n {
        lemma_fundamental_div_mod_converse((x + k) as int, n, 0, (x + k) as int);
    } else {
        assert(n * 1 + (x + k - n) == x + k) by (nonlinear_arith);
        lemma_fundamental_div_mod_converse((x + k) as int, n, 1, x + k - n);
    }
}

/// Chain soundness, one step. An append to a store that is in step with
/// its device leaves it in step, with the new record as the tip of the
/// chain. A scan then returns the new record's header exactly if no header
/// in a slot behind the new record's names the new record as its
/// predecessor: such a header can only be a stale one whose stored
/// predecessor checksum happens to be the new record's.
pub proof fn lemma_append_in_order(
    state: StoreState,
    kind: DeviceKind,
    slot_size: nat,
    slot_count: nat,
    data: Seq<u8>,
)
    requires
        carries(state.mem, kind, slot_size, slot_count),
        state.next_idx < slot_count,
        state.prev.spec_is_valid(),
        in_order(state, slot_size, slot_count),
        fits(slot_size, slot_count, data),
    ensures
        ({
            let after = after_append(state, kind, slot_size, slot_count, data);
            let header = appended_header(state, data);
            let seen = candidates(after.mem, slot_size, slot_count);
            &&& carries(after.mem, kind, slot_size, slot_count)
            &&& after.next_idx < slot_count
            &&& after.prev.spec_is_valid()
            &&& after.prev == header.chksum
            &&& in_order(after, slot_size, slot_count)
            &&& ring_tip(seen, after.next_idx as int) == Some(header)
            &&& seen == committed(
                candidates(state.mem, slot_size, slot_count),
                state.next_idx as int,
                slots_used(slot_size, data.len()) as int,
                header,
            )
            &&& scan_result(after.mem, slot_size, slot_count) == Some(header) <==> unclaimed(
                seen.skip(header.idx + 1),
                header.chksum,
            )
        }),
{
    let after = after_append(state, kind, slot_size, slot_count, data);
    let header = appended_header(state, data);
    let slots = slots_used(slot_size, data.len());
    let before = candidates(state.mem, slot_size, slot_count);
    lemma_slots_used(slot_size, data.len());
    lemma_commit_done(
        state.mem,
        kind,
        slot_size,
        slot_count,
        state.next_idx as usize,
        state.prev,
        data,
    );
    lemma_candidates_landed(
        state.mem,
        after.mem,
        slot_size,
        slot_count,
        header,
        data,
        slots as int,
    );
    lemma_ring_next(state.next_idx, slots, slot_count);
    lemma_small_index(state.next_idx, slot_count);
    lemma_commit_keeps_chain(
        before,
        state.next_idx as int,
        state.prev,
        slot_size,
        slots as int,
        header,
    );
}

/// Appends of payloads that fit the ring keep a store in step with its
/// device, however many there are.
pub proof fn lemma_appends_in_order(
    state: StoreState,
    kind: DeviceKind,
    slot_size: nat,
    slot_count: nat,
    payloads: Seq<Seq<u8>>,
)
    requires
        carries(state.mem, kind, slot_size, slot_count),
        state.next_idx < slot_count,
        state.prev.spec_is_valid(),
        in_order(state, slot_size, slot_count),
        forall|i: int|
            0 <= i < payloads.len() ==> fits(slot_size, slot_count, #[trigger] payloads[i]),
    ensures
        ({
            let after = after_appends(state, kind, slot_size, slot_count, payloads);
            &&& carries(after.mem, kind, slot_size, slot_count)
            &&& after.next_idx < slot_count
            &&& after.prev.spec_is_valid()
            &&& in_order(after, slot_size, slot_count)
        }),
    decreases payloads.len(),
{
    if payloads.len() > 0 {
        let front = payloads.drop_last();
        assert forall|i: int| 0 <= i < front.len() implies fits(
            slot_size,
            slot_count,
            #[trigger] front[i],
        ) by {
            assert(front[i] == payloads[i]);
        }
        lemma_appends_in_order(state, kind, slot_size, slot_count, front);
        lemma_append_in_order(
            after_appends(state, kind, slot_size, slot_count, front),
            kind,
            slot_size,
            slot_count,
            payloads.last(),
        );
    }
}

/// Chain soundness. After any number of appends of payloads that fit
/// the ring, to a store that was in step with its device, the tip of the
/// chain on the device is the record of the payload appended last: its
/// header has that payload's length and its checksum is the hash of its
/// predecessor's checksum and that payload, and the payload stands behind
/// it. A scan returns that header exactly if no header in a slot behind it
/// names it as predecessor.
pub proof fn lemma_chain_soundness(
    state: StoreState,
    kind: DeviceKind,
    slot_size: nat,
    slot_count: nat,
    payloads: Seq<Seq<u8>>,
)
    requires
        carries(state.mem, kind, slot_size, slot_count),
        state.next_idx < slot_count,
        state.prev.spec_is_valid(),
        in_order(state, slot_size, slot_count),
        payloads.len() > 0,
        forall|i: int|
            0 <= i < payloads.len() ==> fits(slot_size, slot_count, #[trigger] payloads[i]),
    ensures
        ({
            let before = after_appends(state, kind, slot_size, slot_count, payloads.drop_last());
            let after = after_appends(state, kind, slot_size, slot_count, payloads);
            let last = appended_header(before, payloads.last());
            let seen = candidates(after.mem, slot_size, slot_count);
            &&& last.chksum == Chksum::spec_hash(last.prev, payloads.last())
            &&& last.len == payloads.last().len()
            &&& last.idx == before.next_idx
            &&& ring_tip(seen, after.next_idx as int) == Some(last)
            &&& stored_header(after.mem, slot_size, slot_count, last.idx) == last
            &&& stored_payload(after.mem, slot_size, slot_count, last.idx as nat, last.len as nat)
                == payloads.last()
            &&& scan_result(after.mem, slot_size, slot_count) == Some(last) <==> unclaimed(
                seen.skip(last.idx + 1),
                last.chksum,
            )
        }),
{
    let front = payloads.drop_last();
    assert forall|i: int| 0 <= i < front.len() implies fits(
        slot_size,
        slot_count,
        #[trigger] front[i],
    ) by {
        assert(front[i] == payloads[i]);
    }
    lemma_appends_in_order(state, kind, slot_size, slot_count, front);
    let before = after_appends(state, kind, slot_size, slot_count, front);
    lemma_append_in_order(before, kind, slot_size, slot_count, payloads.last());
    lemma_fits_iff_max_payload(slot_size, slot_count, payloads.last().len());
    lemma_round_trip(
        before.mem,
        kind,
        slot_size,
        slot_count,
        before.next_idx as usize,
        before.prev,
        payloads.last(),
    );
}

/// Where a run of appends of one-slot payloads ends: that many slots
/// behind where it started, around the ring.
pub proof fn lemma_one_slot_appends(
    state: StoreState,
    kind: DeviceKind,
    slot_size: nat,
    slot_count: nat,
    payloads: Seq<Seq<u8>>,
)
    requires
        slot_size > HEADER_SIZE,
        slot_count > 0,
        state.next_idx < slot_count,
        forall|i: int|
            0 <= i < payloads.len() ==> slots_used(slot_size, (#[trigger] payloads[i]).len()) == 1,
    ensures
        after_appends(state, kind, slot_size, slot_count, payloads).next_idx == (state.next_idx
            + payloads.len()) % slot_count,
    decreases payloads.len(),
{
    if payloads.len() == 0 {
        lemma_small_index(state.next_idx, slot_count);
    } else {
        let front = payloads.drop_last();
        assert forall|i: int| 0 <= i < front.len() implies slots_used(
            slot_size,
            (#[trigger] front[i]).len(),
        ) == 1 by {
            assert(front[i] == payloads[i]);
        }
        lemma_one_slot_appends(state, kind, slot_size, slot_count, front);
        let before = after_appends(state, kind, slot_size, slot_count, front);
        lemma_mod_bound((state.next_idx + front.len()) as int, slot_count as int);
        vstd::arithmetic::div_mod::lemma_add_mod_noop(
            (state.next_idx + front.len()) as int,
            1,
            slot_count as int,
        );
        vstd::arithmetic::div_mod::lemma_mod_twice(
            (state.next_idx + front.len()) as int,
            slot_count as int,
        );
        if slot_count == 1 {
            assert(before.next_idx == 0);
        } else {
            lemma_small_index(1, slot_count);
        }
    }
}

/// Wrap-around. After any number of appends of payloads that take one
/// slot each, to a store that was in step with its device, the record of
/// the last payload stands in the slot that many slots less one behind the
/// slot the store started at, around the ring, and the next record goes to
/// the slot behind it. The payload stands in that slot as it was given,
/// and a scan returns its header exactly if no header in a slot behind it
/// names it as predecessor.
pub proof fn lemma_wrap_around(
    state: StoreState,
    kind: DeviceKind,
    slot_size: nat,
    slot_count: nat,
    payloads: Seq<Seq<u8>>,
)
    requires
        carries(state.mem, kind, slot_size, slot_count),
        state.next_idx < slot_count,
        state.prev.spec_is_valid(),
        in_order(state, slot_size, slot_count),
        payloads.len() > 0,
        forall|i: int|
            0 <= i < payloads.len() ==> (#[trigger] payloads[i]).len() <= u32::MAX && slots_used(
                slot_size,
                payloads[i].len(),
            ) == 1,
    ensures
        ({
            let before = after_appends(state, kind, slot_size, slot_count, payloads.drop_last());
            let after = after_appends(state, kind, slot_size, slot_count, payloads);
            let last = appended_header(before, payloads.last());
            let seen = candidates(after.mem, slot_size, slot_count);
            &&& last.idx == (state.next_idx + payloads.len() - 1) % (slot_count as int)
            &&& after.next_idx == (state.next_idx + payloads.len()) % slot_count
            &&& stored_payload(after.mem, slot_size, slot_count, last.idx as nat, last.len as nat)
                == payloads.last()
            &&& scan_result(after.mem, slot_size, slot_count) == Some(last) <==> unclaimed(
                seen.skip(last.idx + 1),
                last.chksum,
            )
        }),
{
    let front = payloads.drop_last();
    assert forall|i: int| 0 <= i < payloads.len() implies fits(
        slot_size,
        slot_count,
        #[trigger] payloads[i],
    ) by {
    }
    assert forall|i: int| 0 <= i < front.len() implies slots_used(
        slot_size,
        (#[trigger] front[i]).len(),
    ) == 1 by {
        assert(front[i] == payloads[i]);
    }
    lemma_one_slot_appends(state, kind, slot_size, slot_count, payloads);
    lemma_one_slot_appends(state, kind, slot_size, slot_count, front);
    lemma_chain_soundness(state, kind, slot_size, slot_count, payloads);
    lemma_mod_bound((state.next_idx + front.len()) as int, slot_count as int);
}

/// The tip of a chain that ends where slot `x` starts lies as many slots
/// behind slot `x`, around the ring, as the ring has more slots than the
/// tip's record takes.
pub proof fn lemma_tip_rank(slot_size: nat, slot_count: nat, x: nat, tip: Slot)
    requires
        slot_size > HEADER_SIZE,
        x < slot_count,
        tip.idx < slot_count,
        tip.spec_next_slot(slot_size, slot_count) == x,
        slots_used(slot_size, tip.len as nat) <= slot_count,
    ensures
        rank(x as int, slot_count as int, tip.idx as int) == slot_count - slots_used(
            slot_size,
            tip.len as nat,
        ),
{
    let n = slot_count as int;
    let taken = slots_used(slot_size, tip.len as nat) as int;
    let end = tip.idx + taken;
    lemma_slots_used(slot_size, tip.len as nat);
    vstd::arithmetic::div_mod::lemma_fundamental_div_mod(end, n);
    let q = end / n;
    assert(q == 0 || q == 1) by (nonlinear_arith)
        requires
            end == n * q + x,
            0 <= x < n,
            1 <= end < 2 * n,
    ;
    if q == 0 {
        assert(n * q == 0) by (nonlinear_arith)
            requires
                q == 0,
        ;
    } else {
        assert(n * q == n) by (nonlinear_arith)
            requires
                q == 1,
        ;
    }
}

/// Power-fail safety. Let the store be in step with its device, let a scan
/// return the tip of the chain, and let a payload be appended that fits
/// into the slots that the tip's record does not take. Then after any
/// number of the append's operations short of all a scan still returns
/// the old tip: never none, never another record. After all of them the
/// new payload stands on the medium in full, and a scan returns the new
/// header exactly if no header in a slot behind it names it as predecessor.
pub proof fn lemma_power_fail_safe(
    state: StoreState,
    kind: DeviceKind,
    slot_size: nat,
    slot_count: nat,
    data: Seq<u8>,
    tip: Slot,
    m: int,
)
    requires
        carries(state.mem, kind, slot_size, slot_count),
        state.next_idx < slot_count,
        state.prev.spec_is_valid(),
        in_order(state, slot_size, slot_count),
        scan_result(state.mem, slot_size, slot_count) == Some(tip),
        ring_tip(candidates(state.mem, slot_size, slot_count), state.next_idx as int) == Some(tip),
        data.len() <= u32::MAX,
        slots_used(slot_size, tip.len as nat) + slots_used(slot_size, data.len()) <= slot_count,
        0 <= m <= 2 * slots_used(slot_size, data.len()) + 1,
    ensures
        ({
            let ops = commit_ops(
                slot_size,
                slot_count,
                state.next_idx as usize,
                state.prev,
                data,
            );
            let now = apply_all(state.mem, kind, ops.take(m));
            let header = appended_header(state, data);
            &&& m < ops.len() ==> scan_result(now, slot_size, slot_count) == Some(tip)
            &&& m == ops.len() ==> stored_payload(
                now,
                slot_size,
                slot_count,
                header.idx as nat,
                header.len as nat,
            ) == data
            &&& m == ops.len() ==> (scan_result(now, slot_size, slot_count) == Some(header)
                <==> unclaimed(
                candidates(now, slot_size, slot_count).skip(header.idx + 1),
                header.chksum,
            ))
        }),
{
    let x = state.next_idx;
    let slots = slots_used(slot_size, data.len());
    let ops = commit_ops(slot_size, slot_count, x as usize, state.prev, data);
    let now = apply_all(state.mem, kind, ops.take(m));
    let before = candidates(state.mem, slot_size, slot_count);
    lemma_slots_used(slot_size, data.len());
    lemma_slots_used(slot_size, tip.len as nat);
    if m < ops.len() {
        let reached = (m + 1) / 2;
        lemma_commit_prefix(
            state.mem,
            kind,
            slot_size,
            slot_count,
            x as usize,
            state.prev,
            data,
            m,
        );
        lemma_candidates_in_progress(
            state.mem,
            now,
            kind.clears_only,
            slot_size,
            slot_count,
            x,
            data,
            m,
        );
        crate::ring::lemma_scan_of_chain(before, x as int);
        lemma_tip_rank(slot_size, slot_count, x, tip);
        lemma_rank(slot_size, slot_count, x, tip.idx as int, reached);
        lemma_staged_keeps_tip(before, x as int, state.prev, slot_size, reached, tip);
    } else {
        assert(ops.take(m) =~= ops);
        lemma_append_in_order(state, kind, slot_size, slot_count, data);
        lemma_fits_iff_max_payload(slot_size, slot_count, data.len());
        lemma_round_trip(state.mem, kind, slot_size, slot_count, x as usize, state.prev, data);
    }
}

/// Whether a bulk erase of `count` slots erases the byte at `a`.
pub open spec fn bulk_erases(erase_size: nat, slot_size: nat, count: nat, a: int) -> bool
    decreases count,
{
    count > 0 && (bulk_erases(erase_size, slot_size, (count - 1) as nat, a) || erase_start(
        erase_size,
        (count - 1) * slot_size,
    ) <= a < erase_start(erase_size, (count - 1) * slot_size) + erase_size)
}

/// A bulk erase leaves each byte erased or as it was, and which of the two
/// does not depend on what the device held.
pub proof fn lemma_bulk_erased_bytes(mem: Seq<u8>, erase_size: nat, slot_size: nat, count: nat)
    ensures
        bulk_erased(mem, erase_size, slot_size, count).len() == mem.len(),
        forall|a: int|
            0 <= a < mem.len() ==> #[trigger] bulk_erased(mem, erase_size, slot_size, count)[a]
                == if bulk_erases(erase_size, slot_size, count, a) {
                0xFFu8
            } else {
                mem[a]
            },
    decreases count,
{
    if count > 0 {
        lemma_bulk_erased_bytes(mem, erase_size, slot_size, (count - 1) as nat);
    }
}

/// Erase idempotence. A second bulk erase changes nothing.
pub proof fn lemma_erase_idempotent(mem: Seq<u8>, erase_size: nat, slot_size: nat, count: nat)
    ensures
        bulk_erased(
            bulk_erased(mem, erase_size, slot_size, count),
            erase_size,
            slot_size,
            count,
        ) == bulk_erased(mem, erase_size, slot_size, count),
{
    let once = bulk_erased(mem, erase_size, slot_size, count);
    let twice = bulk_erased(once, erase_size, slot_size, count);
    lemma_bulk_erased_bytes(mem, erase_size, slot_size, count);
    lemma_bulk_erased_bytes(once, erase_size, slot_size, count);
    assert(twice =~= once);
}

/// After an erase of the whole ring a scan finds no record, the store that
/// is set back to slot 0 is in step with its device, and the first payload
/// appended after it is committed from slot 0 on and found by a scan.
pub proof fn lemma_append_after_erase(
    mem: Seq<u8>,
    blank: Seq<u8>,
    kind: DeviceKind,
    slot_size: nat,
    slot_count: nat,
    data: Seq<u8>,
)
    requires
        carries(mem, kind, slot_size, slot_count),
        erased_at_least(blank, bulk_erased(mem, kind.erase_size, slot_size, slot_count)),
        fits(slot_size, slot_count, data),
    ensures
        ({
            let state = StoreState { mem: blank, next_idx: 0, prev: Chksum(0) };
            let after = after_append(state, kind, slot_size, slot_count, data);
            &&& scan_result(blank, slot_size, slot_count) is None
            &&& in_order(state, slot_size, slot_count)
            &&& scan_result(after.mem, slot_size, slot_count) == Some(
                Slot::spec_create(0, Chksum(0), data),
            )
            &&& stored_payload(after.mem, slot_size, slot_count, 0, data.len()) == data
        }),
{
    let state = StoreState { mem: blank, next_idx: 0, prev: Chksum(0) };
    let after = after_append(state, kind, slot_size, slot_count, data);
    let header = appended_header(state, data);
    assert(slot_count * slot_size == slot_size * slot_count) by (nonlinear_arith);
    lemma_bulk_erased_bytes(mem, kind.erase_size, slot_size, slot_count);
    lemma_scan_after_erase_all(mem, blank, kind.erase_size, slot_size, slot_count);
    lemma_empty_ring_in_order(state, slot_size, slot_count);
    lemma_append_in_order(state, kind, slot_size, slot_count, data);
    lemma_fits_iff_max_payload(slot_size, slot_count, data.len());
    lemma_round_trip(blank, kind, slot_size, slot_count, 0, Chksum(0), data);
    let before = candidates(blank, slot_size, slot_count);
    lemma_scan_finds_any(None, before);
    let seen = candidates(after.mem, slot_size, slot_count);
    let behind = seen.skip(header.idx + 1);
    assert forall|i: int| 0 <= i < behind.len() implies (#[trigger] behind[i] matches Some(h)
        ==> h.prev != header.chksum) by {
        assert(behind[i] == seen[i + 1]);
        assert(before[i + 1] is None);
    }
}

/// An append that the device fails. Where the first erase was served and
/// the device then failed an operation before the write of the header, the
/// record's first slot starts with an erased byte, whatever the failed
/// operation left behind: a scan sees no header there.
pub proof fn lemma_failed_commit_hides_record(
    mem: Seq<u8>,
    now: Seq<u8>,
    kind: DeviceKind,
    slot_size: nat,
    slot_count: nat,
    idx: usize,
    prev: Chksum,
    data: Seq<u8>,
    m: int,
)
    requires
        carries(mem, kind, slot_size, slot_count),
        fits(slot_size, slot_count, data),
        1 <= m < 2 * slots_used(slot_size, data.len()),
        torn(
            apply_all(mem, kind, commit_ops(slot_size, slot_count, idx, prev, data).take(m)),
            now,
            kind,
            commit_ops(slot_size, slot_count, idx, prev, data)[m],
        ),
    ensures
        now[slot_addr(slot_size, slot_count, idx as nat)] == 0xFFu8,
        candidate(now, slot_size, (idx as nat) % slot_count) is None,
{
    let ops = commit_ops(slot_size, slot_count, idx, prev, data);
    let before = apply_all(mem, kind, ops.take(m));
    let c = m / 2;
    let first = cell(slot_size, slot_count, idx as nat, 0, 0);
    let at = cell(slot_size, slot_count, idx as nat, c, 0);
    lemma_slots_used(slot_size, data.len());
    lemma_commit_prefix(mem, kind, slot_size, slot_count, idx, prev, data, m);
    lemma_cell(slot_size, slot_count, idx as nat, 0, 0);
    lemma_cell(slot_size, slot_count, idx as nat, c, 0);
    assert(before[first] == 0xFFu8);
    if c > 0 {
        lemma_cells_apart(slot_size, slot_count, idx as nat, 0, c);
    }
    if m % 2 == 0 {
        lemma_cell_aligned(slot_size, slot_count, idx as nat, c);
        lemma_erase_in_slot(before, kind, slot_size, at);
    } else {
        lemma_chunk_start_next(slot_size, c as nat);
    }
    assert(!in_reach(kind, ops[m], first));
    assert(now[first] == before[first]);
    lemma_mod_bound(idx as int, slot_count as int);
    let head = now.subrange(first, first + HEADER_SIZE);
    assert(head[0] == now[first]);
    lemma_high_bit_invalid(head);
}

} // verus!
