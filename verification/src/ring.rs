//! The ring as a scan sees it: one optional header per slot. What a chain of
//! records is, which of them is its tip, and when a scan finds that tip.

use crate::chksum::Chksum;
use crate::model::scan_from;
use crate::Slot;
use vstd::prelude::*;

verus! {

/// The slots of the ring in the order in which they are written, starting
/// from slot `x`: the oldest record that is left comes first, the newest last.
pub open spec fn ring_order(c: Seq<Option<Slot>>, x: int) -> Seq<Option<Slot>>
    recommends
        0 <= x <= c.len(),
{
    c.skip(x) + c.take(x)
}

/// The last header of `r`, if it has any.
pub open spec fn tip_of(r: Seq<Option<Slot>>) -> Option<Slot>
    decreases r.len(),
{
    if r.len() == 0 {
        None
    } else if r.last() is Some {
        r.last()
    } else {
        tip_of(r.drop_last())
    }
}

/// The first header of `r`, if it has any.
pub open spec fn first_of(r: Seq<Option<Slot>>) -> Option<Slot>
    decreases r.len(),
{
    if r.len() == 0 {
        None
    } else if first_of(r.drop_last()) is Some {
        first_of(r.drop_last())
    } else {
        r.last()
    }
}

/// Whether `later`, if both are there, names `earlier` as its predecessor.
pub open spec fn joins(earlier: Option<Slot>, later: Option<Slot>) -> bool {
    earlier matches Some(e) ==> (later matches Some(l) ==> l.spec_is_update_to(&e))
}

/// Whether the headers of `r` form a chain: each but the first names the
/// one before it as its predecessor.
pub open spec fn linked(r: Seq<Option<Slot>>) -> bool
    decreases r.len(),
{
    if r.len() == 0 {
        true
    } else {
        linked(r.drop_last()) && joins(tip_of(r.drop_last()), r.last())
    }
}

/// Whether every header of `c` carries the index of the slot it stands in.
pub open spec fn placed(c: Seq<Option<Slot>>) -> bool {
    forall|i: int| 0 <= i < c.len() ==> (#[trigger] c[i] matches Some(h) ==> h.idx == i)
}

/// Whether no header of `r` names a record with checksum `chksum` as its
/// predecessor.
pub open spec fn unclaimed(r: Seq<Option<Slot>>, chksum: Chksum) -> bool {
    forall|i: int| 0 <= i < r.len() ==> (#[trigger] r[i] matches Some(h) ==> h.prev != chksum)
}

/// Whether no header of `r` carries the slot index `idx`.
pub open spec fn elsewhere(r: Seq<Option<Slot>>, idx: usize) -> bool {
    forall|i: int| 0 <= i < r.len() ==> (#[trigger] r[i] matches Some(h) ==> h.idx != idx)
}

/// `count` slots without a header.
pub open spec fn blank(count: nat) -> Seq<Option<Slot>> {
    Seq::new(count, |i: int| None::<Slot>)
}

/// A sequence has a first header exactly if it has a last one.
pub proof fn lemma_first_and_tip(r: Seq<Option<Slot>>)
    ensures
        first_of(r) is Some <==> tip_of(r) is Some,
        tip_of(r) is None <==> forall|i: int| 0 <= i < r.len() ==> r[i] is None,
        tip_of(r) matches Some(t) ==> exists|i: int| 0 <= i < r.len() && r[i] == Some(t),
    decreases r.len(),
{
    if r.len() > 0 {
        let front = r.drop_last();
        lemma_first_and_tip(front);
        if r.last() is None {
            assert forall|i: int| 0 <= i < r.len() && tip_of(r) is None implies r[i] is None by {
                if i < front.len() {
                    assert(front[i] is None);
                }
            }
            if tip_of(r) is Some {
                let t = tip_of(r).unwrap();
                let i = choose|i: int| 0 <= i < front.len() && front[i] == Some(t);
                assert(r[i] == Some(t));
            }
            if forall|i: int| 0 <= i < r.len() ==> r[i] is None {
                assert forall|i: int| 0 <= i < front.len() implies front[i] is None by {
                    assert(r[i] is None);
                }
            }
        } else {
            assert(r[r.len() - 1] == r.last());
        }
    }
}

/// The tip of two sequences put together is the tip of the second, or of
/// the first where the second has no header.
pub proof fn lemma_tip_concat(a: Seq<Option<Slot>>, b: Seq<Option<Slot>>)
    ensures
        tip_of(a + b) == if tip_of(b) is Some {
            tip_of(b)
        } else {
            tip_of(a)
        },
    decreases b.len(),
{
    if b.len() == 0 {
        assert(a + b =~= a);
    } else {
        assert((a + b).drop_last() =~= a + b.drop_last());
        lemma_tip_concat(a, b.drop_last());
    }
}

/// The first header of two sequences put together is the first of the
/// first, or of the second where the first has no header.
pub proof fn lemma_first_concat(a: Seq<Option<Slot>>, b: Seq<Option<Slot>>)
    ensures
        first_of(a + b) == if first_of(a) is Some {
            first_of(a)
        } else {
            first_of(b)
        },
    decreases b.len(),
{
    if b.len() == 0 {
        assert(a + b =~= a);
    } else {
        assert((a + b).drop_last() =~= a + b.drop_last());
        lemma_first_concat(a, b.drop_last());
    }
}

/// Two sequences put together form a chain exactly if each is one and the
/// first header of the second names the last of the first.
pub proof fn lemma_linked_concat(a: Seq<Option<Slot>>, b: Seq<Option<Slot>>)
    ensures
        linked(a + b) <==> linked(a) && linked(b) && joins(tip_of(a), first_of(b)),
    decreases b.len(),
{
    if b.len() == 0 {
        assert(a + b =~= a);
    } else {
        let front = b.drop_last();
        assert((a + b).drop_last() =~= a + front);
        lemma_linked_concat(a, front);
        lemma_tip_concat(a, front);
        lemma_first_and_tip(front);
    }
}

/// A scan of two sequences put together is a scan of the second that
/// starts with what a scan of the first held.
pub proof fn lemma_scan_concat(
    current: Option<Slot>,
    a: Seq<Option<Slot>>,
    b: Seq<Option<Slot>>,
)
    ensures
        scan_from(current, a + b) == scan_from(scan_from(current, a), b),
    decreases b.len(),
{
    if b.len() == 0 {
        assert(a + b =~= a);
    } else {
        assert((a + b).drop_last() =~= a + b.drop_last());
        lemma_scan_concat(current, a, b.drop_last());
    }
}

/// A scan of a chain whose first header names what the scan holds, or that
/// holds nothing, ends at the chain's tip.
pub proof fn lemma_scan_follows_chain(current: Option<Slot>, r: Seq<Option<Slot>>)
    requires
        linked(r),
        joins(current, first_of(r)),
    ensures
        scan_from(current, r) == if tip_of(r) is Some {
            tip_of(r)
        } else {
            current
        },
    decreases r.len(),
{
    if r.len() > 0 {
        let front = r.drop_last();
        lemma_first_and_tip(front);
        lemma_scan_follows_chain(current, front);
    }
}

/// A scan that holds `held` keeps it over slots of which none holds a
/// header that names `held` as its predecessor. Where no header in those
/// slots stands in `held`'s own slot, the converse holds too.
pub proof fn lemma_scan_keeps(held: Slot, r: Seq<Option<Slot>>)
    ensures
        unclaimed(r, held.chksum) ==> scan_from(Some(held), r) == Some(held),
        elsewhere(r, held.idx) && scan_from(Some(held), r) == Some(held) ==> unclaimed(
            r,
            held.chksum,
        ),
    decreases r.len(),
{
    if r.len() > 0 {
        let front = r.drop_last();
        lemma_scan_keeps(held, front);
        assert(r.last() == r[r.len() - 1]);
        if unclaimed(r, held.chksum) {
            assert forall|i: int| 0 <= i < front.len() implies (#[trigger] front[i] matches Some(
                h,
            ) ==> h.prev != held.chksum) by {
                assert(front[i] == r[i]);
            }
        }
        if elsewhere(r, held.idx) && scan_from(Some(held), r) == Some(held) {
            assert forall|i: int| 0 <= i < front.len() implies (#[trigger] front[i] matches Some(
                h,
            ) ==> h.idx != held.idx) by {
                assert(front[i] == r[i]);
            }
            assert(scan_from(Some(held), front) == Some(held));
            assert forall|i: int| 0 <= i < r.len() implies (#[trigger] r[i] matches Some(h)
                ==> h.prev != held.chksum) by {
                if i < front.len() {
                    assert(front[i] == r[i]);
                }
            }
        }
    }
}

/// Slots without a header change neither a chain nor its tip.
pub proof fn lemma_blank(r: Seq<Option<Slot>>, count: nat)
    ensures
        tip_of(r + blank(count)) == tip_of(r),
        tip_of(blank(count) + r) == tip_of(r),
        first_of(blank(count) + r) == first_of(r),
        linked(r + blank(count)) == linked(r),
        linked(blank(count) + r) == linked(r),
        tip_of(blank(count)) is None,
        first_of(blank(count)) is None,
        linked(blank(count)),
{
    lemma_first_and_tip(blank(count));
    lemma_blank_linked(count);
    lemma_tip_concat(r, blank(count));
    lemma_tip_concat(blank(count), r);
    lemma_first_concat(blank(count), r);
    lemma_linked_concat(r, blank(count));
    lemma_linked_concat(blank(count), r);
}

/// Slots without a header form a chain.
pub proof fn lemma_blank_linked(count: nat)
    ensures
        linked(blank(count)),
    decreases count,
{
    if count > 0 {
        assert(blank(count).drop_last() =~= blank((count - 1) as nat));
        lemma_blank_linked((count - 1) as nat);
    }
}

/// The tip of a sequence stands in it, and no header stands behind it.
pub proof fn lemma_tip_is_last(r: Seq<Option<Slot>>) -> (at: int)
    requires
        tip_of(r) is Some,
    ensures
        0 <= at < r.len(),
        r[at] == tip_of(r),
        forall|i: int| at < i < r.len() ==> r[i] is None,
    decreases r.len(),
{
    if r.last() is Some {
        r.len() - 1
    } else {
        let front = r.drop_last();
        let at = lemma_tip_is_last(front);
        assert(r[at] == front[at]);
        assert forall|i: int| at < i < r.len() implies r[i] is None by {
            if i < front.len() {
                assert(front[i] is None);
            }
        }
        at
    }
}

/// Whether the ring is in order: every header carries its slot's index,
/// the headers form a chain in the order in which their slots were written,
/// and the chain's tip has checksum `prev` and ends where slot `x` starts,
/// the slot that is written next.
pub open spec fn chained(c: Seq<Option<Slot>>, x: int, prev: Chksum, slot_size: nat) -> bool {
    &&& 0 <= x < c.len()
    &&& placed(c)
    &&& linked(ring_order(c, x))
    &&& tip_of(ring_order(c, x)) matches Some(t) ==> t.chksum == prev && t.spec_next_slot(
        slot_size,
        c.len(),
    ) == x
}

/// The record that the ring holds last: the tip of its chain.
pub open spec fn ring_tip(c: Seq<Option<Slot>>, x: int) -> Option<Slot> {
    tip_of(ring_order(c, x))
}

/// What a scan finds on a ring whose headers form a chain from slot `x` on.
/// Without a header it finds none. Else it finds the chain's tip exactly if
/// no header in a slot behind the tip's names the tip as its predecessor.
pub proof fn lemma_scan_of_chain(c: Seq<Option<Slot>>, x: int)
    requires
        0 <= x <= c.len(),
        placed(c),
        linked(ring_order(c, x)),
    ensures
        ring_tip(c, x) is None ==> scan_from(None, c) is None,
        ring_tip(c, x) matches Some(t) ==> 0 <= t.idx < c.len() && c[t.idx as int] == Some(t) && (
        scan_from(None, c) == Some(t) <==> unclaimed(c.skip(t.idx + 1), t.chksum)),
{
    let older = c.skip(x);
    let newer = c.take(x);
    assert(c =~= newer + older);
    lemma_linked_concat(older, newer);
    lemma_tip_concat(older, newer);
    lemma_scan_concat(None, newer, older);
    lemma_scan_follows_chain(None, newer);
    if tip_of(newer) is Some {
        let t = tip_of(newer).unwrap();
        let at = lemma_tip_is_last(newer);
        assert(newer[at] == c[at]);
        assert(t.idx == at);
        lemma_scan_keeps(t, older);
        assert forall|i: int| 0 <= i < older.len() implies (#[trigger] older[i] matches Some(h)
            ==> h.idx != t.idx) by {
            assert(older[i] == c[x + i]);
        }
        let behind = c.skip(t.idx + 1);
        if unclaimed(older, t.chksum) {
            assert forall|i: int| 0 <= i < behind.len() implies (#[trigger] behind[i] matches Some(
                h,
            ) ==> h.prev != t.chksum) by {
                let j = at + 1 + i;
                if j < x {
                    assert(newer[j] is None);
                    assert(behind[i] == newer[j]);
                } else {
                    assert(behind[i] == older[j - x]);
                }
            }
        }
        if unclaimed(behind, t.chksum) {
            assert forall|i: int| 0 <= i < older.len() implies (#[trigger] older[i] matches Some(
                h,
            ) ==> h.prev != t.chksum) by {
                assert(older[i] == behind[x + i - at - 1]);
            }
        }
    } else {
        lemma_scan_follows_chain(None, older);
        if tip_of(older) is Some {
            let t = tip_of(older).unwrap();
            let at = lemma_tip_is_last(older);
            assert(older[at] == c[x + at]);
            assert(t.idx == x + at);
            let behind = c.skip(t.idx + 1);
            assert forall|i: int| 0 <= i < behind.len() implies (#[trigger] behind[i] matches Some(
                h,
            ) ==> h.prev != t.chksum) by {
                assert(behind[i] == older[at + 1 + i]);
            }
        }
    }
}

/// Whether slot `i` is one of the `k` slots from slot `x` on, around the
/// ring of `n` slots.
pub open spec fn covered(x: int, k: int, n: int, i: int) -> bool {
    x <= i < x + k || i + n < x + k
}

/// The ring while a record is being written over `k` slots from slot `x`
/// on: those slots hold no header, the others what they held.
pub open spec fn staged(c: Seq<Option<Slot>>, x: int, k: int) -> Seq<Option<Slot>> {
    Seq::new(
        c.len(),
        |i: int|
            if covered(x, k, c.len() as int, i) {
                None
            } else {
                c[i]
            },
    )
}

/// The ring once a record with header `h` is committed over `k` slots from
/// slot `x` on.
pub open spec fn committed(c: Seq<Option<Slot>>, x: int, k: int, h: Slot) -> Seq<Option<Slot>> {
    staged(c, x, k).update(x, Some(h))
}

/// The slot `k` slots behind slot `x`, around the ring of `n` slots.
pub open spec fn ring_next(x: int, k: int, n: int) -> int {
    if x + k < n {
        x + k
    } else {
        x + k - n
    }
}

/// While a record is being written the ring, in writing order, is what it
/// was but for the slots written so far.
pub proof fn lemma_ring_staged(c: Seq<Option<Slot>>, x: int, k: int)
    requires
        0 <= x < c.len(),
        0 <= k <= c.len(),
    ensures
        ring_order(staged(c, x, k), x) == blank(k as nat) + ring_order(c, x).skip(k),
{
    assert(ring_order(staged(c, x, k), x) =~= blank(k as nat) + ring_order(c, x).skip(k));
}

/// Once a record is committed the ring, in the writing order that starts
/// behind the record, is what was left of it, then the new header, then
/// the new record's further slots.
pub proof fn lemma_ring_committed(c: Seq<Option<Slot>>, x: int, k: int, h: Slot)
    requires
        0 <= x < c.len(),
        1 <= k <= c.len(),
    ensures
        ring_order(committed(c, x, k, h), ring_next(x, k, c.len() as int)) == ring_order(
            c,
            x,
        ).skip(k) + seq![Some(h)] + blank((k - 1) as nat),
{
    assert(ring_order(committed(c, x, k, h), ring_next(x, k, c.len() as int)) =~= ring_order(
        c,
        x,
    ).skip(k) + seq![Some(h)] + blank((k - 1) as nat));
}

/// A record committed to a ring in order leaves the ring in order, with
/// the new record as the tip of its chain. A scan then finds the new record
/// exactly if no header in a slot behind its own names it as predecessor.
pub proof fn lemma_commit_keeps_chain(
    c: Seq<Option<Slot>>,
    x: int,
    prev: Chksum,
    slot_size: nat,
    k: int,
    h: Slot,
)
    requires
        chained(c, x, prev, slot_size),
        1 <= k <= c.len(),
        h.idx == x,
        h.prev == prev,
        h.spec_next_slot(slot_size, c.len()) == ring_next(x, k, c.len() as int),
    ensures
        chained(committed(c, x, k, h), ring_next(x, k, c.len() as int), h.chksum, slot_size),
        ring_tip(committed(c, x, k, h), ring_next(x, k, c.len() as int)) == Some(h),
        scan_from(None, committed(c, x, k, h)) == Some(h) <==> unclaimed(
            committed(c, x, k, h).skip(x + 1),
            h.chksum,
        ),
{
    let after = committed(c, x, k, h);
    let next = ring_next(x, k, c.len() as int);
    let before = ring_order(c, x);
    let kept = before.skip(k);
    lemma_ring_committed(c, x, k, h);
    assert(before =~= before.take(k) + kept);
    lemma_linked_concat(before.take(k), kept);
    lemma_tip_concat(before.take(k), kept);
    let with_header = kept + seq![Some(h)];
    assert(with_header.drop_last() =~= kept);
    assert(with_header.last() == Some(h));
    lemma_blank(with_header, (k - 1) as nat);
    assert forall|i: int| 0 <= i < after.len() implies (#[trigger] after[i] matches Some(s)
        ==> s.idx == i) by {
        if i != x && !covered(x, k, c.len() as int, i) {
            assert(after[i] == c[i]);
        }
    }
    lemma_scan_of_chain(after, next);
}

/// While a record is being written over slots that do not hold the tip of
/// the ring's chain, a scan that found that tip before still finds it.
pub proof fn lemma_staged_keeps_tip(
    c: Seq<Option<Slot>>,
    x: int,
    prev: Chksum,
    slot_size: nat,
    k: int,
    t: Slot,
)
    requires
        chained(c, x, prev, slot_size),
        0 <= k <= c.len(),
        scan_from(None, c) == Some(t),
        ring_tip(c, x) == Some(t),
        !covered(x, k, c.len() as int, t.idx as int),
    ensures
        chained(staged(c, x, k), x, prev, slot_size),
        ring_tip(staged(c, x, k), x) == Some(t),
        scan_from(None, staged(c, x, k)) == Some(t),
{
    let now = staged(c, x, k);
    let before = ring_order(c, x);
    let kept = before.skip(k);
    lemma_scan_of_chain(c, x);
    lemma_ring_staged(c, x, k);
    assert(before =~= before.take(k) + kept);
    lemma_linked_concat(before.take(k), kept);
    lemma_tip_concat(before.take(k), kept);
    lemma_blank(kept, k as nat);
    let rank = if t.idx >= x {
        t.idx - x
    } else {
        t.idx + c.len() - x
    };
    assert(kept[rank - k] == Some(t));
    lemma_first_and_tip(kept);
    assert forall|i: int| 0 <= i < now.len() implies (#[trigger] now[i] matches Some(s) ==> s.idx
        == i) by {
        if !covered(x, k, c.len() as int, i) {
            assert(now[i] == c[i]);
        }
    }
    lemma_scan_of_chain(now, x);
    let behind = c.skip(t.idx + 1);
    let behind_now = now.skip(t.idx + 1);
    assert forall|i: int| 0 <= i < behind_now.len() implies (#[trigger] behind_now[i] matches Some(
        s,
    ) ==> s.prev != t.chksum) by {
        if behind_now[i] is Some {
            assert(behind_now[i] == behind[i]);
        }
    }
}

} // verus!
