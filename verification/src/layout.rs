//! How a record is laid out over the slots of the ring: how many bytes and
//! slots a payload takes, and where each of its bytes lands.

use vstd::arithmetic::div_mod::{lemma_fundamental_div_mod, lemma_mod_bound};
use vstd::prelude::*;

verus! {

/// Bytes of the header that starts every record: two checksums and a length.
pub const HEADER_SIZE: usize = 12;

/// The least `q` with `q * b >= a`.
pub open spec fn ceil_div(a: nat, b: nat) -> nat
    recommends
        b > 0,
{
    if a % b == 0 {
        a / b
    } else {
        a / b + 1
    }
}

/// Slots that a payload of `len` bytes needs beyond the one that holds its
/// header. The first slot takes `slot_size - HEADER_SIZE` payload bytes, each
/// further one `slot_size - 1`.
pub open spec fn continuation_slots(slot_size: nat, len: nat) -> nat
    recommends
        slot_size > HEADER_SIZE,
{
    if len <= slot_size - HEADER_SIZE {
        0
    } else {
        ceil_div((len - (slot_size - HEADER_SIZE)) as nat, (slot_size - 1) as nat)
    }
}

/// Bytes that a record with `len` payload bytes takes on the medium: the
/// header, the payload, and one reserved byte at the start of every
/// continuation slot.
pub open spec fn used_bytes(slot_size: nat, len: nat) -> nat
    recommends
        slot_size > HEADER_SIZE,
{
    HEADER_SIZE as nat + len + continuation_slots(slot_size, len)
}

/// Slots that a record with `len` payload bytes takes.
pub open spec fn slots_used(slot_size: nat, len: nat) -> nat
    recommends
        slot_size > HEADER_SIZE,
{
    ceil_div(used_bytes(slot_size, len), slot_size)
}

/// The longest payload that `slot_count` slots can hold as one record.
pub open spec fn max_payload(slot_size: nat, slot_count: nat) -> nat
    recommends
        slot_size > HEADER_SIZE,
        slot_count > 0,
{
    ((slot_size - HEADER_SIZE) + (slot_count - 1) * (slot_size - 1)) as nat
}

/// `ceil_div(a, b)` is the one `q` with `(q - 1) * b < a <= q * b`.
pub proof fn lemma_ceil_div_bounds(a: nat, b: nat)
    requires
        b > 0,
    ensures
        (ceil_div(a, b) - 1) * b < a || a == 0,
        a <= ceil_div(a, b) * b,
        a == 0 ==> ceil_div(a, b) == 0,
        a > 0 ==> ceil_div(a, b) >= 1,
{
    lemma_fundamental_div_mod(a as int, b as int);
    lemma_mod_bound(a as int, b as int);
    let q = a as int / b as int;
    let r = a as int % b as int;
    assert(a == b * q + r);
    assert(b * q == q * b) by (nonlinear_arith);
    assert((q + 1) * b == q * b + b) by (nonlinear_arith);
    assert((q - 1) * b == q * b - b) by (nonlinear_arith);
    if a > 0 && q == 0 {
        assert(q * b == 0) by (nonlinear_arith)
            requires
                q == 0,
        ;
    }
    if a == 0 {
        assert(q == 0) by (nonlinear_arith)
            requires
                b * q + r == 0,
                0 <= r,
                b > 0,
                q >= 0,
        ;
    }
    assert(q >= 0) by (nonlinear_arith)
        requires
            a == b * q + r,
            0 <= r < b,
            b > 0,
            a >= 0,
    ;
}

/// A `q` with `(q - 1) * b < a <= q * b` is `ceil_div(a, b)`.
pub proof fn lemma_ceil_div_unique(a: nat, b: nat, q: nat)
    requires
        b > 0,
        a <= q * b,
        q > 0 ==> (q - 1) * b < a,
    ensures
        ceil_div(a, b) == q,
{
    lemma_ceil_div_bounds(a, b);
    let c = ceil_div(a, b);
    if c < q {
        assert(c * b <= (q - 1) * b) by (nonlinear_arith)
            requires
                c <= q - 1,
                b > 0,
        ;
    }
    if c > q {
        assert(q * b <= (c - 1) * b) by (nonlinear_arith)
            requires
                q <= c - 1,
                b > 0,
        ;
    }
}

/// A record takes its header's slot and its continuation slots, no more.
pub proof fn lemma_slots_used(slot_size: nat, len: nat)
    requires
        slot_size > HEADER_SIZE,
    ensures
        slots_used(slot_size, len) == 1 + continuation_slots(slot_size, len),
{
    let first = (slot_size - HEADER_SIZE) as nat;
    let per = (slot_size - 1) as nat;
    let c = continuation_slots(slot_size, len);
    let used = used_bytes(slot_size, len);
    if len <= first {
        assert(1 * slot_size == slot_size) by (nonlinear_arith);
        assert((1 - 1) * slot_size == 0) by (nonlinear_arith);
        lemma_ceil_div_unique(used, slot_size, 1);
    } else {
        let rest = (len - first) as nat;
        lemma_ceil_div_bounds(rest, per);
        assert(used == slot_size + rest + c);
        assert((c + 1) * slot_size == slot_size + c * per + c) by (nonlinear_arith)
            requires
                per == slot_size - 1,
        ;
        assert(c * slot_size == (c - 1) * per + c + slot_size - 1) by (nonlinear_arith)
            requires
                per == slot_size - 1,
        ;
        lemma_ceil_div_unique(used, slot_size, c + 1);
    }
}

/// A payload fits in the ring as one record exactly when it is no longer
/// than `max_payload`.
pub proof fn lemma_fits_iff_max_payload(slot_size: nat, slot_count: nat, len: nat)
    requires
        slot_size > HEADER_SIZE,
        slot_count > 0,
    ensures
        slots_used(slot_size, len) <= slot_count <==> len <= max_payload(slot_size, slot_count),
{
    lemma_slots_used(slot_size, len);
    let first = (slot_size - HEADER_SIZE) as nat;
    let per = (slot_size - 1) as nat;
    let c = continuation_slots(slot_size, len);
    let room = (slot_count - 1) as nat;
    if len <= first {
        assert(room * per >= 0) by (nonlinear_arith)
            requires
                room >= 0,
                per >= 0,
        ;
    } else {
        let rest = (len - first) as nat;
        lemma_ceil_div_bounds(rest, per);
        if c <= room {
            assert(c * per <= room * per) by (nonlinear_arith)
                requires
                    c <= room,
                    per > 0,
            ;
        } else {
            assert(room * per <= (c - 1) * per) by (nonlinear_arith)
                requires
                    room <= c - 1,
                    per > 0,
            ;
        }
    }
}

} // verus!
