//! A power-fail-safe, wear-levelling save-slot store for small flash parts.
//!
//! The store keeps one opaque blob at a time in a ring of fixed-size slots.
//! Every record starts with a twelve byte header that chains it to its
//! predecessor, and the header is written last, so that an interrupted write
//! never hides the record that was committed before it.
//!
//! - [`chksum`], and [`Slot`] here: the checksum and the header of a record.
//! - [`layout`]: how many bytes and slots a payload takes.
//! - [`storage`]: the block device that the store is built on, and the store.
//! - [`mock`]: block devices in memory.
//! - [`model`]: what a device does to its contents, what a scan finds, and
//!   the operations that an append is made of.
//! - [`ring`], [`commit`]: the proofs about chains of records and about
//!   what a commit does to the medium.
//! - [`laws`], [`footprint`], [`cost`]: what holds of the store's operations
//!   taken together, which bytes a commit touches, and what each operation
//!   costs the device.

pub mod chksum;
pub mod commit;
pub mod cost;
pub mod footprint;
pub mod laws;
pub mod layout;
pub mod mock;
pub mod model;
pub mod ring;
pub mod storage;

use crate::chksum::{
    be_bytes, be_value, lemma_be_bytes_of_value, lemma_be_round_trip, u32_from_be, u32_to_be,
    Chksum,
};
use crate::layout::{continuation_slots, lemma_slots_used, slots_used, used_bytes, HEADER_SIZE};
use vstd::arithmetic::div_mod::{
    lemma_add_mod_noop, lemma_fundamental_div_mod, lemma_fundamental_div_mod_converse,
    lemma_mod_bound,
};
use vstd::prelude::*;

verus! {

/// The header of a record, together with the index of the slot it starts in.
#[derive(Debug, Clone, Copy, PartialEq, Eq, Structural)]
pub struct Slot {
    pub idx: usize,
    pub prev: Chksum,
    pub chksum: Chksum,
    pub len: u32,
}

impl Slot {
    /// Two checksums and one length field. The first byte of the stored
    /// header is the high byte of the record's own checksum, so its high bit
    /// tells a written slot from an erased one.
    pub const HEADER_SIZE: usize = 12;

    /// The header of the record that holds `data` after a record whose
    /// checksum is `prev`.
    pub open spec fn spec_create(idx: usize, prev: Chksum, data: Seq<u8>) -> Slot {
        Slot { idx, prev, chksum: Chksum::spec_hash(prev, data), len: data.len() as u32 }
    }

    /// Whether both checksums have a clear marker bit.
    pub open spec fn spec_is_valid(&self) -> bool {
        self.prev.spec_is_valid() && self.chksum.spec_is_valid()
    }

    /// Whether this record names `other` as its predecessor.
    pub open spec fn spec_is_update_to(&self, other: &Slot) -> bool {
        self.prev == other.chksum
    }

    /// The stored form of the header: checksum, length, predecessor's
    /// checksum, each as four big-endian bytes.
    pub open spec fn header_bytes(&self) -> Seq<u8> {
        be_bytes(self.chksum.0) + be_bytes(self.len) + be_bytes(self.prev.0)
    }

    /// The header that the first twelve of `bytes` spell, for slot `idx`.
    pub open spec fn parse(idx: usize, bytes: Seq<u8>) -> Slot
        recommends
            bytes.len() >= HEADER_SIZE,
    {
        Slot {
            idx,
            chksum: Chksum(be_value(bytes.subrange(0, 4))),
            len: be_value(bytes.subrange(4, 8)),
            prev: Chksum(be_value(bytes.subrange(8, 12))),
        }
    }

    /// The index of the first slot after this record, in a ring of
    /// `slot_count` slots of `slot_size` bytes.
    pub open spec fn spec_next_slot(&self, slot_size: nat, slot_count: nat) -> nat
        recommends
            slot_size > HEADER_SIZE,
            slot_count > 0,
    {
        ((self.idx + slots_used(slot_size, self.len as nat)) % (slot_count as int)) as nat
    }

    /// Builds the header for `data` in slot `idx`, chained to `prev`.
    pub fn create(idx: usize, prev: Chksum, data: &[u8]) -> (r: Self)
        requires
            data@.len() <= u32::MAX,
        ensures
            r == Self::spec_create(idx, prev, data@),
            r.chksum.spec_is_valid(),
    {
        let chksum = Chksum::hash(prev, data);
        let len = data.len() as u32;
        Slot { idx, prev, chksum, len }
    }

    /// Whether both checksums have a clear marker bit. A header read from
    /// the medium means something only if this holds.
    #[verifier::when_used_as_spec(spec_is_valid)]
    pub fn is_valid(&self) -> (r: bool)
        ensures
            r == self.spec_is_valid(),
    {
        self.prev.is_valid() && self.chksum.is_valid()
    }

    /// Whether this record names `other` as its predecessor: the link of
    /// the chain.
    #[verifier::when_used_as_spec(spec_is_update_to)]
    pub fn is_update_to(&self, other: &Self) -> (r: bool)
        ensures
            r == self.spec_is_update_to(other),
    {
        self.prev == other.chksum
    }

    /// Bytes that the record takes on the medium, or `usize::MAX` where
    /// that number does not fit.
    pub fn used_bytes<const SLOT_SIZE: usize>(&self) -> (r: usize)
        requires
            SLOT_SIZE > HEADER_SIZE,
        ensures
            r == if used_bytes(SLOT_SIZE as nat, self.len as nat) <= usize::MAX {
                used_bytes(SLOT_SIZE as nat, self.len as nat)
            } else {
                usize::MAX as nat
            },
    {
        let total: u64 = HEADER_SIZE as u64 + self.len as u64 + self.continuations::<SLOT_SIZE>();
        if total > usize::MAX as u64 {
            usize::MAX
        } else {
            total as usize
        }
    }

    /// The index of the first slot that is free after this record.
    pub fn next_slot<const SLOT_SIZE: usize, const SLOT_COUNT: usize>(&self) -> (r: usize)
        requires
            SLOT_SIZE > HEADER_SIZE,
            SLOT_COUNT > 0,
        ensures
            r == self.spec_next_slot(SLOT_SIZE as nat, SLOT_COUNT as nat),
            r < SLOT_COUNT,
    {
        let count = SLOT_COUNT as u64;
        let slots: u64 = 1 + self.continuations::<SLOT_SIZE>();
        let start = (self.idx % SLOT_COUNT) as u64;
        let step = slots % count;
        let r = if start >= count - step {
            start - (count - step)
        } else {
            start + step
        };
        proof {
            lemma_slots_used(SLOT_SIZE as nat, self.len as nat);
            lemma_add_mod_noop(self.idx as int, slots as int, count as int);
            let wraps = if start >= count - step {
                1int
            } else {
                0int
            };
            lemma_fundamental_div_mod_converse(start + step, count as int, wraps, r as int);
        }
        r as usize
    }

    /// Slots that the record takes beyond its first.
    fn continuations<const SLOT_SIZE: usize>(&self) -> (r: u64)
        requires
            SLOT_SIZE > HEADER_SIZE,
        ensures
            r == continuation_slots(SLOT_SIZE as nat, self.len as nat),
            r <= self.len,
    {
        let len = self.len as u64;
        let first = (SLOT_SIZE - HEADER_SIZE) as u64;
        if len <= first {
            0
        } else {
            let rest = len - first;
            let per = (SLOT_SIZE - 1) as u64;
            let whole = rest / per;
            proof {
                lemma_fundamental_div_mod(rest as int, per as int);
                lemma_mod_bound(rest as int, per as int);
                assert(whole <= rest) by (nonlinear_arith)
                    requires
                        rest == per * whole + rest % per,
                        rest % per >= 0,
                        per >= 1,
                        whole >= 0,
                ;
            }
            if rest % per == 0 {
                whole
            } else {
                whole + 1
            }
        }
    }

    /// The header as it is stored.
    pub fn to_bytes(&self) -> (r: [u8; HEADER_SIZE])
        ensures
            r@ == self.header_bytes(),
    {
        let c = self.chksum.to_bytes();
        let l = u32_to_be(self.len);
        let p = self.prev.to_bytes();
        let r = [c[0], c[1], c[2], c[3], l[0], l[1], l[2], l[3], p[0], p[1], p[2], p[3]];
        assert(r@ =~= self.header_bytes());
        r
    }

    /// Reads a header for slot `idx` from its stored form. Every twelve
    /// bytes spell some header; test it with `is_valid`.
    pub fn from_bytes(idx: usize, bytes: [u8; HEADER_SIZE]) -> (r: Self)
        ensures
            r == Self::parse(idx, bytes@),
    {
        let chksum = Chksum(u32_from_be(bytes[0], bytes[1], bytes[2], bytes[3]));
        let len = u32_from_be(bytes[4], bytes[5], bytes[6], bytes[7]);
        let prev = Chksum(u32_from_be(bytes[8], bytes[9], bytes[10], bytes[11]));
        assert(bytes@.subrange(0, 4) =~= seq![bytes[0], bytes[1], bytes[2], bytes[3]]);
        assert(bytes@.subrange(4, 8) =~= seq![bytes[4], bytes[5], bytes[6], bytes[7]]);
        assert(bytes@.subrange(8, 12) =~= seq![bytes[8], bytes[9], bytes[10], bytes[11]]);
        Slot { idx, prev, chksum, len }
    }
}

/// A header that is written and read back is the same header.
pub proof fn lemma_header_round_trip(slot: Slot)
    ensures
        slot.header_bytes().len() == HEADER_SIZE,
        Slot::parse(slot.idx, slot.header_bytes()) == slot,
{
    lemma_be_round_trip(slot.chksum.0);
    lemma_be_round_trip(slot.len);
    lemma_be_round_trip(slot.prev.0);
    let b = slot.header_bytes();
    assert(b.subrange(0, 4) =~= be_bytes(slot.chksum.0));
    assert(b.subrange(4, 8) =~= be_bytes(slot.len));
    assert(b.subrange(8, 12) =~= be_bytes(slot.prev.0));
}

/// Twelve bytes that are read as a header and written back are the same
/// twelve bytes.
pub proof fn lemma_parse_round_trip(idx: usize, bytes: Seq<u8>)
    requires
        bytes.len() == HEADER_SIZE,
    ensures
        Slot::parse(idx, bytes).header_bytes() == bytes,
{
    lemma_be_bytes_of_value(bytes.subrange(0, 4));
    lemma_be_bytes_of_value(bytes.subrange(4, 8));
    lemma_be_bytes_of_value(bytes.subrange(8, 12));
    assert(Slot::parse(idx, bytes).header_bytes() =~= bytes);
}

} // verus!
