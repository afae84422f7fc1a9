//! The 31-bit chained checksum that heads every record.

use vstd::prelude::*;

verus! {

/// Mask that keeps the 31 hash bits of a checksum.
pub const CHKSUM_MASK: u32 = 0x7FFF_FFFF;

/// The bit of a stored first byte that tells a written slot from erased flash.
pub const BYTE_MASK: u8 = 0x80;

/// The four bytes of `v`, most significant first.
pub open spec fn be_bytes(v: u32) -> Seq<u8> {
    seq![
        (v / 0x100_0000) as u8,
        (v / 0x1_0000 % 0x100) as u8,
        (v / 0x100 % 0x100) as u8,
        (v % 0x100) as u8,
    ]
}

/// The number whose big-endian bytes are the first four elements of `b`.
pub open spec fn be_value(b: Seq<u8>) -> u32
    recommends
        b.len() >= 4,
{
    (b[0] * 0x100_0000 + b[1] * 0x1_0000 + b[2] * 0x100 + b[3]) as u32
}

/// Big-endian bytes and value are inverse to each other.
pub proof fn lemma_be_round_trip(v: u32)
    ensures
        be_bytes(v).len() == 4,
        be_value(be_bytes(v)) == v,
{
    let hi = v / 0x100_0000;
    let mid_hi = v / 0x1_0000 % 0x100;
    let mid_lo = v / 0x100 % 0x100;
    let lo = v % 0x100;
    assert(hi < 0x100 && v == hi * 0x100_0000 + mid_hi * 0x1_0000 + mid_lo * 0x100 + lo)
        by (bit_vector)
        requires
            hi == v / 0x100_0000u32,
            mid_hi == v / 0x1_0000u32 % 0x100u32,
            mid_lo == v / 0x100u32 % 0x100u32,
            lo == v % 0x100u32,
    ;
}

/// Four bytes are the big-endian bytes of their value.
pub proof fn lemma_be_bytes_of_value(b: Seq<u8>)
    requires
        b.len() == 4,
    ensures
        be_bytes(be_value(b)) == b,
{
    let v = be_value(b);
    let b0 = b[0];
    let b1 = b[1];
    let b2 = b[2];
    let b3 = b[3];
    assert(v == b0 * 0x100_0000 + b1 * 0x1_0000 + b2 * 0x100 + b3);
    assert((v / 0x100_0000) as u8 == b0 && (v / 0x1_0000 % 0x100) as u8 == b1 && (v / 0x100
        % 0x100) as u8 == b2 && (v % 0x100) as u8 == b3) by (bit_vector)
        requires
            v == (b0 as u32) * 0x100_0000u32 + (b1 as u32) * 0x1_0000u32 + (b2 as u32) * 0x100u32
                + (b3 as u32),
    ;
    assert(be_bytes(v) =~= b);
}

/// The four bytes of `v`, most significant first.
pub fn u32_to_be(v: u32) -> (r: [u8; 4])
    ensures
        r@ == be_bytes(v),
{
    let b0 = (v >> 24) as u8;
    let b1 = ((v >> 16) & 0xff) as u8;
    let b2 = ((v >> 8) & 0xff) as u8;
    let b3 = (v & 0xff) as u8;
    assert(b0 == (v / 0x100_0000) as u8 && b1 == (v / 0x1_0000 % 0x100) as u8 && b2 == (v / 0x100
        % 0x100) as u8 && b3 == (v % 0x100) as u8) by (bit_vector)
        requires
            b0 == (v >> 24) as u8,
            b1 == ((v >> 16) & 0xff) as u8,
            b2 == ((v >> 8) & 0xff) as u8,
            b3 == (v & 0xff) as u8,
    ;
    let r = [b0, b1, b2, b3];
    assert(r@ =~= be_bytes(v));
    r
}

/// The number that four bytes spell, most significant first.
pub fn u32_from_be(b0: u8, b1: u8, b2: u8, b3: u8) -> (v: u32)
    ensures
        v == be_value(seq![b0, b1, b2, b3]),
{
    let v = ((b0 as u32) << 24) | ((b1 as u32) << 16) | ((b2 as u32) << 8) | (b3 as u32);
    assert(v == (b0 * 0x100_0000 + b1 * 0x1_0000 + b2 * 0x100 + b3) as u32) by (bit_vector)
        requires
            v == ((b0 as u32) << 24) | ((b1 as u32) << 16) | ((b2 as u32) << 8) | (b3 as u32),
    ;
    v
}

/// One round of Bernstein's hash in its XOR form: `h * 33 ^ c` on 32 bits.
pub open spec fn djb2_step(h: u32, c: u8) -> u32 {
    (((h * 33) % 0x1_0000_0000) as u32) ^ (c as u32)
}

/// Bernstein's hash of `bytes`, started from `init`.
pub open spec fn djb2_fold(init: u32, bytes: Seq<u8>) -> u32
    decreases bytes.len(),
{
    if bytes.len() == 0 {
        init
    } else {
        djb2_step(djb2_fold(init, bytes.drop_last()), bytes.last())
    }
}

/// Taken on trust from the `djb2` crate: `djb2::hash` returns Bernstein's
/// hash of the bytes in its XOR form, each round multiplying the state by
/// 33 on 32 bits and XOR-ing the next byte in, started from 5381.
pub assume_specification[ djb2::hash ](bytes: &[u8]) -> (h: u32)
    ensures
        h == djb2_fold(5381, bytes@),
;

/// Taken on trust from the `djb2` crate: `djb2::hash_with_initial` runs
/// the same rounds over the bytes, started from the state it is given, so
/// that it continues a hash where an earlier call left off.
pub assume_specification[ djb2::hash_with_initial ](init: u32, bytes: &[u8]) -> (h: u32)
    ensures
        h == djb2_fold(init, bytes@),
;

/// A checksum as it is stored: 31 hash bits below a marker bit that is zero
/// in every checksum the library computes.
#[derive(Debug, Clone, Copy, PartialEq, Eq, Structural)]
pub struct Chksum(pub u32);

impl Chksum {
    /// Bytes a checksum takes on the medium.
    pub const SIZE: usize = 4;

    /// The checksum of `data` when it follows a record whose checksum is `prev`.
    pub open spec fn spec_hash(prev: Chksum, data: Seq<u8>) -> Chksum {
        Chksum((djb2_fold(djb2_fold(5381, be_bytes(prev.0)), data) % 0x8000_0000) as u32)
    }

    /// Whether the marker bit is clear.
    pub open spec fn spec_is_valid(&self) -> bool {
        self.0 < 0x8000_0000
    }

    /// The all-zero checksum, which the first record of a chain names as its
    /// predecessor.
    pub fn zero() -> (r: Self)
        ensures
            r == Chksum(0),
    {
        Chksum(0)
    }

    /// Hashes the big-endian bytes of `prev` followed by `data` and clears
    /// the marker bit.
    pub fn hash(prev: Chksum, data: &[u8]) -> (r: Self)
        ensures
            r == Self::spec_hash(prev, data@),
            r.spec_is_valid(),
    {
        let head = prev.to_bytes();
        let seed = djb2::hash(head.as_slice());
        let full = djb2::hash_with_initial(seed, data);
        let low = full & CHKSUM_MASK;
        assert(low == full % 0x8000_0000) by (bit_vector)
            requires
                low == full & 0x7FFF_FFFFu32,
        ;
        Chksum(low)
    }

    /// Whether the marker bit is clear, as it is for every checksum that
    /// `hash` returns and never for erased flash.
    #[verifier::when_used_as_spec(spec_is_valid)]
    pub fn is_valid(&self) -> (r: bool)
        ensures
            r == self.spec_is_valid(),
    {
        let raw = self.0;
        let value = raw & !CHKSUM_MASK;
        assert((value == 0) == (raw < 0x8000_0000u32)) by (bit_vector)
            requires
                value == raw & !0x7FFF_FFFFu32,
        ;
        value == 0
    }

    /// The checksum as four bytes, most significant first.
    pub fn to_bytes(&self) -> (r: [u8; 4])
        ensures
            r@ == be_bytes(self.0),
    {
        u32_to_be(self.0)
    }

    /// Reads a checksum back from its four bytes.
    pub fn from_bytes(bytes: [u8; 4]) -> (r: Self)
        ensures
            r == Chksum(be_value(bytes@)),
    {
        let v = u32_from_be(bytes[0], bytes[1], bytes[2], bytes[3]);
        assert(bytes@ =~= seq![bytes[0], bytes[1], bytes[2], bytes[3]]);
        Chksum(v)
    }
}

} // verus!
