//! The persisted prime record and its fixed-width binary encoding.
//!
//! A record is the pair `(p, nextval)`: a discovered prime and the next
//! multiple of `p` that sieving still has to mark. In the binary store
//! each record occupies exactly sixteen bytes, both fields little-endian,
//! so the `n`th record always starts at byte `16 * n`.

use vstd::prelude::*;
use crate::arith::divides;

verus! {

/// One store entry: a discovered prime `p` and `nextval`, the next
/// multiple of `p` still to be marked as composite.
#[derive(Clone, Copy, PartialEq, Eq, Structural, Debug)]
pub struct PrimeRecord {
    pub p: u64,
    pub nextval: u64,
}

/// Width in bytes of one encoded record.
pub const RECORD_WIDTH: usize = 16;

/// The record invariant: `nextval` is a multiple of `p` strictly greater
/// than `p`. It holds from the moment a record is created and is kept by
/// every rewrite.
pub open spec fn record_wf(r: PrimeRecord) -> bool {
    &&& divides(r.p as int, r.nextval as int)
    &&& r.nextval > r.p
}

/// The eight bytes of `x`, least significant first.
pub open spec fn u64_le_bytes(x: u64) -> Seq<u8> {
    seq![
        (x & 0xff) as u8,
        ((x >> 8) & 0xff) as u8,
        ((x >> 16) & 0xff) as u8,
        ((x >> 24) & 0xff) as u8,
        ((x >> 32) & 0xff) as u8,
        ((x >> 40) & 0xff) as u8,
        ((x >> 48) & 0xff) as u8,
        ((x >> 56) & 0xff) as u8,
    ]
}

/// The sixteen bytes that hold one record: `p` first, then `nextval`.
pub open spec fn record_bytes(r: PrimeRecord) -> Seq<u8> {
    u64_le_bytes(r.p) + u64_le_bytes(r.nextval)
}

/// Each masked byte of a 64-bit value fits in eight bits.
proof fn lemma_mask_bound(x: u64)
    by (bit_vector)
    ensures
        x & 0xff < 256,
        (x >> 8) & 0xff < 256,
        (x >> 16) & 0xff < 256,
        (x >> 24) & 0xff < 256,
        (x >> 32) & 0xff < 256,
        (x >> 40) & 0xff < 256,
        (x >> 48) & 0xff < 256,
        (x >> 56) & 0xff < 256,
{
}

/// Appends the eight-byte encoding of `x` to `out`.
pub fn push_u64_le(out: &mut Vec<u8>, x: u64)
    ensures
        final(out)@ == old(out)@ + u64_le_bytes(x),
{
    proof {
        lemma_mask_bound(x);
    }
    out.push((x & 0xff) as u8);
    out.push(((x >> 8) & 0xff) as u8);
    out.push(((x >> 16) & 0xff) as u8);
    out.push(((x >> 24) & 0xff) as u8);
    out.push(((x >> 32) & 0xff) as u8);
    out.push(((x >> 40) & 0xff) as u8);
    out.push(((x >> 48) & 0xff) as u8);
    out.push(((x >> 56) & 0xff) as u8);
    proof {
        assert(out@ =~= old(out)@ + u64_le_bytes(x));
    }
}

/// Reassembling a 64-bit value from its eight bytes inverts the
/// byte-by-byte encoding.
proof fn lemma_u64_le_decode(x: u64, b0: u8, b1: u8, b2: u8, b3: u8, b4: u8, b5: u8, b6: u8, b7: u8)
    by (bit_vector)
    requires
        x == (b0 as u64) | ((b1 as u64) << 8) | ((b2 as u64) << 16) | ((b3 as u64) << 24)
            | ((b4 as u64) << 32) | ((b5 as u64) << 40) | ((b6 as u64) << 48)
            | ((b7 as u64) << 56),
    ensures
        (x & 0xff) as u8 == b0,
        ((x >> 8) & 0xff) as u8 == b1,
        ((x >> 16) & 0xff) as u8 == b2,
        ((x >> 24) & 0xff) as u8 == b3,
        ((x >> 32) & 0xff) as u8 == b4,
        ((x >> 40) & 0xff) as u8 == b5,
        ((x >> 48) & 0xff) as u8 == b6,
        ((x >> 56) & 0xff) as u8 == b7,
{
}

/// Two values with the same byte encoding are the same value: the
/// encoding loses nothing.
pub proof fn lemma_u64_le_bytes_injective(x: u64, y: u64)
    requires
        u64_le_bytes(x) == u64_le_bytes(y),
    ensures
        x == y,
{
    assert(u64_le_bytes(x)[0] == u64_le_bytes(y)[0]);
    assert(u64_le_bytes(x)[1] == u64_le_bytes(y)[1]);
    assert(u64_le_bytes(x)[2] == u64_le_bytes(y)[2]);
    assert(u64_le_bytes(x)[3] == u64_le_bytes(y)[3]);
    assert(u64_le_bytes(x)[4] == u64_le_bytes(y)[4]);
    assert(u64_le_bytes(x)[5] == u64_le_bytes(y)[5]);
    assert(u64_le_bytes(x)[6] == u64_le_bytes(y)[6]);
    assert(u64_le_bytes(x)[7] == u64_le_bytes(y)[7]);
    assert(x == y) by (bit_vector)
        requires
            (x & 0xff) as u8 == (y & 0xff) as u8,
            ((x >> 8) & 0xff) as u8 == ((y >> 8) & 0xff) as u8,
            ((x >> 16) & 0xff) as u8 == ((y >> 16) & 0xff) as u8,
            ((x >> 24) & 0xff) as u8 == ((y >> 24) & 0xff) as u8,
            ((x >> 32) & 0xff) as u8 == ((y >> 32) & 0xff) as u8,
            ((x >> 40) & 0xff) as u8 == ((y >> 40) & 0xff) as u8,
            ((x >> 48) & 0xff) as u8 == ((y >> 48) & 0xff) as u8,
            ((x >> 56) & 0xff) as u8 == ((y >> 56) & 0xff) as u8,
    ;
}

/// Two records with the same sixteen bytes are the same record.
pub proof fn lemma_record_bytes_injective(r1: PrimeRecord, r2: PrimeRecord)
    requires
        record_bytes(r1) == record_bytes(r2),
    ensures
        r1 == r2,
{
    assert(u64_le_bytes(r1.p) =~= record_bytes(r1).subrange(0, 8));
    assert(u64_le_bytes(r1.nextval) =~= record_bytes(r1).subrange(8, 16));
    assert(u64_le_bytes(r2.p) =~= record_bytes(r2).subrange(0, 8));
    assert(u64_le_bytes(r2.nextval) =~= record_bytes(r2).subrange(8, 16));
    lemma_u64_le_bytes_injective(r1.p, r2.p);
    lemma_u64_le_bytes_injective(r1.nextval, r2.nextval);
}

/// Reads the little-endian 64-bit value whose eight bytes start at `off`.
/// The result is pinned down by its encoding: re-encoding it gives back
/// exactly the bytes that were read.
pub fn read_u64_le(bytes: &Vec<u8>, off: usize) -> (x: u64)
    requires
        off + 8 <= bytes@.len(),
    ensures
        u64_le_bytes(x) == bytes@.subrange(off as int, off as int + 8),
{
    let n = bytes.len();
    proof {
        assert(off + 8 <= n <= usize::MAX);
    }
    let b0 = bytes[off];
    let b1 = bytes[off + 1];
    let b2 = bytes[off + 2];
    let b3 = bytes[off + 3];
    let b4 = bytes[off + 4];
    let b5 = bytes[off + 5];
    let b6 = bytes[off + 6];
    let b7 = bytes[off + 7];
    let x = (b0 as u64) | ((b1 as u64) << 8) | ((b2 as u64) << 16) | ((b3 as u64) << 24)
        | ((b4 as u64) << 32) | ((b5 as u64) << 40) | ((b6 as u64) << 48) | ((b7 as u64) << 56);
    proof {
        lemma_u64_le_decode(x, b0, b1, b2, b3, b4, b5, b6, b7);
        assert(u64_le_bytes(x) =~= bytes@.subrange(off as int, off as int + 8));
    }
    x
}

} // verus!
