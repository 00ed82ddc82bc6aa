//! Big-endian integer fields inside byte buffers.

use vstd::prelude::*;

verus! {

/// Value of two big-endian bytes.
pub open spec fn be16(s: Seq<u8>) -> nat
    recommends
        s.len() == 2,
{
    (s[0] * 256 + s[1]) as nat
}

/// Value of four big-endian bytes.
pub open spec fn be32(s: Seq<u8>) -> nat
    recommends
        s.len() == 4,
{
    (((s[0] * 256 + s[1]) * 256 + s[2]) * 256 + s[3]) as nat
}

/// Value of eight big-endian bytes.
pub open spec fn be64(s: Seq<u8>) -> nat
    recommends
        s.len() == 8,
{
    (((((((s[0] * 256 + s[1]) * 256 + s[2]) * 256 + s[3]) * 256 + s[4]) * 256 + s[5]) * 256 + s[6])
        * 256 + s[7]) as nat
}

/// The two big-endian bytes of a 16-bit value.
pub open spec fn u16_bytes(x: u16) -> Seq<u8> {
    seq![((x >> 8) & 0xff) as u8, (x & 0xff) as u8]
}

/// The four big-endian bytes of a 32-bit value.
pub open spec fn u32_bytes(x: u32) -> Seq<u8> {
    seq![
        ((x >> 24) & 0xff) as u8,
        ((x >> 16) & 0xff) as u8,
        ((x >> 8) & 0xff) as u8,
        (x & 0xff) as u8,
    ]
}

/// The eight big-endian bytes of a 64-bit value.
pub open spec fn u64_bytes(x: u64) -> Seq<u8> {
    seq![
        ((x >> 56) & 0xff) as u8,
        ((x >> 48) & 0xff) as u8,
        ((x >> 40) & 0xff) as u8,
        ((x >> 32) & 0xff) as u8,
        ((x >> 24) & 0xff) as u8,
        ((x >> 16) & 0xff) as u8,
        ((x >> 8) & 0xff) as u8,
        (x & 0xff) as u8,
    ]
}

pub proof fn lemma_be16_bytes(x: u16)
    ensures
        u16_bytes(x).len() == 2,
        be16(u16_bytes(x)) == x,
{
    assert(((x >> 8) & 0xff) < 256 && (x & 0xff) < 256 && ((x >> 8) & 0xff) * 256 + (x & 0xff)
        == x) by (bit_vector);
}

pub proof fn lemma_be32_bytes(x: u32)
    ensures
        u32_bytes(x).len() == 4,
        be32(u32_bytes(x)) == x,
{
    assert((((x >> 24) & 0xff) * 256 + ((x >> 16) & 0xff)) * 256 + ((x >> 8) & 0xff) == (x >> 8)
        && ((x >> 24) & 0xff) < 256 && ((x >> 16) & 0xff) < 256 && ((x >> 8) & 0xff) < 256 && (x
        & 0xff) < 256 && (x >> 8) * 256 + (x & 0xff) == x) by (bit_vector);
}

pub proof fn lemma_be64_bytes(x: u64)
    ensures
        u64_bytes(x).len() == 8,
        be64(u64_bytes(x)) == x,
{
    assert(((((((((x >> 56) & 0xff) * 256 + ((x >> 48) & 0xff)) * 256 + ((x >> 40) & 0xff)) * 256
        + ((x >> 32) & 0xff)) * 256 + ((x >> 24) & 0xff)) * 256 + ((x >> 16) & 0xff)) * 256 + ((x
        >> 8) & 0xff)) == (x >> 8) && ((x >> 56) & 0xff) < 256 && ((x >> 48) & 0xff) < 256 && ((x
        >> 40) & 0xff) < 256 && ((x >> 32) & 0xff) < 256 && ((x >> 24) & 0xff) < 256 && ((x >> 16)
        & 0xff) < 256 && ((x >> 8) & 0xff) < 256 && (x & 0xff) < 256 && (x >> 8) * 256 + (x
        & 0xff) == x) by (bit_vector);
}

/// Append a 16-bit value, big-endian.
pub fn push_u16(out: &mut Vec<u8>, x: u16)
    ensures
        final(out)@ == old(out)@ + u16_bytes(x),
        be16(final(out)@.skip(old(out)@.len() as int)) == x,
{
    let b0 = ((x >> 8) & 0xff) as u8;
    let b1 = (x & 0xff) as u8;
    proof {
        assert(((x >> 8) & 0xff) < 256 && (x & 0xff) < 256 && ((x >> 8) & 0xff) * 256 + (x & 0xff)
            == x) by (bit_vector);
    }
    out.push(b0);
    out.push(b1);
    proof {
        assert(out@.skip(old(out)@.len() as int) =~= seq![b0, b1]);
        assert(out@ =~= old(out)@ + u16_bytes(x));
        lemma_be16_bytes(x);
    }
}

/// Append a 32-bit value, big-endian.
pub fn push_u32(out: &mut Vec<u8>, x: u32)
    ensures
        final(out)@ == old(out)@ + u32_bytes(x),
        be32(final(out)@.skip(old(out)@.len() as int)) == x,
{
    let b0 = ((x >> 24) & 0xff) as u8;
    let b1 = ((x >> 16) & 0xff) as u8;
    let b2 = ((x >> 8) & 0xff) as u8;
    let b3 = (x & 0xff) as u8;
    proof {
        assert((((x >> 24) & 0xff) * 256 + ((x >> 16) & 0xff)) * 256 + ((x >> 8) & 0xff) == (x
            >> 8) && ((x >> 24) & 0xff) < 256 && ((x >> 16) & 0xff) < 256 && ((x >> 8) & 0xff)
            < 256 && (x & 0xff) < 256 && (x >> 8) * 256 + (x & 0xff) == x) by (bit_vector);
    }
    out.push(b0);
    out.push(b1);
    out.push(b2);
    out.push(b3);
    proof {
        assert(out@.skip(old(out)@.len() as int) =~= seq![b0, b1, b2, b3]);
        assert(out@ =~= old(out)@ + u32_bytes(x));
        lemma_be32_bytes(x);
    }
}

/// Append a 64-bit value, big-endian.
pub fn push_u64(out: &mut Vec<u8>, x: u64)
    ensures
        final(out)@ == old(out)@ + u64_bytes(x),
        be64(final(out)@.skip(old(out)@.len() as int)) == x,
{
    let b0 = ((x >> 56) & 0xff) as u8;
    let b1 = ((x >> 48) & 0xff) as u8;
    let b2 = ((x >> 40) & 0xff) as u8;
    let b3 = ((x >> 32) & 0xff) as u8;
    let b4 = ((x >> 24) & 0xff) as u8;
    let b5 = ((x >> 16) & 0xff) as u8;
    let b6 = ((x >> 8) & 0xff) as u8;
    let b7 = (x & 0xff) as u8;
    proof {
        assert(((((((((x >> 56) & 0xff) * 256 + ((x >> 48) & 0xff)) * 256 + ((x >> 40) & 0xff))
            * 256 + ((x >> 32) & 0xff)) * 256 + ((x >> 24) & 0xff)) * 256 + ((x >> 16) & 0xff))
            * 256 + ((x >> 8) & 0xff)) == (x >> 8) && ((x >> 56) & 0xff) < 256 && ((x >> 48)
            & 0xff) < 256 && ((x >> 40) & 0xff) < 256 && ((x >> 32) & 0xff) < 256 && ((x >> 24)
            & 0xff) < 256 && ((x >> 16) & 0xff) < 256 && ((x >> 8) & 0xff) < 256 && (x & 0xff)
            < 256 && (x >> 8) * 256 + (x & 0xff) == x) by (bit_vector);
    }
    out.push(b0);
    out.push(b1);
    out.push(b2);
    out.push(b3);
    out.push(b4);
    out.push(b5);
    out.push(b6);
    out.push(b7);
    proof {
        assert(out@.skip(old(out)@.len() as int) =~= seq![b0, b1, b2, b3, b4, b5, b6, b7]);
        assert(out@ =~= old(out)@ + u64_bytes(x));
        lemma_be64_bytes(x);
    }
}

/// Read a 16-bit big-endian field.
pub fn read_u16(s: &[u8], off: usize) -> (x: u16)
    requires
        off + 2 <= s@.len(),
    ensures
        x == be16(s@.subrange(off as int, off + 2)),
{
    let b0 = s[off];
    let b1 = s[off + 1];
    proof {
        assert(s@.subrange(off as int, off + 2) =~= seq![b0, b1]);
    }
    (b0 as u16) * 256 + (b1 as u16)
}

/// Read a 32-bit big-endian field.
pub fn read_u32(s: &[u8], off: usize) -> (x: u32)
    requires
        off + 4 <= s@.len(),
    ensures
        x == be32(s@.subrange(off as int, off + 4)),
{
    let b0 = s[off];
    let b1 = s[off + 1];
    let b2 = s[off + 2];
    let b3 = s[off + 3];
    proof {
        assert(s@.subrange(off as int, off + 4) =~= seq![b0, b1, b2, b3]);
    }
    (((b0 as u32) * 256 + (b1 as u32)) * 256 + (b2 as u32)) * 256 + (b3 as u32)
}

/// Read a 64-bit big-endian field.
pub fn read_u64(s: &[u8], off: usize) -> (x: u64)
    requires
        off + 8 <= s@.len(),
    ensures
        x == be64(s@.subrange(off as int, off + 8)),
{
    let b0 = s[off];
    let b1 = s[off + 1];
    let b2 = s[off + 2];
    let b3 = s[off + 3];
    let b4 = s[off + 4];
    let b5 = s[off + 5];
    let b6 = s[off + 6];
    let b7 = s[off + 7];
    proof {
        assert(s@.subrange(off as int, off + 8) =~= seq![b0, b1, b2, b3, b4, b5, b6, b7]);
    }
    (((((((b0 as u64) * 256 + (b1 as u64)) * 256 + (b2 as u64)) * 256 + (b3 as u64)) * 256 + (
    b4 as u64)) * 256 + (b5 as u64)) * 256 + (b6 as u64)) * 256 + (b7 as u64)
}

} // verus!
