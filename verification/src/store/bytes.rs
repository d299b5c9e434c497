use byteorder::{ByteOrder, LittleEndian};
use vstd::prelude::*;

verus! {

/// The number that the first four bytes of `b` hold in little-endian order.
pub open spec fn le_u32(b: Seq<u8>) -> int {
    b[0] + 256 * b[1] + 65536 * b[2] + 16777216 * b[3]
}

/// The number that the first eight bytes of `b` hold in little-endian order.
pub open spec fn le_u64(b: Seq<u8>) -> int {
    le_u32(b) + 4294967296 * le_u32(b.skip(4))
}

/// The four bytes that hold `v` in little-endian order.
pub open spec fn u32_le(v: u32) -> Seq<u8> {
    seq![
        (v % 256) as u8,
        (v / 256 % 256) as u8,
        (v / 65536 % 256) as u8,
        (v / 16777216) as u8,
    ]
}

/// The eight bytes that hold `v` in little-endian order.
pub open spec fn u64_le(v: u64) -> Seq<u8> {
    u32_le((v % 4294967296) as u32) + u32_le((v / 4294967296) as u32)
}

/// Reading back what `u32_le` wrote gives the number again.
pub proof fn lemma_u32_round_trip(v: u32)
    ensures
        u32_le(v).len() == 4,
        le_u32(u32_le(v)) == v,
{
}

/// Reading back what `u64_le` wrote gives the number again.
pub proof fn lemma_u64_round_trip(v: u64)
    ensures
        u64_le(v).len() == 8,
        le_u64(u64_le(v)) == v,
{
    let low = (v % 4294967296) as u32;
    let high = (v / 4294967296) as u32;
    lemma_u32_round_trip(low);
    lemma_u32_round_trip(high);
    assert(u64_le(v).skip(4) =~= u32_le(high));
    assert(le_u32(u64_le(v)) == le_u32(u32_le(low)));
}

/// Four bytes that hold `v` in little-endian order are those of `u32_le`.
pub proof fn lemma_u32_bytes(b: Seq<u8>, v: u32)
    requires
        b.len() >= 4,
        le_u32(b) == v,
    ensures
        b.take(4) == u32_le(v),
{
    let b0 = b[0] as int;
    let b1 = b[1] as int;
    let b2 = b[2] as int;
    let b3 = b[3] as int;
    let w = v as int;
    assert(w == b0 + 256 * (b1 + 256 * (b2 + 256 * b3)));
    let q1 = b1 + 256 * (b2 + 256 * b3);
    assert(w % 256 == b0 && w / 256 == q1);
    let q2 = b2 + 256 * b3;
    assert(q1 % 256 == b1 && q1 / 256 == q2);
    assert(q2 % 256 == b2 && q2 / 256 == b3);
    assert(w / 65536 == q2);
    assert(w / 16777216 == b3);
    assert(b.take(4) =~= u32_le(v));
}

/// Eight bytes that hold `v` in little-endian order are those of `u64_le`.
pub proof fn lemma_u64_bytes(b: Seq<u8>, v: u64)
    requires
        b.len() >= 8,
        le_u64(b) == v,
    ensures
        b.take(8) == u64_le(v),
{
    let low = le_u32(b);
    let high = le_u32(b.skip(4));
    let w = v as int;
    assert(0 <= low < 4294967296 && 0 <= high < 4294967296);
    assert(w == low + 4294967296 * high);
    assert(w % 4294967296 == low && w / 4294967296 == high);
    lemma_u32_bytes(b, low as u32);
    lemma_u32_bytes(b.skip(4), high as u32);
    assert(b.take(8) =~= b.take(4) + b.skip(4).take(4));
}

/// `byteorder::LittleEndian::read_u32`: the number that the first four
/// bytes of `buf` hold, least significant byte first. It panics on a
/// shorter slice, which the precondition leaves out.
#[verifier::external_body]
pub(crate) fn read_u32(buf: &[u8]) -> (v: u32)
    requires
        buf@.len() >= 4,
    ensures
        v == le_u32(buf@),
{
    LittleEndian::read_u32(buf)
}

/// `byteorder::LittleEndian::read_u64`: the number that the first eight
/// bytes of `buf` hold, least significant byte first. It panics on a
/// shorter slice, which the precondition leaves out.
#[verifier::external_body]
pub(crate) fn read_u64(buf: &[u8]) -> (v: u64)
    requires
        buf@.len() >= 8,
    ensures
        v == le_u64(buf@),
{
    LittleEndian::read_u64(buf)
}

/// `byteorder::LittleEndian::write_u32` on a buffer of four bytes: the
/// bytes of `v`, least significant byte first.
#[verifier::external_body]
pub(crate) fn u32_bytes(v: u32) -> (b: [u8; 4])
    ensures
        b@ == u32_le(v),
{
    let mut b = [0u8; 4];
    LittleEndian::write_u32(&mut b, v);
    b
}

/// `byteorder::LittleEndian::write_u64` on a buffer of eight bytes: the
/// bytes of `v`, least significant byte first.
#[verifier::external_body]
pub(crate) fn u64_bytes(v: u64) -> (b: [u8; 8])
    ensures
        b@ == u64_le(v),
{
    let mut b = [0u8; 8];
    LittleEndian::write_u64(&mut b, v);
    b
}

/// Appends `v` to `out` in little-endian order.
pub fn write_u32(out: &mut Vec<u8>, v: u32)
    ensures
        final(out)@ == old(out)@ + u32_le(v),
{
    let b = u32_bytes(v);
    out.push(b[0]);
    out.push(b[1]);
    out.push(b[2]);
    out.push(b[3]);
    assert(out@ =~= old(out)@ + u32_le(v));
}

/// Appends `v` to `out` in little-endian order.
pub fn write_u64(out: &mut Vec<u8>, v: u64)
    ensures
        final(out)@ == old(out)@ + u64_le(v),
{
    let b = u64_bytes(v);
    let mut i: usize = 0;
    while i < 8
        invariant
            i <= 8,
            b@ == u64_le(v),
            out@ == old(out)@ + b@.subrange(0, i as int),
        decreases 8 - i,
    {
        out.push(b[i]);
        i += 1;
        assert(out@ =~= old(out)@ + b@.subrange(0, i as int));
    }
    assert(b@.subrange(0, 8) =~= b@);
}

} // verus!
