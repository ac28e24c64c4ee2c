//! Little-endian integer encoding, done by the `byteorder` crate.
use byteorder::{ByteOrder, LittleEndian, ReadBytesExt};
use vstd::bytes::*;
use vstd::prelude::*;

verus! {

/// Reads the little-endian `u16` stored at `buf[pos..pos + 2]`.
///
/// Calls `<LittleEndian as ByteOrder>::read_u16`, which the crate documents as
/// reading the first two bytes of its argument in little-endian order.
#[verifier::external_body]
pub(crate) fn read_u16_at(buf: &[u8], pos: usize) -> (r: u16)
    requires
        pos + 2 <= buf@.len(),
    ensures
        r == spec_u16_from_le_bytes(buf@.subrange(pos as int, pos + 2)),
{
    LittleEndian::read_u16(&buf[pos..])
}

/// Reads the little-endian `u32` stored at `buf[pos..pos + 4]`.
///
/// Calls `<LittleEndian as ByteOrder>::read_u32`, which reads the first four
/// bytes of its argument in little-endian order.
#[verifier::external_body]
pub(crate) fn read_u32_at(buf: &[u8], pos: usize) -> (r: u32)
    requires
        pos + 4 <= buf@.len(),
    ensures
        r == spec_u32_from_le_bytes(buf@.subrange(pos as int, pos + 4)),
{
    LittleEndian::read_u32(&buf[pos..])
}

/// Reads the little-endian `u64` stored at `buf[pos..pos + 8]`.
///
/// Calls `<LittleEndian as ByteOrder>::read_u64`, which reads the first eight
/// bytes of its argument in little-endian order.
#[verifier::external_body]
pub(crate) fn read_u64_at(buf: &[u8], pos: usize) -> (r: u64)
    requires
        pos + 8 <= buf@.len(),
    ensures
        r == spec_u64_from_le_bytes(buf@.subrange(pos as int, pos + 8)),
{
    LittleEndian::read_u64(&buf[pos..])
}

/// Reads a little-endian `u32` from the bytes of `buf` from `pos` on, as an
/// I/O read.
///
/// Calls `ReadBytesExt::read_u32::<LittleEndian>` on the slice `buf[pos..]`;
/// the crate reads four bytes with `Read::read_exact`, which on a slice fails
/// when fewer than four bytes remain and otherwise takes the first four. The
/// contract says when the read fails, not which error it returns (std gives
/// an `UnexpectedEof` one).
#[verifier::external_body]
pub(crate) fn read_u32_io(buf: &[u8], pos: usize) -> (r: Result<u32, std::io::Error>)
    requires
        pos <= buf@.len(),
    ensures
        match r {
            Ok(v) => pos + 4 <= buf@.len() && v == spec_u32_from_le_bytes(
                buf@.subrange(pos as int, pos + 4),
            ),
            Err(_) => pos + 4 > buf@.len(),
        },
{
    let mut rest = &buf[pos..];
    rest.read_u32::<LittleEndian>()
}

/// The two little-endian bytes of `n`.
///
/// Calls `<LittleEndian as ByteOrder>::write_u16` on a two-byte buffer; the
/// crate writes `n.to_le_bytes()` there.
#[verifier::external_body]
pub(crate) fn u16_le(n: u16) -> (r: [u8; 2])
    ensures
        r@ == spec_u16_to_le_bytes(n),
{
    let mut buf = [0u8; 2];
    LittleEndian::write_u16(&mut buf, n);
    buf
}

/// The four little-endian bytes of `n`.
///
/// Calls `<LittleEndian as ByteOrder>::write_u32` on a four-byte buffer; the
/// crate writes `n.to_le_bytes()` there.
#[verifier::external_body]
pub(crate) fn u32_le(n: u32) -> (r: [u8; 4])
    ensures
        r@ == spec_u32_to_le_bytes(n),
{
    let mut buf = [0u8; 4];
    LittleEndian::write_u32(&mut buf, n);
    buf
}

/// The eight little-endian bytes of `n`.
///
/// Calls `<LittleEndian as ByteOrder>::write_u64` on an eight-byte buffer; the
/// crate writes `n.to_le_bytes()` there.
#[verifier::external_body]
pub(crate) fn u64_le(n: u64) -> (r: [u8; 8])
    ensures
        r@ == spec_u64_to_le_bytes(n),
{
    let mut buf = [0u8; 8];
    LittleEndian::write_u64(&mut buf, n);
    buf
}

/// Appends every byte of `bytes` to `buf`.
pub fn push_all(buf: &mut Vec<u8>, bytes: &[u8])
    ensures
        final(buf)@ == old(buf)@ + bytes@,
{
    let ghost start = buf@;
    let mut i: usize = 0;
    while i < bytes.len()
        invariant
            i <= bytes@.len(),
            buf@ == start + bytes@.subrange(0, i as int),
        decreases bytes@.len() - i,
    {
        buf.push(bytes[i]);
        i = i + 1;
        assert(buf@ =~= start + bytes@.subrange(0, i as int));
    }
    assert(bytes@.subrange(0, bytes@.len() as int) =~= bytes@);
}

/// A fresh vector holding `bytes[start..end]`.
pub fn copy_range(bytes: &[u8], start: usize, end: usize) -> (r: Vec<u8>)
    requires
        start <= end <= bytes@.len(),
    ensures
        r@ == bytes@.subrange(start as int, end as int),
{
    let mut r: Vec<u8> = Vec::with_capacity(end - start);
    let mut i: usize = start;
    while i < end
        invariant
            start <= i <= end,
            end <= bytes@.len(),
            r@ == bytes@.subrange(start as int, i as int),
        decreases end - i,
    {
        r.push(bytes[i]);
        i = i + 1;
        assert(r@ =~= bytes@.subrange(start as int, i as int));
    }
    r
}

/// Appends the little-endian encoding of a `u16`.
pub fn push_u16(buf: &mut Vec<u8>, n: u16)
    ensures
        final(buf)@ == old(buf)@ + spec_u16_to_le_bytes(n),
{
    let b = u16_le(n);
    push_all(buf, &b);
}

/// Appends the little-endian encoding of a `u32`.
pub fn push_u32(buf: &mut Vec<u8>, n: u32)
    ensures
        final(buf)@ == old(buf)@ + spec_u32_to_le_bytes(n),
{
    let b = u32_le(n);
    push_all(buf, &b);
}

/// Appends the little-endian encoding of a `u64`.
pub fn push_u64(buf: &mut Vec<u8>, n: u64)
    ensures
        final(buf)@ == old(buf)@ + spec_u64_to_le_bytes(n),
{
    let b = u64_le(n);
    push_all(buf, &b);
}

} // verus!
