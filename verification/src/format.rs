use std::io::Read;
use byteorder::{LittleEndian, ReadBytesExt, WriteBytesExt};
use vstd::prelude::*;

verus! {

/// I/O errors, as `std::io::Read` reports them (here: reading past the end
/// of an index file's bytes).
#[verifier::external_type_specification]
#[verifier::external_body]
pub struct ExIoError(std::io::Error);

/// The two bytes of `n`, least significant first.
pub open spec fn le_bytes_u16(n: u16) -> Seq<u8> {
    seq![(n & 0xff) as u8, (n >> 8u16) as u8]
}

/// The four bytes of `n`, least significant first.
pub open spec fn le_bytes_u32(n: u32) -> Seq<u8> {
    seq![
        (n & 0xff) as u8,
        ((n >> 8u32) & 0xff) as u8,
        ((n >> 16u32) & 0xff) as u8,
        (n >> 24u32) as u8,
    ]
}

/// The eight bytes of `n`, least significant first.
pub open spec fn le_bytes_u64(n: u64) -> Seq<u8> {
    seq![
        (n & 0xff) as u8,
        ((n >> 8u64) & 0xff) as u8,
        ((n >> 16u64) & 0xff) as u8,
        ((n >> 24u64) & 0xff) as u8,
        ((n >> 32u64) & 0xff) as u8,
        ((n >> 40u64) & 0xff) as u8,
        ((n >> 48u64) & 0xff) as u8,
        (n >> 56u64) as u8,
    ]
}

/// The little-endian `u16` stored at byte `p` of `d`.
pub open spec fn le_u16_at(d: Seq<u8>, p: int) -> u16 {
    (d[p] as u16) | ((d[p + 1] as u16) << 8u16)
}

/// The little-endian `u32` stored at byte `p` of `d`.
pub open spec fn le_u32_at(d: Seq<u8>, p: int) -> u32 {
    (d[p] as u32) | ((d[p + 1] as u32) << 8u32) | ((d[p + 2] as u32) << 16u32) | ((d[p + 3] as u32)
        << 24u32)
}

/// The little-endian `u64` stored at byte `p` of `d`.
pub open spec fn le_u64_at(d: Seq<u8>, p: int) -> u64 {
    (d[p] as u64) | ((d[p + 1] as u64) << 8u64) | ((d[p + 2] as u64) << 16u64) | ((d[p + 3] as u64)
        << 24u64) | ((d[p + 4] as u64) << 32u64) | ((d[p + 5] as u64) << 40u64) | ((d[p + 6] as u64)
        << 48u64) | ((d[p + 7] as u64) << 56u64)
}

/// Reading back the two bytes of `n` gives `n`.
pub proof fn lemma_le_u16_roundtrip(d: Seq<u8>, p: int, n: u16)
    requires
        0 <= p,
        p + 2 <= d.len(),
        d.subrange(p, p + 2) == le_bytes_u16(n),
    ensures
        le_u16_at(d, p) == n,
{
    let b0 = d[p];
    let b1 = d[p + 1];
    assert(b0 == d.subrange(p, p + 2)[0]);
    assert(b1 == d.subrange(p, p + 2)[1]);
    assert(b0 == (n & 0xff) as u8 && b1 == (n >> 8u16) as u8 ==> (b0 as u16) | ((b1 as u16)
        << 8u16) == n) by (bit_vector);
}

/// Reading back the four bytes of `n` gives `n`.
pub proof fn lemma_le_u32_roundtrip(d: Seq<u8>, p: int, n: u32)
    requires
        0 <= p,
        p + 4 <= d.len(),
        d.subrange(p, p + 4) == le_bytes_u32(n),
    ensures
        le_u32_at(d, p) == n,
{
    let s = d.subrange(p, p + 4);
    let b0 = d[p];
    let b1 = d[p + 1];
    let b2 = d[p + 2];
    let b3 = d[p + 3];
    assert(b0 == s[0] && b1 == s[1] && b2 == s[2] && b3 == s[3]);
    assert(b0 == (n & 0xff) as u8 && b1 == ((n >> 8u32) & 0xff) as u8 && b2 == ((n >> 16u32)
        & 0xff) as u8 && b3 == (n >> 24u32) as u8 ==> (b0 as u32) | ((b1 as u32) << 8u32) | ((
    b2 as u32) << 16u32) | ((b3 as u32) << 24u32) == n) by (bit_vector);
}

/// Reading back the eight bytes of `n` gives `n`.
pub proof fn lemma_le_u64_roundtrip(d: Seq<u8>, p: int, n: u64)
    requires
        0 <= p,
        p + 8 <= d.len(),
        d.subrange(p, p + 8) == le_bytes_u64(n),
    ensures
        le_u64_at(d, p) == n,
{
    let s = d.subrange(p, p + 8);
    let b0 = d[p];
    let b1 = d[p + 1];
    let b2 = d[p + 2];
    let b3 = d[p + 3];
    let b4 = d[p + 4];
    let b5 = d[p + 5];
    let b6 = d[p + 6];
    let b7 = d[p + 7];
    assert(b0 == s[0] && b1 == s[1] && b2 == s[2] && b3 == s[3]);
    assert(b4 == s[4] && b5 == s[5] && b6 == s[6] && b7 == s[7]);
    assert(b0 == (n & 0xff) as u8 && b1 == ((n >> 8u64) & 0xff) as u8 && b2 == ((n >> 16u64)
        & 0xff) as u8 && b3 == ((n >> 24u64) & 0xff) as u8 && b4 == ((n >> 32u64) & 0xff) as u8
        && b5 == ((n >> 40u64) & 0xff) as u8 && b6 == ((n >> 48u64) & 0xff) as u8 && b7 == (n
        >> 56u64) as u8 ==> (b0 as u64) | ((b1 as u64) << 8u64) | ((b2 as u64) << 16u64) | ((
    b3 as u64) << 24u64) | ((b4 as u64) << 32u64) | ((b5 as u64) << 40u64) | ((b6 as u64)
        << 48u64) | ((b7 as u64) << 56u64) == n) by (bit_vector);
}

/// Appends `n` to `out` through byteorder's `WriteBytesExt::write_u8`.
/// Claimed: the byte is appended (writing to a `Vec<u8>` never fails).
#[verifier::external_body]
pub(crate) fn put_u8(out: &mut Vec<u8>, n: u8)
    ensures
        final(out)@ == old(out)@.push(n),
{
    let _ = out.write_u8(n);
}

/// Appends `n` to `out` through byteorder's
/// `WriteBytesExt::write_u16::<LittleEndian>`.
/// Claimed: the two little-endian bytes of `n` are appended.
#[verifier::external_body]
pub(crate) fn put_u16(out: &mut Vec<u8>, n: u16)
    ensures
        final(out)@ == old(out)@ + le_bytes_u16(n),
{
    let _ = out.write_u16::<LittleEndian>(n);
}

/// Appends `n` to `out` through byteorder's
/// `WriteBytesExt::write_u32::<LittleEndian>`.
/// Claimed: the four little-endian bytes of `n` are appended.
#[verifier::external_body]
pub(crate) fn put_u32(out: &mut Vec<u8>, n: u32)
    ensures
        final(out)@ == old(out)@ + le_bytes_u32(n),
{
    let _ = out.write_u32::<LittleEndian>(n);
}

/// Appends `n` to `out` through byteorder's
/// `WriteBytesExt::write_u64::<LittleEndian>`.
/// Claimed: the eight little-endian bytes of `n` are appended.
#[verifier::external_body]
pub(crate) fn put_u64(out: &mut Vec<u8>, n: u64)
    ensures
        final(out)@ == old(out)@ + le_bytes_u64(n),
{
    let _ = out.write_u64::<LittleEndian>(n);
}

/// Reads the byte at `pos` through byteorder's `ReadBytesExt::read_u8` on
/// the slice `data[pos..]`.
/// Claimed: the byte when there is one, an error when `pos` is at the end.
#[verifier::external_body]
pub(crate) fn get_u8(data: &[u8], pos: usize) -> (r: Result<u8, std::io::Error>)
    requires
        pos <= data@.len(),
    ensures
        pos + 1 <= data@.len() ==> r is Ok && r.unwrap() == data@[pos as int],
        pos + 1 > data@.len() ==> r is Err,
{
    let mut rdr = &data[pos..];
    rdr.read_u8()
}

/// Reads a little-endian `u16` at `pos` through byteorder's
/// `ReadBytesExt::read_u16::<LittleEndian>` on the slice `data[pos..]`.
/// Claimed: the value when two bytes remain, an error otherwise.
#[verifier::external_body]
pub(crate) fn get_u16(data: &[u8], pos: usize) -> (r: Result<u16, std::io::Error>)
    requires
        pos <= data@.len(),
    ensures
        pos + 2 <= data@.len() ==> r is Ok && r.unwrap() == le_u16_at(data@, pos as int),
        pos + 2 > data@.len() ==> r is Err,
{
    let mut rdr = &data[pos..];
    rdr.read_u16::<LittleEndian>()
}

/// Reads a little-endian `u32` at `pos` through byteorder's
/// `ReadBytesExt::read_u32::<LittleEndian>` on the slice `data[pos..]`.
/// Claimed: the value when four bytes remain, an error otherwise.
#[verifier::external_body]
pub(crate) fn get_u32(data: &[u8], pos: usize) -> (r: Result<u32, std::io::Error>)
    requires
        pos <= data@.len(),
    ensures
        pos + 4 <= data@.len() ==> r is Ok && r.unwrap() == le_u32_at(data@, pos as int),
        pos + 4 > data@.len() ==> r is Err,
{
    let mut rdr = &data[pos..];
    rdr.read_u32::<LittleEndian>()
}

/// Reads a little-endian `u64` at `pos` through byteorder's
/// `ReadBytesExt::read_u64::<LittleEndian>` on the slice `data[pos..]`.
/// Claimed: the value when eight bytes remain, an error otherwise.
#[verifier::external_body]
pub(crate) fn get_u64(data: &[u8], pos: usize) -> (r: Result<u64, std::io::Error>)
    requires
        pos <= data@.len(),
    ensures
        pos + 8 <= data@.len() ==> r is Ok && r.unwrap() == le_u64_at(data@, pos as int),
        pos + 8 > data@.len() ==> r is Err,
{
    let mut rdr = &data[pos..];
    rdr.read_u64::<LittleEndian>()
}

/// Reads `len` bytes at `pos` through `std::io::Read::read_exact` on the
/// slice `data[pos..]`.
/// Claimed: the bytes when that many remain, an error otherwise.
#[verifier::external_body]
pub(crate) fn get_bytes(data: &[u8], pos: usize, len: usize) -> (r: Result<Vec<u8>, std::io::Error>)
    requires
        pos <= data@.len(),
    ensures
        pos + len <= data@.len() ==> r is Ok && r.unwrap()@ == data@.subrange(
            pos as int,
            pos + len,
        ),
        pos + len > data@.len() ==> r is Err,
{
    let mut rdr = &data[pos..];
    let mut buf = vec![0u8; len];
    match rdr.read_exact(&mut buf) {
        Ok(()) => Ok(buf),
        Err(e) => Err(e),
    }
}

} // verus!
