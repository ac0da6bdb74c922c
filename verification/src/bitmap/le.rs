//! Little-endian integers in byte sequences: what they mean, and the calls
//! that read and write them.

use byteorder::{ByteOrder, LittleEndian};
use vstd::prelude::*;

verus! {

/// The sixteen-bit integer stored at `pos`, least significant byte first.
pub open spec fn u16_at(s: Seq<u8>, pos: int) -> u16 {
    (s[pos] + 256 * s[pos + 1]) as u16
}

/// The thirty-two-bit integer stored at `pos`, least significant byte first.
pub open spec fn u32_at(s: Seq<u8>, pos: int) -> u32 {
    (s[pos] + 256 * s[pos + 1] + 65536 * s[pos + 2] + 16777216 * s[pos + 3]) as u32
}

/// The sixty-four-bit integer stored at `pos`, least significant byte first.
pub open spec fn u64_at(s: Seq<u8>, pos: int) -> u64 {
    (u32_at(s, pos) + 4294967296 * u32_at(s, pos + 4)) as u64
}

/// The two bytes of `n`, least significant first.
pub open spec fn u16_bytes(n: u16) -> Seq<u8> {
    seq![(n % 256) as u8, (n / 256) as u8]
}

/// The four bytes of `n`, least significant first.
pub open spec fn u32_bytes(n: u32) -> Seq<u8> {
    seq![
        (n % 256) as u8,
        (n / 256 % 256) as u8,
        (n / 65536 % 256) as u8,
        (n / 16777216) as u8,
    ]
}

/// The eight bytes of `n`, least significant first.
pub open spec fn u64_bytes(n: u64) -> Seq<u8> {
    u32_bytes((n % 4294967296) as u32) + u32_bytes((n / 4294967296) as u32)
}

/// `byteorder::LittleEndian::read_u16`: the first two bytes of `buf`, read
/// least significant byte first. The call panics on a shorter buffer.
#[verifier::external_body]
pub(crate) fn read_u16(buf: &[u8]) -> (n: u16)
    requires
        buf@.len() >= 2,
    ensures
        n == u16_at(buf@, 0),
{
    LittleEndian::read_u16(buf)
}

/// `byteorder::LittleEndian::read_u32`: the first four bytes of `buf`, read
/// least significant byte first. The call panics on a shorter buffer.
#[verifier::external_body]
pub(crate) fn read_u32(buf: &[u8]) -> (n: u32)
    requires
        buf@.len() >= 4,
    ensures
        n == u32_at(buf@, 0),
{
    LittleEndian::read_u32(buf)
}

/// `byteorder::LittleEndian::read_u64`: the first eight bytes of `buf`, read
/// least significant byte first. The call panics on a shorter buffer.
#[verifier::external_body]
pub(crate) fn read_u64(buf: &[u8]) -> (n: u64)
    requires
        buf@.len() >= 8,
    ensures
        n == u64_at(buf@, 0),
{
    LittleEndian::read_u64(buf)
}

/// `byteorder::LittleEndian::write_u16` into a fresh array: the two bytes of
/// `n`, least significant first.
#[verifier::external_body]
pub(crate) fn write_u16(n: u16) -> (bytes: [u8; 2])
    ensures
        bytes@ == u16_bytes(n),
{
    let mut bytes = [0u8; 2];
    LittleEndian::write_u16(&mut bytes, n);
    bytes
}

/// `byteorder::LittleEndian::write_u32` into a fresh array: the four bytes of
/// `n`, least significant first.
#[verifier::external_body]
pub(crate) fn write_u32(n: u32) -> (bytes: [u8; 4])
    ensures
        bytes@ == u32_bytes(n),
{
    let mut bytes = [0u8; 4];
    LittleEndian::write_u32(&mut bytes, n);
    bytes
}

/// `byteorder::LittleEndian::write_u64` into a fresh array: the eight bytes
/// of `n`, least significant first.
#[verifier::external_body]
pub(crate) fn write_u64(n: u64) -> (bytes: [u8; 8])
    ensures
        bytes@ == u64_bytes(n),
{
    let mut bytes = [0u8; 8];
    LittleEndian::write_u64(&mut bytes, n);
    bytes
}

/// `bytemuck::cast_slice_mut` lends the integers of `dst` as bytes, and the
/// bytes of `src` are copied into them; `byteorder::LittleEndian::from_slice_u16`
/// then swaps the bytes of each integer on a big-endian machine and does
/// nothing on a little-endian one. After both, each integer is the
/// little-endian reading of its two bytes of `src`, on either machine. The
/// copy panics unless `src` has two bytes for each integer.
#[verifier::external_body]
pub(crate) fn fill_u16(dst: &mut Vec<u16>, src: &[u8])
    requires
        src@.len() == 2 * old(dst)@.len(),
    ensures
        final(dst)@.len() == old(dst)@.len(),
        forall|i: int| 0 <= i < final(dst)@.len() ==> final(dst)@[i] == u16_at(src@, 2 * i),
{
    bytemuck::cast_slice_mut::<u16, u8>(dst.as_mut_slice()).copy_from_slice(src);
    LittleEndian::from_slice_u16(dst.as_mut_slice());
}

/// `bytemuck::cast_slice_mut` lends the words of `dst` as bytes, and the
/// bytes of `src` are copied into them; `byteorder::LittleEndian::from_slice_u64`
/// then swaps the bytes of each word on a big-endian machine and does
/// nothing on a little-endian one. After both, each word is the
/// little-endian reading of its eight bytes of `src`, on either machine. The
/// copy panics unless `src` has eight bytes for each word.
#[verifier::external_body]
pub(crate) fn fill_u64(dst: &mut Vec<u64>, src: &[u8])
    requires
        src@.len() == 8 * old(dst)@.len(),
    ensures
        final(dst)@.len() == old(dst)@.len(),
        forall|i: int| 0 <= i < final(dst)@.len() ==> final(dst)@[i] == u64_at(src@, 8 * i),
{
    bytemuck::cast_slice_mut::<u64, u8>(dst.as_mut_slice()).copy_from_slice(src);
    LittleEndian::from_slice_u64(dst.as_mut_slice());
}

/// Reads the sixteen-bit integer at `pos`.
pub fn get_u16(data: &[u8], pos: usize) -> (n: u16)
    requires
        pos + 2 <= data@.len(),
    ensures
        n == u16_at(data@, pos as int),
{
    let len: usize = data.len();
    assert(pos + 2 <= len);
    read_u16(vstd::slice::slice_subrange(data, pos, pos + 2))
}

/// Reads the thirty-two-bit integer at `pos`.
pub fn get_u32(data: &[u8], pos: usize) -> (n: u32)
    requires
        pos + 4 <= data@.len(),
    ensures
        n == u32_at(data@, pos as int),
{
    let len: usize = data.len();
    assert(pos + 4 <= len);
    read_u32(vstd::slice::slice_subrange(data, pos, pos + 4))
}

/// Reads the sixty-four-bit integer at `pos`.
pub fn get_u64(data: &[u8], pos: usize) -> (n: u64)
    requires
        pos + 8 <= data@.len(),
    ensures
        n == u64_at(data@, pos as int),
{
    let len: usize = data.len();
    assert(pos + 8 <= len);
    read_u64(vstd::slice::slice_subrange(data, pos, pos + 8))
}

/// Appends the two bytes of `n`.
pub fn put_u16(buf: &mut Vec<u8>, n: u16)
    ensures
        final(buf)@ == old(buf)@ + u16_bytes(n),
{
    let bytes = write_u16(n);
    buf.push(bytes[0]);
    buf.push(bytes[1]);
}

/// Appends the four bytes of `n`.
pub fn put_u32(buf: &mut Vec<u8>, n: u32)
    ensures
        final(buf)@ == old(buf)@ + u32_bytes(n),
{
    let bytes = write_u32(n);
    buf.push(bytes[0]);
    buf.push(bytes[1]);
    buf.push(bytes[2]);
    buf.push(bytes[3]);
}

/// Appends the eight bytes of `n`.
pub fn put_u64(buf: &mut Vec<u8>, n: u64)
    ensures
        final(buf)@ == old(buf)@ + u64_bytes(n),
{
    let bytes = write_u64(n);
    let ghost before = buf@;
    let mut i: usize = 0;
    while i < 8
        invariant
            i <= 8,
            bytes@ == u64_bytes(n),
            buf@ == before + bytes@.take(i as int),
        decreases 8 - i,
    {
        buf.push(bytes[i]);
        i += 1;
    }
    assert(bytes@.take(8) == bytes@);
}

/// Reading back what was written gives the number written.
pub proof fn lemma_u16_round_trip(n: u16)
    ensures
        u16_bytes(n).len() == 2,
        u16_at(u16_bytes(n), 0) == n,
{
}

/// Reading back what was written gives the number written.
pub proof fn lemma_u32_round_trip(n: u32)
    ensures
        u32_bytes(n).len() == 4,
        u32_at(u32_bytes(n), 0) == n,
{
}

/// Reading back what was written gives the number written.
pub proof fn lemma_u64_round_trip(n: u64)
    ensures
        u64_bytes(n).len() == 8,
        u64_at(u64_bytes(n), 0) == n,
{
    let lo: u32 = (n % 4294967296) as u32;
    let hi: u32 = (n / 4294967296) as u32;
    lemma_u32_round_trip(lo);
    lemma_u32_round_trip(hi);
    let s = u64_bytes(n);
    assert(u32_at(s, 0) == u32_at(u32_bytes(lo), 0));
    assert(u32_at(s, 4) == u32_at(u32_bytes(hi), 0));
}

/// An integer read from a sequence depends only on the bytes it covers.
pub proof fn lemma_u64_at_window(s: Seq<u8>, t: Seq<u8>, pos: int, at: int)
    requires
        0 <= pos,
        0 <= at,
        pos + 8 <= s.len(),
        at + 8 <= t.len(),
        s.subrange(pos, pos + 8) == t.subrange(at, at + 8),
    ensures
        u64_at(s, pos) == u64_at(t, at),
{
    let w = s.subrange(pos, pos + 8);
    let x = t.subrange(at, at + 8);
    assert(w[0] == s[pos] && w[1] == s[pos + 1] && w[2] == s[pos + 2] && w[3] == s[pos + 3]);
    assert(w[4] == s[pos + 4] && w[5] == s[pos + 5] && w[6] == s[pos + 6] && w[7] == s[pos + 7]);
    assert(x[0] == t[at] && x[1] == t[at + 1] && x[2] == t[at + 2] && x[3] == t[at + 3]);
    assert(x[4] == t[at + 4] && x[5] == t[at + 5] && x[6] == t[at + 6] && x[7] == t[at + 7]);
}

/// Reading in the first of two joined sequences.
pub proof fn lemma_read_left(a: Seq<u8>, b: Seq<u8>, pos: int)
    requires
        0 <= pos,
    ensures
        pos + 2 <= a.len() ==> u16_at(a + b, pos) == u16_at(a, pos),
        pos + 4 <= a.len() ==> u32_at(a + b, pos) == u32_at(a, pos),
        pos + 8 <= a.len() ==> u64_at(a + b, pos) == u64_at(a, pos),
{
    if pos + 8 <= a.len() {
        assert((a + b).subrange(pos, pos + 8) == a.subrange(pos, pos + 8));
        lemma_u64_at_window(a + b, a, pos, pos);
    }
}

/// Reading in the second of two joined sequences.
pub proof fn lemma_read_right(a: Seq<u8>, b: Seq<u8>, pos: int)
    requires
        0 <= pos,
    ensures
        pos + 2 <= b.len() ==> u16_at(a + b, a.len() + pos) == u16_at(b, pos),
        pos + 4 <= b.len() ==> u32_at(a + b, a.len() + pos) == u32_at(b, pos),
        pos + 8 <= b.len() ==> u64_at(a + b, a.len() + pos) == u64_at(b, pos),
{
    if pos + 8 <= b.len() {
        assert((a + b).subrange(a.len() + pos, a.len() + pos + 8) == b.subrange(pos, pos + 8));
        lemma_u64_at_window(a + b, b, a.len() + pos, pos);
    }
}

} // verus!
