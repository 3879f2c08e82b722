//! Little-endian byte codecs and byte-range updates over a disk image.
//!
//! Every on-disk structure of the file systems in this crate is stored
//! packed and little-endian.  The spec functions here say what a field
//! read from an image is, and what an image is after a range of bytes
//! has been overwritten; the executable helpers are proved against them.
use vstd::prelude::*;

verus! {

/// The 16-bit little-endian value stored at `off`.
pub open spec fn u16_le(s: Seq<u8>, off: int) -> u16 {
    (s[off] as u16) | ((s[off + 1] as u16) << 8u16)
}

/// The 32-bit little-endian value stored at `off`.
pub open spec fn u32_le(s: Seq<u8>, off: int) -> u32 {
    (s[off] as u32) | ((s[off + 1] as u32) << 8u32) | ((s[off + 2] as u32) << 16u32) | ((s[off
        + 3] as u32) << 24u32)
}

/// The two bytes that encode `v` in little-endian order.
pub open spec fn u16_bytes(v: u16) -> Seq<u8> {
    seq![v as u8, (v >> 8u16) as u8]
}

/// The four bytes that encode `v` in little-endian order.
pub open spec fn u32_bytes(v: u32) -> Seq<u8> {
    seq![v as u8, (v >> 8u32) as u8, (v >> 16u32) as u8, (v >> 24u32) as u8]
}

/// `s` with the bytes from `off` on replaced by `b` (as far as `s` reaches).
pub open spec fn write_bytes(s: Seq<u8>, off: int, b: Seq<u8>) -> Seq<u8> {
    Seq::new(s.len(), |i: int| if off <= i < off + b.len() { b[i - off] } else { s[i] })
}

/// `n` zero bytes.
pub open spec fn zeros(n: nat) -> Seq<u8> {
    Seq::new(n, |i: int| 0u8)
}

/// Decoding the encoding of a 16-bit value gives the value back.
pub proof fn lemma_u16_roundtrip(v: u16)
    ensures
        u16_le(u16_bytes(v), 0) == v,
{
    let b0 = v as u8;
    let b1 = (v >> 8u16) as u8;
    assert(((b0 as u16) | ((b1 as u16) << 8u16)) == v) by (bit_vector)
        requires
            b0 == v as u8,
            b1 == (v >> 8u16) as u8,
    ;
}

/// Decoding the encoding of a 32-bit value gives the value back.
pub proof fn lemma_u32_roundtrip(v: u32)
    ensures
        u32_le(u32_bytes(v), 0) == v,
{
    let b0 = v as u8;
    let b1 = (v >> 8u32) as u8;
    let b2 = (v >> 16u32) as u8;
    let b3 = (v >> 24u32) as u8;
    assert(((b0 as u32) | ((b1 as u32) << 8u32) | ((b2 as u32) << 16u32) | ((b3 as u32)
        << 24u32)) == v) by (bit_vector)
        requires
            b0 == v as u8,
            b1 == (v >> 8u32) as u8,
            b2 == (v >> 16u32) as u8,
            b3 == (v >> 24u32) as u8,
    ;
}

/// Encoding the value decoded from four bytes gives the same four bytes.
pub proof fn lemma_u32_bytes_of_le(s: Seq<u8>, off: int)
    requires
        0 <= off,
        off + 4 <= s.len(),
    ensures
        u32_bytes(u32_le(s, off)) == s.subrange(off, off + 4),
{
    let b0 = s[off];
    let b1 = s[off + 1];
    let b2 = s[off + 2];
    let b3 = s[off + 3];
    let v = u32_le(s, off);
    assert(v as u8 == b0 && (v >> 8u32) as u8 == b1 && (v >> 16u32) as u8 == b2 && (v >> 24u32) as u8
        == b3) by (bit_vector)
        requires
            v == (b0 as u32) | ((b1 as u32) << 8u32) | ((b2 as u32) << 16u32) | ((b3 as u32)
                << 24u32),
    ;
    assert(u32_bytes(v) =~= s.subrange(off, off + 4));
}

/// Encoding the value decoded from two bytes gives the same two bytes.
pub proof fn lemma_u16_bytes_of_le(s: Seq<u8>, off: int)
    requires
        0 <= off,
        off + 2 <= s.len(),
    ensures
        u16_bytes(u16_le(s, off)) == s.subrange(off, off + 2),
{
    let b0 = s[off];
    let b1 = s[off + 1];
    let v = u16_le(s, off);
    assert(v as u8 == b0 && (v >> 8u16) as u8 == b1) by (bit_vector)
        requires
            v == (b0 as u16) | ((b1 as u16) << 8u16),
    ;
    assert(u16_bytes(v) =~= s.subrange(off, off + 2));
}

/// After writing the encoding of `v` at `off`, the value read there is `v`.
pub proof fn lemma_read_after_write_u32(s: Seq<u8>, off: int, v: u32)
    requires
        0 <= off,
        off + 4 <= s.len(),
    ensures
        u32_le(write_bytes(s, off, u32_bytes(v)), off) == v,
{
    lemma_u32_roundtrip(v);
}

/// After writing the encoding of `v` at `off`, the value read there is `v`.
pub proof fn lemma_read_after_write_u16(s: Seq<u8>, off: int, v: u16)
    requires
        0 <= off,
        off + 2 <= s.len(),
    ensures
        u16_le(write_bytes(s, off, u16_bytes(v)), off) == v,
{
    lemma_u16_roundtrip(v);
}

/// Reads the 16-bit little-endian value at `off`.
pub fn read_u16(img: &[u8], off: usize) -> (r: u16)
    requires
        off + 2 <= img@.len(),
    ensures
        r == u16_le(img@, off as int),
{
    (img[off] as u16) | ((img[off + 1] as u16) << 8u16)
}

/// Reads the 32-bit little-endian value at `off`.
pub fn read_u32(img: &[u8], off: usize) -> (r: u32)
    requires
        off + 4 <= img@.len(),
    ensures
        r == u32_le(img@, off as int),
{
    (img[off] as u32) | ((img[off + 1] as u32) << 8u32) | ((img[off + 2] as u32) << 16u32) | ((
    img[off + 3] as u32) << 24u32)
}

/// Overwrites the bytes from `off` on with `bytes`.
pub fn write_slice(img: &mut [u8], off: usize, bytes: &[u8])
    requires
        off + bytes@.len() <= old(img)@.len(),
    ensures
        final(img)@ == write_bytes(old(img)@, off as int, bytes@),
{
    let n = bytes.len();
    let mut k: usize = 0;
    while k < n
        invariant
            n == bytes@.len(),
            off + n <= img@.len(),
            img@.len() == img.len(),
            k <= n,
            img@.len() == old(img)@.len(),
            forall|i: int|
                0 <= i < img@.len() ==> #[trigger] img@[i] == (if off <= i < off + k {
                    bytes@[i - off]
                } else {
                    old(img)@[i]
                }),
        decreases n - k,
    {
        img[off + k] = bytes[k];
        k = k + 1;
    }
    assert(img@ =~= write_bytes(old(img)@, off as int, bytes@));
}

/// Writes the little-endian encoding of `v` at `off`.
pub fn write_u32(img: &mut [u8], off: usize, v: u32)
    requires
        off + 4 <= old(img)@.len(),
    ensures
        final(img)@ == write_bytes(old(img)@, off as int, u32_bytes(v)),
{
    img[off] = v as u8;
    img[off + 1] = (v >> 8u32) as u8;
    img[off + 2] = (v >> 16u32) as u8;
    img[off + 3] = (v >> 24u32) as u8;
    assert(img@ =~= write_bytes(old(img)@, off as int, u32_bytes(v)));
}

/// Writes the little-endian encoding of `v` at `off`.
pub fn write_u16(img: &mut [u8], off: usize, v: u16)
    requires
        off + 2 <= old(img)@.len(),
    ensures
        final(img)@ == write_bytes(old(img)@, off as int, u16_bytes(v)),
{
    img[off] = v as u8;
    img[off + 1] = (v >> 8u16) as u8;
    assert(img@ =~= write_bytes(old(img)@, off as int, u16_bytes(v)));
}

/// Sets the `n` bytes from `off` on to zero.
pub fn fill_zero(img: &mut [u8], off: usize, n: usize)
    requires
        off + n <= old(img)@.len(),
    ensures
        final(img)@ == write_bytes(old(img)@, off as int, zeros(n as nat)),
{
    let mut k: usize = 0;
    while k < n
        invariant
            off + n <= img@.len(),
            img@.len() == img.len(),
            k <= n,
            img@.len() == old(img)@.len(),
            forall|i: int|
                0 <= i < img@.len() ==> #[trigger] img@[i] == (if off <= i < off + k {
                    0u8
                } else {
                    old(img)@[i]
                }),
        decreases n - k,
    {
        img[off + k] = 0;
        k = k + 1;
    }
    assert(img@ =~= write_bytes(old(img)@, off as int, zeros(n as nat)));
}

/// Whether the two byte strings are equal.
pub fn bytes_eq(a: &[u8], b: &[u8]) -> (r: bool)
    ensures
        r == (a@ == b@),
{
    if a.len() != b.len() {
        return false;
    }
    let mut k: usize = 0;
    while k < a.len()
        invariant
            a@.len() == b@.len(),
            k <= a@.len(),
            forall|i: int| 0 <= i < k ==> a@[i] == b@[i],
        decreases a@.len() - k,
    {
        if a[k] != b[k] {
            return false;
        }
        k = k + 1;
    }
    assert(a@ =~= b@);
    true
}

} // verus!
