//! Big-endian field reads over byte sequences.

use vstd::prelude::*;

verus! {

/// The big-endian 16-bit word stored at `off`.
pub open spec fn be16(s: Seq<u8>, off: int) -> int {
    s[off] * 256 + s[off + 1]
}

/// The big-endian 32-bit longword stored at `off`.
pub open spec fn be32(s: Seq<u8>, off: int) -> int {
    s[off] * 16777216 + s[off + 1] * 65536 + s[off + 2] * 256 + s[off + 3]
}

/// Reads the big-endian 16-bit word at `off`.
pub fn read_be16(data: &[u8], off: usize) -> (w: u16)
    requires
        off + 2 <= data@.len(),
    ensures
        w == be16(data@, off as int),
{
    (data[off] as u16) * 256 + (data[off + 1] as u16)
}

/// Reads the big-endian 32-bit longword at `off`.
pub fn read_be32(data: &[u8], off: usize) -> (w: u32)
    requires
        off + 4 <= data@.len(),
    ensures
        w == be32(data@, off as int),
{
    (data[off] as u32) * 16777216 + (data[off + 1] as u32) * 65536 + (data[off + 2] as u32) * 256
        + (data[off + 3] as u32)
}

/// `s` with the big-endian encoding of `v` stored at `off..off + 4`.
pub open spec fn put_be32(s: Seq<u8>, off: int, v: u32) -> Seq<u8> {
    s.update(off, ((v / 16777216) % 256) as u8).update(off + 1, ((v / 65536) % 256) as u8).update(
        off + 2,
        ((v / 256) % 256) as u8,
    ).update(off + 3, (v % 256) as u8)
}

/// Storing a longword and reading it back gives the same longword, and
/// leaves every other byte alone.
pub proof fn lemma_put_be32(s: Seq<u8>, off: int, v: u32)
    requires
        0 <= off,
        off + 4 <= s.len(),
    ensures
        put_be32(s, off, v).len() == s.len(),
        be32(put_be32(s, off, v), off) == v,
        forall|i: int|
            0 <= i < s.len() && !(off <= i < off + 4) ==> #[trigger] put_be32(s, off, v)[i] == s[i],
{
    let t = put_be32(s, off, v);
    let b0 = ((v / 16777216) % 256) as u8;
    let b1 = ((v / 65536) % 256) as u8;
    let b2 = ((v / 256) % 256) as u8;
    let b3 = (v % 256) as u8;
    assert(t[off] == b0 && t[off + 1] == b1 && t[off + 2] == b2 && t[off + 3] == b3);
    assert(((v / 16777216) % 256) * 16777216 + ((v / 65536) % 256) * 65536 + ((v / 256) % 256)
        * 256 + (v % 256) == v) by (bit_vector);
}

/// Stores `v` big-endian at `off..off + 4`.
pub fn write_be32(data: &mut [u8], off: usize, v: u32)
    requires
        off + 4 <= old(data)@.len(),
    ensures
        final(data)@ == put_be32(old(data)@, off as int, v),
{
    data[off] = ((v / 16777216) % 256) as u8;
    data[off + 1] = ((v / 65536) % 256) as u8;
    data[off + 2] = ((v / 256) % 256) as u8;
    data[off + 3] = (v % 256) as u8;
}

} // verus!
