use byteorder::{ByteOrder, LittleEndian, WriteBytesExt};
use vstd::prelude::*;

verus! {

/// The number that the four bytes `b[pos..pos + 4]` encode, least significant first.
#[verifier::opaque]
pub open spec fn spec_u32_le(b: Seq<u8>, pos: int) -> u32 {
    (b[pos] + 0x100 * b[pos + 1] + 0x10000 * b[pos + 2] + 0x1000000 * b[pos + 3]) as u32
}

/// The number that the eight bytes `b[pos..pos + 8]` encode, least significant first.
#[verifier::opaque]
pub open spec fn spec_u64_le(b: Seq<u8>, pos: int) -> u64 {
    (spec_u32_le(b, pos) + 0x1_0000_0000 * spec_u32_le(b, pos + 4)) as u64
}

/// The four bytes of `v`, least significant first.
pub open spec fn u32_le_bytes(v: u32) -> Seq<u8> {
    seq![(v % 0x100) as u8, ((v / 0x100) % 0x100) as u8, ((v / 0x10000) % 0x100) as u8, (v / 0x1000000) as u8]
}

/// The eight bytes of `v`, least significant first.
pub open spec fn u64_le_bytes(v: u64) -> Seq<u8> {
    u32_le_bytes((v % 0x1_0000_0000) as u32) + u32_le_bytes((v / 0x1_0000_0000) as u32)
}

/// Reading back the bytes of a number gives the number.
pub proof fn lemma_u32_le_roundtrip(v: u32, prefix: Seq<u8>, suffix: Seq<u8>)
    ensures
        spec_u32_le(prefix + u32_le_bytes(v) + suffix, prefix.len() as int) == v,
{
    reveal(spec_u32_le);
    let b = prefix + u32_le_bytes(v) + suffix;
    let p = prefix.len() as int;
    assert(b[p] == (v % 0x100) as u8);
    assert(b[p + 1] == ((v / 0x100) % 0x100) as u8);
    assert(b[p + 2] == ((v / 0x10000) % 0x100) as u8);
    assert(b[p + 3] == (v / 0x1000000) as u8);
    assert((v % 0x100) + 0x100 * ((v / 0x100) % 0x100) + 0x10000 * ((v / 0x10000) % 0x100) + 0x1000000 * (v
        / 0x1000000) == v) by (nonlinear_arith);
}

/// Reading back the bytes of a number gives the number.
pub proof fn lemma_u64_le_roundtrip(v: u64, prefix: Seq<u8>, suffix: Seq<u8>)
    ensures
        spec_u64_le(prefix + u64_le_bytes(v) + suffix, prefix.len() as int) == v,
{
    reveal(spec_u64_le);
    let lo = (v % 0x1_0000_0000) as u32;
    let hi = (v / 0x1_0000_0000) as u32;
    let b = prefix + u64_le_bytes(v) + suffix;
    assert(b == prefix + u32_le_bytes(lo) + (u32_le_bytes(hi) + suffix));
    lemma_u32_le_roundtrip(lo, prefix, u32_le_bytes(hi) + suffix);
    assert(b == (prefix + u32_le_bytes(lo)) + u32_le_bytes(hi) + suffix);
    lemma_u32_le_roundtrip(hi, prefix + u32_le_bytes(lo), suffix);
    assert(lo + 0x1_0000_0000 * hi == v) by (nonlinear_arith)
        requires
            lo == v % 0x1_0000_0000,
            hi == v / 0x1_0000_0000,
    ;
}

/// `LittleEndian::read_u32` on `bytes[pos..]`: the little-endian number in the four bytes at `pos`.
#[verifier::external_body]
pub(crate) fn read_u32_le(bytes: &[u8], pos: usize) -> (res: u32)
    requires
        pos + 4 <= bytes@.len(),
    ensures
        res == spec_u32_le(bytes@, pos as int),
{
    LittleEndian::read_u32(&bytes[pos..])
}

/// `LittleEndian::read_u64` on `bytes[pos..]`: the little-endian number in the eight bytes at `pos`.
#[verifier::external_body]
pub(crate) fn read_u64_le(bytes: &[u8], pos: usize) -> (res: u64)
    requires
        pos + 8 <= bytes@.len(),
    ensures
        res == spec_u64_le(bytes@, pos as int),
{
    LittleEndian::read_u64(&bytes[pos..])
}

/// `WriteBytesExt::write_u32::<LittleEndian>` on a vector, which appends the four bytes of `v`
/// (writing to a vector cannot fail).
#[verifier::external_body]
pub(crate) fn push_u32_le(out: &mut Vec<u8>, v: u32)
    ensures
        final(out)@ == old(out)@ + u32_le_bytes(v),
{
    let _ = out.write_u32::<LittleEndian>(v);
}

/// `WriteBytesExt::write_u64::<LittleEndian>` on a vector, which appends the eight bytes of `v`
/// (writing to a vector cannot fail).
#[verifier::external_body]
pub(crate) fn push_u64_le(out: &mut Vec<u8>, v: u64)
    ensures
        final(out)@ == old(out)@ + u64_le_bytes(v),
{
    let _ = out.write_u64::<LittleEndian>(v);
}

} // verus!
