//! Fixed-width integers, least significant byte first.

use vstd::prelude::*;

verus! {

/// Four bytes, least significant first.
pub open spec fn le32(n: u32) -> Seq<u8> {
    seq![
        (n % 256) as u8,
        (n / 256 % 256) as u8,
        (n / 65536 % 256) as u8,
        (n / 16777216) as u8,
    ]
}

/// The integer that four bytes are.
pub open spec fn from_le32(s: Seq<u8>) -> u32 {
    (s[0] + 256 * s[1] + 65536 * s[2] + 16777216 * s[3]) as u32
}

/// The integer that was written is the integer that is read.
pub proof fn lemma_le32_read_back(n: u32)
    ensures
        le32(n).len() == 4,
        from_le32(le32(n)) == n,
{
}

/// Only the first four bytes matter.
pub proof fn lemma_from_le32_prefix(a: Seq<u8>, b: Seq<u8>)
    requires
        a.len() >= 4,
    ensures
        from_le32(a + b) == from_le32(a),
        from_le32(a.take(4)) == from_le32(a),
{
}

/// Append four bytes.
pub fn push_le32(out: &mut Vec<u8>, n: u32)
    ensures
        final(out)@ == old(out)@ + le32(n),
{
    out.push((n % 256) as u8);
    out.push((n / 256 % 256) as u8);
    out.push((n / 65536 % 256) as u8);
    out.push((n / 16777216) as u8);
    proof {
        assert(out@ =~= old(out)@ + le32(n));
    }
}

/// Read four bytes.
pub fn read_le32(bytes: &[u8], pos: usize) -> (n: u32)
    requires
        pos + 4 <= bytes@.len(),
    ensures
        n == from_le32(bytes@.skip(pos as int)),
{
    let a: u32 = bytes[pos] as u32;
    let b: u32 = bytes[pos + 1] as u32;
    let c: u32 = bytes[pos + 2] as u32;
    let d: u32 = bytes[pos + 3] as u32;
    a + 256 * b + 65536 * c + 16777216 * d
}

/// Eight bytes, least significant first.
pub open spec fn le64(n: u64) -> Seq<u8> {
    le32((n % 0x1_0000_0000) as u32) + le32((n / 0x1_0000_0000) as u32)
}

/// The integer that eight bytes are.
pub open spec fn from_le64(s: Seq<u8>) -> u64 {
    (from_le32(s) + 0x1_0000_0000 * from_le32(s.skip(4))) as u64
}

/// The integer that was written is the integer that is read.
pub proof fn lemma_le64_read_back(n: u64)
    ensures
        le64(n).len() == 8,
        from_le64(le64(n)) == n,
{
    let low = le32((n % 0x1_0000_0000) as u32);
    let high = le32((n / 0x1_0000_0000) as u32);
    lemma_le32_read_back((n % 0x1_0000_0000) as u32);
    lemma_le32_read_back((n / 0x1_0000_0000) as u32);
    lemma_from_le32_prefix(low, high);
    assert(le64(n).skip(4) =~= high);
}

/// Append eight bytes.
pub fn push_le64(out: &mut Vec<u8>, n: u64)
    ensures
        final(out)@ == old(out)@ + le64(n),
{
    push_le32(out, (n % 0x1_0000_0000) as u32);
    push_le32(out, (n / 0x1_0000_0000) as u32);
    proof {
        assert(out@ =~= old(out)@ + le64(n));
    }
}

/// Read eight bytes.
pub fn read_le64(bytes: &[u8], pos: usize) -> (n: u64)
    requires
        pos + 8 <= bytes@.len(),
    ensures
        n == from_le64(bytes@.skip(pos as int)),
{
    proof {
        assert(bytes.len() >= pos + 8);
    }
    let low: u64 = read_le32(bytes, pos) as u64;
    let high: u64 = read_le32(bytes, pos + 4) as u64;
    proof {
        assert(bytes@.skip(pos as int).skip(4) =~= bytes@.skip(pos + 4));
    }
    low + 0x1_0000_0000 * high
}

} // verus!
