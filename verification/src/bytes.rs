use vstd::prelude::*;

verus! {

/// The little-endian 16-bit value at `i` in `s`.
pub open spec fn le16(s: Seq<u8>, i: int) -> u16 {
    (s[i] + 256 * s[i + 1]) as u16
}

/// The little-endian 32-bit value at `i` in `s`.
pub open spec fn le32(s: Seq<u8>, i: int) -> u32 {
    (s[i] + 256 * s[i + 1] + 65536 * s[i + 2] + 16777216 * s[i + 3]) as u32
}

pub proof fn lemma_le16(a: u8, b: u8)
    ensures
        (a as u16) | ((b as u16) << 8u16) == a + 256 * b,
{
    assert((a as u16) | ((b as u16) << 8u16) == a + 256 * b) by (bit_vector);
}

pub proof fn lemma_le32(a: u8, b: u8, c: u8, d: u8)
    ensures
        (a as u32) | ((b as u32) << 8u32) | ((c as u32) << 16u32) | ((d as u32) << 24u32) == a + 256 * b
            + 65536 * c + 16777216 * d,
{
    assert((a as u32) | ((b as u32) << 8u32) | ((c as u32) << 16u32) | ((d as u32) << 24u32) == a + 256 * b
        + 65536 * c + 16777216 * d) by (bit_vector);
}

pub fn read16(slice: &[u8], i: usize) -> (r: u16)
    requires
        i + 1 < slice@.len(),
    ensures
        r == le16(slice@, i as int),
{
    proof {
        lemma_le16(slice@[i as int], slice@[i + 1]);
    }
    (slice[i] as u16) | ((slice[i + 1] as u16) << 8u16)
}

pub fn read32(slice: &[u8], i: usize) -> (r: u32)
    requires
        i + 3 < slice@.len(),
    ensures
        r == le32(slice@, i as int),
{
    proof {
        lemma_le32(slice@[i as int], slice@[i + 1], slice@[i + 2], slice@[i + 3]);
    }
    (slice[i] as u32) | ((slice[i + 1] as u32) << 8u32) | ((slice[i + 2] as u32) << 16u32) | ((slice[i + 3] as u32)
        << 24u32)
}


/// The little-endian 64-bit value at `i` in `s`.
pub open spec fn le64(s: Seq<u8>, i: int) -> u64 {
    (le32(s, i) + 4294967296 * le32(s, i + 4)) as u64
}

/// Reads the little-endian 64-bit value at `i` in `slice`.
pub fn read64(slice: &[u8], i: usize) -> (r: u64)
    requires
        i + 7 < slice@.len(),
    ensures
        r == le64(slice@, i as int),
{
    let n = slice.len();
    let lo = read32(slice, i) as u64;
    let hi = read32(slice, i + 4) as u64;
    proof {
        assert(lo | (hi << 32u64) == lo + 4294967296 * hi) by (bit_vector)
            requires
                lo < 4294967296,
                hi < 4294967296,
        ;
    }
    lo | (hi << 32u64)
}

} // verus!
