//! Checksums of byte slices.
use vstd::prelude::*;

verus! {

/// `c` after `k` bits were shifted out of it, under the reflected IEEE polynomial.
pub open spec fn crc_bits(c: u32, k: nat) -> u32
    decreases k,
{
    if k == 0 {
        c
    } else {
        let s = if c & 1 == 1 { (c >> 1) ^ 0xEDB8_8320u32 } else { c >> 1 };
        crc_bits(s, (k - 1) as nat)
    }
}

/// The shift register of a CRC-32 after `data`.
pub open spec fn crc_register(data: Seq<u8>) -> u32
    decreases data.len(),
{
    if data.len() == 0 {
        0xffff_ffff
    } else {
        crc_bits(crc_register(data.drop_last()) ^ (data.last() as u32), 8)
    }
}

/// The CRC-32 (IEEE) of `data`.
pub open spec fn crc32_of(data: Seq<u8>) -> u32 {
    crc_register(data) ^ 0xffff_ffffu32
}

/// The 64-bit XXH3 hash of `data` with the default secret and no seed.
pub uninterp spec fn xxh3_of(data: Seq<u8>) -> u64;

/// `crc32fast::hash`.
///
/// Trusted: it returns the CRC-32 with the IEEE polynomial, bits reflected, all ones
/// at the start and inverted at the end.
#[verifier::external_body]
fn crc32fast_hash(data: &[u8]) -> (r: u32)
    ensures
        r == crc32_of(data@),
{
    crc32fast::hash(data)
}

/// `xxhash_rust::xxh3::xxh3_64`.
///
/// Trusted: the result depends on the bytes alone.
#[verifier::external_body]
fn xxh3_hash(data: &[u8]) -> (r: u64)
    ensures
        r == xxh3_of(data@),
{
    xxhash_rust::xxh3::xxh3_64(data)
}

/// CRC-32 of a byte slice.
pub fn crc32(data: &[u8]) -> (r: u32)
    ensures
        r == crc32_of(data@),
{
    crc32fast_hash(data)
}

/// 64-bit XXH3 hash of a byte slice.
pub fn xxhash3(data: &[u8]) -> (r: u64)
    ensures
        r == xxh3_of(data@),
{
    xxh3_hash(data)
}

} // verus!
