//! Per-block integrity.
//!
//! One 64-bit XXH3 per block, stored in the pool's checksum table. A stored
//! value of `0` is reserved to mean "this block has never been written" —
//! such blocks read as zeros without touching the disk. A real hash that
//! happens to be zero is remapped to `1` so the sentinel is unambiguous.

use vstd::prelude::*;

verus! {

/// Sentinel: block never written.
pub const UNWRITTEN: u64 = 0;

/// The XXH3 64-bit hash of `data`, with the default secret and no seed.
pub uninterp spec fn xxh3_64_of(data: Seq<u8>) -> u64;

/// `xxhash_rust::xxh3::xxh3_64` returns the XXH3 64-bit hash of its input.
/// The hash is a function of the input bytes alone; which function is not
/// stated.
pub assume_specification[ xxhash_rust::xxh3::xxh3_64 ](input: &[u8]) -> (h: u64)
    ensures
        h == xxh3_64_of(input@),
;

/// A hash as it is stored: never the sentinel.
pub open spec fn stored_form(h: u64) -> u64 {
    if h == UNWRITTEN {
        1
    } else {
        h
    }
}

/// The checksum of a block's bytes.
pub open spec fn checksum_of(data: Seq<u8>) -> u64 {
    stored_form(xxh3_64_of(data))
}

/// Remap a hash that collides with the sentinel.
pub fn avoid_sentinel(h: u64) -> (c: u64)
    ensures
        c == stored_form(h),
        c != UNWRITTEN,
{
    if h == UNWRITTEN {
        1
    } else {
        h
    }
}

/// The checksum stored for a block with these bytes.
pub fn block_checksum(data: &[u8]) -> (c: u64)
    ensures
        c == checksum_of(data@),
        c != UNWRITTEN,
{
    avoid_sentinel(xxhash_rust::xxh3::xxh3_64(data))
}

/// A stored checksum is never the mark of a block that was not written, and it
/// tells hashes apart as they are, but for the one that had to give way.
pub proof fn law_checksums_tell_hashes_apart(g: u64, h: u64)
    ensures
        stored_form(h) != 0,
        UNWRITTEN == 0,
        h != 0 ==> stored_form(h) == h,
        stored_form(g) == stored_form(h) ==> g == h || (g <= 1 && h <= 1),
{
}

} // verus!
