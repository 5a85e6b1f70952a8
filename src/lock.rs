//! Keys of the cross-process advisory lock, derived from the database name.
use vstd::prelude::*;
use vstd::string::StringSliceAdditionalSpecFns;

verus! {

/// The CRC-32 checksum of a byte sequence.
pub uninterp spec fn crc32_of(bytes: Seq<u8>) -> u32;

/// Relies on `crc32fast::hash`: the CRC-32 (IEEE) checksum of the bytes,
/// a function of the bytes alone.
#[verifier::external_body]
fn crc32(bytes: &[u8]) -> (r: u32)
    ensures
        r == crc32_of(bytes@),
{
    crc32fast::hash(bytes)
}

/// The Postgres advisory-lock id for a checksum: the checksum widened to `i64`.
pub fn lock_id_from_checksum(checksum: u32) -> (r: i64)
    ensures
        r == checksum as i64,
        r >= 0,
{
    checksum as i64
}

/// The Postgres advisory-lock id of a database: the CRC-32 of its name's
/// UTF-8 bytes, widened to `i64`.
pub fn postgres_lock_id(database: &str) -> (r: i64)
    ensures
        r == crc32_of(database.spec_bytes()) as i64,
{
    let c = crc32(database.as_bytes());
    lock_id_from_checksum(c)
}

} // verus!
