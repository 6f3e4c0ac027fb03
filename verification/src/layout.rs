//! The file layout: a directory of 2^24 little-endian 32-bit entries, then
//! the 13-byte suffixes of all digests bucket by bucket, then an 8-byte
//! little-endian timestamp.
use vstd::prelude::*;

verus! {

/// Number of buckets, one for each value of a digest's first three bytes.
pub const BUCKETS: u32 = 0x0100_0000;

/// The bucket whose end is stored in entry 0.
pub const LAST_BUCKET: u32 = 0x00FF_FFFF;

/// Bytes in one directory entry.
pub const ENTRY_LEN: usize = 4;

/// Bytes in one stored record: a digest without the bytes that select its bucket.
pub const SUFFIX_LEN: usize = 13;

/// Bytes in the timestamp.
pub const STAMP_LEN: usize = 8;

/// Offset of the first record: the size of the directory, 2^26.
pub const BODY_START: u64 = 0x0400_0000;

/// One stored digest: its bucket and the rest of its bytes.
pub type Record = (u32, [u8; 13]);

/// The number that four bytes spell, least significant byte first.
pub open spec fn u32_le(bytes: Seq<u8>) -> int {
    bytes[0] + 0x100 * bytes[1] + 0x1_0000 * bytes[2] + 0x100_0000 * bytes[3]
}

/// The four bytes that spell `value`, least significant byte first.
pub open spec fn u32_le_bytes(value: int) -> Seq<u8> {
    seq![
        (value % 0x100) as u8,
        (value / 0x100 % 0x100) as u8,
        (value / 0x1_0000 % 0x100) as u8,
        (value / 0x100_0000 % 0x100) as u8,
    ]
}

/// The signed number that eight bytes spell in two's complement, least
/// significant byte first.
pub open spec fn i64_le(bytes: Seq<u8>) -> int {
    let low = u32_le(bytes.subrange(0, 4));
    let high = u32_le(bytes.subrange(4, 8));
    if high < 0x8000_0000 {
        low + 0x1_0000_0000 * high
    } else {
        low + 0x1_0000_0000 * high - 0x1_0000_0000_0000_0000
    }
}

/// The eight bytes that spell `value` in two's complement, least significant
/// byte first.
pub open spec fn i64_le_bytes(value: int) -> Seq<u8> {
    let unsigned = if value < 0 {
        value + 0x1_0000_0000_0000_0000
    } else {
        value
    };
    u32_le_bytes(unsigned % 0x1_0000_0000) + u32_le_bytes(unsigned / 0x1_0000_0000)
}

/// Where directory entry `index` starts.
pub open spec fn entry_offset(index: int) -> int {
    4 * index
}

/// Where record `index` starts.
pub open spec fn record_offset(index: int) -> int {
    0x0400_0000 + 13 * index
}

/// The bucket of a digest: its first three bytes, the first one most significant.
pub open spec fn prefix_of(digest: Seq<u8>) -> int {
    0x1_0000 * digest[0] + 0x100 * digest[1] + digest[2]
}

/// What a bucket stores of a digest: all bytes after the first three.
pub open spec fn suffix_of(digest: Seq<u8>) -> Seq<u8> {
    digest.subrange(3, 16)
}

/// The digest that record `(prefix, suffix)` stands for.
pub open spec fn digest_of(prefix: int, suffix: Seq<u8>) -> Seq<u8> {
    seq![(prefix / 0x1_0000 % 0x100) as u8, (prefix / 0x100 % 0x100) as u8, (prefix % 0x100) as u8]
        + suffix
}

/// Decoding undoes encoding of a 32-bit entry.
pub proof fn lemma_u32_le_round_trip(value: int)
    requires
        0 <= value <= u32::MAX,
    ensures
        u32_le_bytes(value).len() == 4,
        u32_le(u32_le_bytes(value)) == value,
{
}

/// Decoding undoes encoding of a timestamp.
pub proof fn lemma_i64_le_round_trip(value: int)
    requires
        i64::MIN <= value <= i64::MAX,
    ensures
        i64_le_bytes(value).len() == 8,
        i64_le(i64_le_bytes(value)) == value,
{
    let unsigned = if value < 0 {
        value + 0x1_0000_0000_0000_0000
    } else {
        value
    };
    let low = unsigned % 0x1_0000_0000;
    let high = unsigned / 0x1_0000_0000;
    let bytes = i64_le_bytes(value);
    lemma_u32_le_round_trip(low);
    lemma_u32_le_round_trip(high);
    assert(bytes.subrange(0, 4) =~= u32_le_bytes(low));
    assert(bytes.subrange(4, 8) =~= u32_le_bytes(high));
}

/// A digest is the digest of its own bucket and suffix.
pub proof fn lemma_digest_of_parts(digest: Seq<u8>)
    requires
        digest.len() == 16,
    ensures
        0 <= prefix_of(digest) < BUCKETS,
        suffix_of(digest).len() == 13,
        digest_of(prefix_of(digest), suffix_of(digest)) == digest,
{
    assert(digest_of(prefix_of(digest), suffix_of(digest)) =~= digest);
}

/// A record is recovered from its digest.
pub proof fn lemma_parts_of_digest(prefix: int, suffix: Seq<u8>)
    requires
        0 <= prefix < BUCKETS,
        suffix.len() == 13,
    ensures
        digest_of(prefix, suffix).len() == 16,
        prefix_of(digest_of(prefix, suffix)) == prefix,
        suffix_of(digest_of(prefix, suffix)) == suffix,
{
    assert(suffix_of(digest_of(prefix, suffix)) =~= suffix);
}

/// Decodes the 32-bit entry that starts at `at`.
pub fn decode_u32_le(bytes: &[u8], at: usize) -> (value: u32)
    requires
        at + 4 <= bytes.len(),
    ensures
        value == u32_le(bytes@.subrange(at as int, at + 4)),
{
    let b0: u32 = bytes[at] as u32;
    let b1: u32 = bytes[at + 1] as u32;
    let b2: u32 = bytes[at + 2] as u32;
    let b3: u32 = bytes[at + 3] as u32;
    b0 + 0x100 * b1 + 0x1_0000 * b2 + 0x100_0000 * b3
}

/// Decodes the timestamp that starts at `at`.
pub fn decode_i64_le(bytes: &[u8], at: usize) -> (value: i64)
    requires
        at + 8 <= bytes.len(),
    ensures
        value == i64_le(bytes@.subrange(at as int, at + 8)),
{
    let low: u32 = decode_u32_le(bytes, at);
    let high: u32 = decode_u32_le(bytes, at + 4);
    proof {
        let whole = bytes@.subrange(at as int, at + 8);
        assert(whole.subrange(0, 4) =~= bytes@.subrange(at as int, at + 4));
        assert(whole.subrange(4, 8) =~= bytes@.subrange(at + 4, at + 8));
    }
    if high < 0x8000_0000 {
        (low as i64) + 0x1_0000_0000 * (high as i64)
    } else {
        (low as i64) + 0x1_0000_0000 * ((high - 0x8000_0000) as i64) + i64::MIN
    }
}

/// Encodes a 32-bit entry.
pub fn encode_u32_le(value: u32) -> (bytes: [u8; 4])
    ensures
        bytes@ == u32_le_bytes(value as int),
{
    let bytes: [u8; 4] = [
        (value % 0x100) as u8,
        (value / 0x100 % 0x100) as u8,
        (value / 0x1_0000 % 0x100) as u8,
        (value / 0x100_0000 % 0x100) as u8,
    ];
    assert(bytes@ =~= u32_le_bytes(value as int));
    bytes
}

/// Encodes a timestamp.
pub fn encode_i64_le(value: i64) -> (bytes: [u8; 8])
    ensures
        bytes@ == i64_le_bytes(value as int),
{
    let unsigned: u64 = if value < 0 {
        ((value - i64::MIN) as u64) + 0x8000_0000_0000_0000
    } else {
        value as u64
    };
    let low: [u8; 4] = encode_u32_le((unsigned % 0x1_0000_0000) as u32);
    let high: [u8; 4] = encode_u32_le((unsigned / 0x1_0000_0000) as u32);
    let bytes: [u8; 8] = [low[0], low[1], low[2], low[3], high[0], high[1], high[2], high[3]];
    assert(bytes@ =~= i64_le_bytes(value as int));
    bytes
}

/// Splits a digest into its bucket and the suffix stored there.
pub fn split_digest(digest: &[u8; 16]) -> (record: Record)
    ensures
        record.0 == prefix_of(digest@),
        record.0 < BUCKETS,
        record.1@ == suffix_of(digest@),
{
    let prefix: u32 = 0x1_0000 * (digest[0] as u32) + 0x100 * (digest[1] as u32) + (digest[2] as u32);
    let suffix: [u8; 13] = [
        digest[3], digest[4], digest[5], digest[6], digest[7], digest[8], digest[9],
        digest[10], digest[11], digest[12], digest[13], digest[14], digest[15],
    ];
    assert(suffix@ =~= suffix_of(digest@));
    (prefix, suffix)
}

} // verus!
