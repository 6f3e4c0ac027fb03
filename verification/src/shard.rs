//! The records of one shard, from the text that the range service sent or,
//! where it reported no change, from the previous database.
use vstd::prelude::*;
use vstd::utf8::encode_utf8;
use crate::layout::Record;
use crate::parser::{shard_entries, text_to_hash_stream, SHARDS};
use crate::reader::{
    failed_read, reads_from, serves, suffix_views, suffixes_in_bucket, CompactHashDB, IoError,
};
use crate::records::{ascending, entries_of, in_shard, lemma_ascending_push, Entry};

verus! {

/// What the range service answered for one shard.
#[derive(Debug)]
pub enum DownloadResult {
    /// The shard has not changed since the previous build.
    Cached,
    /// The shard as text.
    Text(String),
}

/// Why the records of a shard could not be had.
#[derive(Clone, Copy, Debug, PartialEq, Eq, Structural)]
pub enum ShardError {
    /// The service reported no change, and there is no previous database.
    MissingPrevious,
    /// The previous database did not serve a read.
    Io(IoError),
}

/// The entries of one bucket.
pub open spec fn tagged(prefix: u32, suffixes: Seq<Seq<u8>>) -> Seq<Entry> {
    Seq::new(suffixes.len(), |i: int| (prefix, suffixes[i]))
}

/// The entries that `image` stores in the first `buckets` buckets of shard
/// `prefix`, bucket by bucket; the error of the first bucket that fails.
pub open spec fn shard_of(image: Seq<u8>, prefix: u32, buckets: int) -> Result<Seq<Entry>, IoError>
    decreases buckets,
{
    if buckets <= 0 {
        Ok(Seq::empty())
    } else {
        match shard_of(image, prefix, buckets - 1) {
            Err(e) => Err(e),
            Ok(before) => match suffixes_in_bucket(image, 16 * prefix + buckets - 1) {
                Err(e) => Err(e),
                Ok(suffixes) => Ok(before + tagged((16 * prefix + buckets - 1) as u32, suffixes)),
            },
        }
    }
}

/// `r` holds the records of `expected`, or its error.
pub open spec fn stream_is(r: Result<Vec<Record>, IoError>, expected: Result<Seq<Entry>, IoError>) -> bool {
    match r {
        Ok(records) => expected == Ok::<Seq<Entry>, IoError>(entries_of(records@)),
        Err(e) => expected == Err::<Seq<Entry>, IoError>(e),
    }
}

/// Once a bucket of a shard fails, the shard fails with its error.
pub proof fn lemma_shard_error_stays(image: Seq<u8>, prefix: u32, failed: int, buckets: int)
    requires
        failed <= buckets,
        shard_of(image, prefix, failed) is Err,
    ensures
        shard_of(image, prefix, buckets) == shard_of(image, prefix, failed),
    decreases buckets - failed,
{
    if failed < buckets {
        lemma_shard_error_stays(image, prefix, failed, buckets - 1);
    }
}

/// The records of shard `prefix` as the previous database holds them in
/// its 16 buckets.
pub fn chdb_to_hash_stream<F: Fn(u64, usize) -> Option<Vec<u8>>>(
    prefix: u32,
    db: &CompactHashDB<F>,
) -> (r: Result<Vec<Record>, IoError>)
    requires
        prefix < SHARDS,
    ensures
        r matches Ok(records) ==> in_shard(entries_of(records@), prefix) && ascending(
            entries_of(records@),
        ),
        r matches Err(e) ==> failed_read(db.source(), e),
        forall|image: Seq<u8>| #[trigger]
            serves(db.source(), image) ==> stream_is(r, shard_of(image, prefix, 16)),
        forall|image: Seq<u8>| #[trigger]
            reads_from(db.source(), image) ==> r is Ok ==> stream_is(
                r,
                shard_of(image, prefix, 16),
            ),
{
    let mut records: Vec<Record> = Vec::new();
    let mut bucket: u32 = 0;
    assert(entries_of(records@) =~= Seq::<Entry>::empty());
    while bucket < 16
        invariant
            prefix < SHARDS,
            bucket <= 16,
            in_shard(entries_of(records@), prefix),
            ascending(entries_of(records@)),
            forall|i: int|
                0 <= i < records@.len() ==> (#[trigger] entries_of(records@)[i]).0 < 16 * prefix
                    + bucket,
            forall|image: Seq<u8>| #[trigger]
                reads_from(db.source(), image) ==> shard_of(image, prefix, bucket as int) == Ok::<
                    Seq<Entry>,
                    IoError,
                >(entries_of(records@)),
        decreases 16 - bucket,
    {
        let full: u32 = 16 * prefix + bucket;
        let suffixes = match db.get_hashs_suffix(full) {
            Err(e) => {
                assert forall|image: Seq<u8>| #[trigger]
                    serves(db.source(), image) implies shard_of(image, prefix, 16) == Err::<
                    Seq<Entry>,
                    IoError,
                >(e) by {
                    assert(reads_from(db.source(), image));
                    assert(shard_of(image, prefix, bucket + 1) is Err);
                    lemma_shard_error_stays(image, prefix, bucket + 1, 16);
                }
                return Err(e);
            },
            Ok(suffixes) => suffixes,
        };
        let ghost before = entries_of(records@);
        let mut i: usize = 0;
        while i < suffixes.len()
            invariant
                i <= suffixes.len(),
                full == 16 * prefix + bucket,
                bucket < 16,
                in_shard(entries_of(records@), prefix),
                ascending(entries_of(records@)),
                forall|i: int|
                    0 <= i < records@.len() ==> (#[trigger] entries_of(records@)[i]).0 <= full,
                entries_of(records@) == before + tagged(full, suffix_views(suffixes@)).take(
                    i as int,
                ),
            decreases suffixes.len() - i,
        {
            let ghost held = records@;
            records.push((full, suffixes[i]));
            assert(entries_of(records@) =~= entries_of(held).push((full, suffixes@[i as int]@)));
            proof {
                if held.len() > 0 {
                    assert(entries_of(held)[held.len() - 1].0 <= full);
                }
                lemma_ascending_push(entries_of(held), (full, suffixes@[i as int]@));
                assert forall|k: int| 0 <= k < records@.len() implies (#[trigger] entries_of(
                    records@,
                )[k]).0 <= full by {
                    if k < held.len() {
                        assert(entries_of(held)[k].0 <= full);
                    }
                }
            }
            i += 1;
            assert(tagged(full, suffix_views(suffixes@)).take(i as int) =~= tagged(
                full,
                suffix_views(suffixes@),
            ).take(i - 1).push((full, suffixes@[i - 1]@)));
        }
        assert(tagged(full, suffix_views(suffixes@)).take(suffixes@.len() as int) =~= tagged(
            full,
            suffix_views(suffixes@),
        ));
        bucket += 1;
    }
    Ok(records)
}

/// What the records of shard `prefix` are, given the service's answer and
/// the image that the previous database serves, if there is one.
pub open spec fn shard_stream(prefix: u32, result: DownloadResult, previous: Option<Seq<u8>>) -> Result<
    Seq<Entry>,
    ShardError,
> {
    match result {
        DownloadResult::Text(text) => Ok(shard_entries(prefix, encode_utf8(text@))),
        DownloadResult::Cached => match previous {
            None => Err(ShardError::MissingPrevious),
            Some(image) => match shard_of(image, prefix, 16) {
                Ok(entries) => Ok(entries),
                Err(e) => Err(ShardError::Io(e)),
            },
        },
    }
}

/// `r` holds the records of `expected`, or its error.
pub open spec fn shard_is(r: Result<Vec<Record>, ShardError>, expected: Result<Seq<Entry>, ShardError>) -> bool {
    match r {
        Ok(records) => expected == Ok::<Seq<Entry>, ShardError>(entries_of(records@)),
        Err(e) => expected == Err::<Seq<Entry>, ShardError>(e),
    }
}

/// The records of shard `prefix`: those of the text where the service sent
/// it, those of the previous database where the service reported no change.
pub fn shard_to_hash_stream<F: Fn(u64, usize) -> Option<Vec<u8>>>(
    prefix: u32,
    result: &DownloadResult,
    previous: Option<&CompactHashDB<F>>,
) -> (r: Result<Vec<Record>, ShardError>)
    requires
        prefix < SHARDS,
    ensures
        r matches Ok(records) ==> in_shard(entries_of(records@), prefix),
        r matches Err(ShardError::MissingPrevious) ==> result is Cached && previous is None,
        r matches Err(ShardError::Io(e)) ==> result is Cached && previous is Some && failed_read(
            previous.unwrap().source(),
            e,
        ),
        result is Text || previous is None ==> shard_is(r, shard_stream(prefix, *result, None)),
        forall|image: Seq<u8>|
            result is Cached && previous is Some && #[trigger] serves(
                previous.unwrap().source(),
                image,
            ) ==> shard_is(r, shard_stream(prefix, *result, Some(image))),
        forall|image: Seq<u8>|
            result is Cached && previous is Some && #[trigger] reads_from(
                previous.unwrap().source(),
                image,
            ) ==> r is Ok ==> shard_is(r, shard_stream(prefix, *result, Some(image))),
{
    match result {
        DownloadResult::Text(text) => Ok(text_to_hash_stream(prefix, text.as_str())),
        DownloadResult::Cached => match previous {
            None => Err(ShardError::MissingPrevious),
            Some(db) => match chdb_to_hash_stream(prefix, db) {
                Ok(records) => Ok(records),
                Err(e) => Err(ShardError::Io(e)),
            },
        },
    }
}

} // verus!
