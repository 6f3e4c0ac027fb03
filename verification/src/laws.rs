//! What holds of every database that a build produces, stated over the
//! image that the builder writes and the results that the reader computes
//! from it.
use vstd::prelude::*;
use crate::builder::{body_bytes, directory_bytes, entry_of, image_of};
use crate::layout::{
    digest_of, entry_offset, i64_le_bytes, lemma_digest_of_parts, lemma_i64_le_round_trip,
    lemma_parts_of_digest, lemma_u32_le_round_trip, prefix_of, record_offset, suffix_of,
    u32_le_bytes, BODY_START, BUCKETS, LAST_BUCKET,
};
use crate::reader::{
    bucket_indexes, contains, entry_at, found_between, read_image, record_at,
    suffixes_in_bucket, timestamp_of, whole_records, IoError,
};
use crate::records::{
    ascending, count_between, lemma_ascending_boundary, lemma_ascending_bucket, lemma_count_all,
    lemma_count_bounded, lemma_count_none_below, lemma_count_split, suffixes_of, well_formed,
    Entry,
};
use crate::shard::{shard_of, tagged};

verus! {

/// What a build accepts: entries of existing buckets with 13-byte suffixes,
/// no more of them than a directory entry can count.
pub open spec fn buildable(entries: Seq<Entry>) -> bool {
    well_formed(entries) && entries.len() <= u32::MAX
}

/// The file is the directory, 13 bytes for each entry, and the timestamp;
/// entry 0 tells the number of entries.
pub proof fn lemma_file_length(entries: Seq<Entry>, timestamp: i64)
    requires
        buildable(entries),
    ensures
        image_of(entries, timestamp).len() == BODY_START + 13 * entries.len() + 8,
        entry_at(image_of(entries, timestamp), 0) matches Ok(total) && image_of(
            entries,
            timestamp,
        ).len() == BODY_START + 13 * total + 8,
{
    lemma_entry_read_back(entries, timestamp, 0);
}

/// Reading entry `index` of a built database gives what the builder put there.
pub proof fn lemma_entry_read_back(entries: Seq<Entry>, timestamp: i64, index: int)
    requires
        buildable(entries),
        0 <= index < BUCKETS,
    ensures
        0 <= entry_of(entries, index) <= entries.len(),
        entry_at(image_of(entries, timestamp), index) == Ok::<u32, IoError>(
            entry_of(entries, index) as u32,
        ),
{
    let image = image_of(entries, timestamp);
    let value = entry_of(entries, index);
    lemma_count_bounded(entries, 0, index);
    lemma_u32_le_round_trip(value);
    let at = entry_offset(index);
    assert(read_image(image, at, 4) == Some(image.subrange(at, at + 4)));
    assert forall|j: int| 0 <= j < 4 implies image.subrange(at, at + 4)[j] == u32_le_bytes(
        value,
    )[j] by {
        assert(image[at + j] == directory_bytes(entries)[at + j]);
        assert((at + j) / 4 == index);
        assert((at + j) % 4 == j);
    }
    assert(image.subrange(at, at + 4) =~= u32_le_bytes(value));
}

/// A built database has room for exactly its records, and record `index` is
/// the suffix of entry `index`.
pub proof fn lemma_record_read_back(entries: Seq<Entry>, timestamp: i64, index: int)
    requires
        buildable(entries),
        0 <= index < entries.len(),
    ensures
        whole_records(image_of(entries, timestamp)) == entries.len(),
        record_at(image_of(entries, timestamp), index) == entries[index].1,
{
    let image = image_of(entries, timestamp);
    lemma_whole_records(entries, timestamp);
    let at = record_offset(index);
    assert forall|j: int| 0 <= j < 13 implies record_at(image, index)[j] == entries[index].1[j] by {
        assert(image[at + j] == body_bytes(entries)[13 * index + j]);
        assert((13 * index + j) / 13 == index);
        assert((13 * index + j) % 13 == j);
    }
    assert(record_at(image, index) =~= entries[index].1);
}

/// A built database has room for exactly its records.
pub proof fn lemma_whole_records(entries: Seq<Entry>, timestamp: i64)
    ensures
        whole_records(image_of(entries, timestamp)) == entries.len(),
{
    let image = image_of(entries, timestamp);
    assert(image.len() - BODY_START == 13 * entries.len() + 8);
    assert((13 * entries.len() + 8) / 13 == entries.len());
}

/// The timestamp read from a built database is the one that the build was
/// begun with.
pub proof fn lemma_timestamp_round_trip(entries: Seq<Entry>, timestamp: i64)
    requires
        buildable(entries),
    ensures
        timestamp_of(image_of(entries, timestamp)) == Ok::<i64, IoError>(timestamp),
{
    let image = image_of(entries, timestamp);
    lemma_entry_read_back(entries, timestamp, 0);
    lemma_i64_le_round_trip(timestamp as int);
    let at = record_offset(entries.len() as int);
    assert(image.subrange(at, at + 8) =~= i64_le_bytes(timestamp as int));
}

/// Two builds of the same entries differ in the last eight bytes at most.
pub proof fn lemma_reproducible(entries: Seq<Entry>, first: i64, second: i64)
    ensures
        image_of(entries, first).len() == image_of(entries, second).len(),
        forall|i: int|
            0 <= i < image_of(entries, first).len() - 8 ==> image_of(entries, first)[i]
                == image_of(entries, second)[i],
{
}

/// The bounds read for bucket `prefix` of a built database enclose as many
/// records as entries of that bucket went in, and the start lies at the
/// number of entries in the buckets below.
pub proof fn lemma_bucket_bounds(entries: Seq<Entry>, timestamp: i64, prefix: int)
    requires
        buildable(entries),
        0 <= prefix < BUCKETS,
    ensures
        bucket_indexes(image_of(entries, timestamp), prefix) matches Ok((start, end)) && {
            &&& start == count_between(entries, 0, prefix)
            &&& end == count_between(entries, 0, prefix + 1)
            &&& start <= end <= entries.len()
            &&& end - start == count_between(entries, prefix, prefix + 1)
        },
{
    lemma_entry_read_back(entries, timestamp, prefix);
    lemma_count_split(entries, 0, prefix, prefix + 1);
    lemma_count_bounded(entries, 0, prefix + 1);
    lemma_count_none_below(entries, 0);
    if prefix == LAST_BUCKET {
        lemma_entry_read_back(entries, timestamp, 0);
        lemma_count_all(entries);
    } else {
        lemma_entry_read_back(entries, timestamp, prefix + 1);
    }
}

/// The number of records between the bounds read for bucket `prefix`.
pub open spec fn bucket_len(image: Seq<u8>, prefix: int) -> int {
    match bucket_indexes(image, prefix) {
        Ok((start, end)) => end - start,
        Err(_) => 0,
    }
}

/// The numbers of records in buckets `0..buckets`, added up.
pub open spec fn bucket_len_sum(image: Seq<u8>, buckets: int) -> int
    decreases buckets,
{
    if buckets <= 0 {
        0
    } else {
        bucket_len_sum(image, buckets - 1) + bucket_len(image, buckets - 1)
    }
}

/// The buckets below `buckets` hold as many records as entries went into them.
pub proof fn lemma_bucket_len_sum(entries: Seq<Entry>, timestamp: i64, buckets: int)
    requires
        buildable(entries),
        0 <= buckets <= BUCKETS,
    ensures
        bucket_len_sum(image_of(entries, timestamp), buckets) == count_between(entries, 0, buckets),
    decreases buckets,
{
    if buckets == 0 {
        lemma_count_none_below(entries, 0);
    } else {
        lemma_bucket_len_sum(entries, timestamp, buckets - 1);
        lemma_bucket_bounds(entries, timestamp, buckets - 1);
        lemma_count_split(entries, 0, buckets - 1, buckets);
    }
}

/// Entry 0 of a built database is the sum over all buckets of the distance
/// between their bounds.
pub proof fn lemma_total_is_sum_of_buckets(entries: Seq<Entry>, timestamp: i64)
    requires
        buildable(entries),
    ensures
        entry_at(image_of(entries, timestamp), 0) == Ok::<u32, IoError>(
            bucket_len_sum(image_of(entries, timestamp), BUCKETS as int) as u32,
        ),
        bucket_len_sum(image_of(entries, timestamp), BUCKETS as int) == entries.len(),
{
    lemma_bucket_len_sum(entries, timestamp, BUCKETS as int);
    lemma_count_all(entries);
    lemma_entry_read_back(entries, timestamp, 0);
}

/// The start of bucket 0 is 0, whatever entry 0 holds, and its end is entry 1.
pub proof fn lemma_first_bucket(image: Seq<u8>)
    ensures
        match bucket_indexes(image, 0) {
            Ok((start, end)) => start == 0 && entry_at(image, 1) == Ok::<u32, IoError>(end),
            Err(e) => entry_at(image, 0) == Err::<u32, IoError>(e) || entry_at(image, 1) == Err::<
                u32,
                IoError,
            >(e),
        },
{
}

/// The end of the last bucket is entry 0, and its start is the last entry.
pub proof fn lemma_last_bucket(image: Seq<u8>)
    ensures
        match bucket_indexes(image, LAST_BUCKET as int) {
            Ok((start, end)) => entry_at(image, LAST_BUCKET as int) == Ok::<u32, IoError>(start)
                && entry_at(image, 0) == Ok::<u32, IoError>(end),
            Err(e) => entry_at(image, LAST_BUCKET as int) == Err::<u32, IoError>(e) || entry_at(
                image,
                0,
            ) == Err::<u32, IoError>(e),
        },
{
}

/// A bucket that no entry went into has equal bounds and no suffixes.
pub proof fn lemma_empty_bucket(entries: Seq<Entry>, timestamp: i64, prefix: int)
    requires
        buildable(entries),
        0 <= prefix < BUCKETS,
        count_between(entries, prefix, prefix + 1) == 0,
    ensures
        bucket_indexes(image_of(entries, timestamp), prefix) matches Ok((start, end)) && start
            == end,
        suffixes_in_bucket(image_of(entries, timestamp), prefix) == Ok::<Seq<Seq<u8>>, IoError>(
            Seq::empty(),
        ),
{
    lemma_bucket_bounds(entries, timestamp, prefix);
}

/// Looking up the digest of any entry of an ascending build finds it.
pub proof fn lemma_member_found(entries: Seq<Entry>, timestamp: i64, index: int)
    requires
        buildable(entries),
        ascending(entries),
        0 <= index < entries.len(),
    ensures
        contains(image_of(entries, timestamp), digest_of(entries[index].0 as int, entries[index].1))
            == Ok::<bool, IoError>(true),
{
    let image = image_of(entries, timestamp);
    let entry = entries[index];
    let prefix = entry.0 as int;
    lemma_parts_of_digest(prefix, entry.1);
    lemma_bucket_bounds(entries, timestamp, prefix);
    lemma_ascending_bucket(entries, prefix);
    lemma_record_read_back(entries, timestamp, index);
    let start = count_between(entries, 0, prefix) as int;
    let end = count_between(entries, 0, prefix + 1) as int;
    assert(start <= index < end);
    assert(record_at(image, index) == entry.1);
    assert(found_between(image, start, end, entry.1));
}

/// Looking up a digest that is the digest of no entry of an ascending build
/// does not find it.
pub proof fn lemma_stranger_not_found(entries: Seq<Entry>, timestamp: i64, digest: Seq<u8>)
    requires
        buildable(entries),
        ascending(entries),
        digest.len() == 16,
        forall|k: int|
            0 <= k < entries.len() ==> digest_of((#[trigger] entries[k]).0 as int, entries[k].1)
                != digest,
    ensures
        contains(image_of(entries, timestamp), digest) == Ok::<bool, IoError>(false),
{
    let image = image_of(entries, timestamp);
    let prefix = prefix_of(digest);
    let suffix = suffix_of(digest);
    lemma_digest_of_parts(digest);
    lemma_bucket_bounds(entries, timestamp, prefix);
    lemma_ascending_bucket(entries, prefix);
    lemma_whole_records(entries, timestamp);
    let start = count_between(entries, 0, prefix) as int;
    let end = count_between(entries, 0, prefix + 1) as int;
    assert forall|k: int| start <= k < end && k < whole_records(image) implies #[trigger] record_at(
        image,
        k,
    ) != suffix by {
        lemma_record_read_back(entries, timestamp, k);
        assert(entries[k].0 == prefix);
        if record_at(image, k) == suffix {
            assert(digest_of(entries[k].0 as int, entries[k].1) == digest);
        }
    }
    assert(!found_between(image, start, end, suffix));
}

/// In an ascending list the entries of bucket `prefix` are those between the
/// number of entries below it and the number of entries up to it.
pub proof fn lemma_suffixes_of_ascending(entries: Seq<Entry>, prefix: int)
    requires
        ascending(entries),
    ensures
        count_between(entries, 0, prefix) <= count_between(entries, 0, prefix + 1) <= entries.len(),
        suffixes_of(entries, prefix) == Seq::new(
            (count_between(entries, 0, prefix + 1) - count_between(entries, 0, prefix)) as nat,
            |i: int| entries[count_between(entries, 0, prefix) + i].1,
        ),
    decreases entries.len(),
{
    lemma_ascending_bucket(entries, prefix);
    let start = count_between(entries, 0, prefix) as int;
    let end = count_between(entries, 0, prefix + 1) as int;
    let stretch = Seq::new((end - start) as nat, |i: int| entries[start + i].1);
    if entries.len() == 0 {
        assert(suffixes_of(entries, prefix) =~= stretch);
    } else {
        let init = entries.drop_last();
        let last = entries.last();
        assert(forall|i: int| 0 <= i < init.len() ==> init[i] == entries[i]);
        lemma_suffixes_of_ascending(init, prefix);
        lemma_ascending_bucket(init, prefix);
        let init_start = count_between(init, 0, prefix) as int;
        let init_end = count_between(init, 0, prefix + 1) as int;
        assert(entries[entries.len() - 1] == last);
        if last.0 == prefix {
            assert(start == init_start);
            assert(end == init_end + 1);
            assert(start <= entries.len() - 1 < end);
            assert(end == entries.len());
            assert(suffixes_of(entries, prefix) =~= stretch);
        } else if last.0 < prefix {
            lemma_ascending_boundary(entries, prefix);
            lemma_ascending_boundary(entries, prefix + 1);
            lemma_count_bounded(entries, 0, prefix);
            assert(start == init_start + 1 && end == init_end + 1);
            assert(end == entries.len());
            assert(suffixes_of(entries, prefix) =~= stretch);
        } else {
            assert(start == init_start && end == init_end);
            assert(suffixes_of(entries, prefix) =~= stretch);
        }
    }
}

/// Bucket `prefix` of an ascending build lists the suffixes of the entries
/// of that bucket, in the order in which they went in.
pub proof fn lemma_bucket_contents(entries: Seq<Entry>, timestamp: i64, prefix: int)
    requires
        buildable(entries),
        ascending(entries),
        0 <= prefix < BUCKETS,
    ensures
        suffixes_in_bucket(image_of(entries, timestamp), prefix) == Ok::<Seq<Seq<u8>>, IoError>(
            suffixes_of(entries, prefix),
        ),
{
    let image = image_of(entries, timestamp);
    lemma_bucket_bounds(entries, timestamp, prefix);
    lemma_suffixes_of_ascending(entries, prefix);
    lemma_whole_records(entries, timestamp);
    let start = count_between(entries, 0, prefix) as int;
    let end = count_between(entries, 0, prefix + 1) as int;
    if start < end {
        let read = Seq::new((end - start) as nat, |i: int| record_at(image, start + i));
        assert forall|i: int| 0 <= i < end - start implies read[i] == suffixes_of(
            entries,
            prefix,
        )[i] by {
            lemma_record_read_back(entries, timestamp, start + i);
        }
        assert(read =~= suffixes_of(entries, prefix));
    } else {
        assert(suffixes_of(entries, prefix) =~= Seq::<Seq<u8>>::empty());
    }
}

/// The entries of `entries` in buckets `low..high` of an ascending list.
pub open spec fn stretch(entries: Seq<Entry>, low: int, high: int) -> Seq<Entry> {
    entries.subrange(
        count_between(entries, 0, low) as int,
        count_between(entries, 0, high) as int,
    )
}

/// The first `buckets` buckets of shard `prefix` of an ascending build give
/// back the entries that went into them, in the order in which they went in.
pub proof fn lemma_shard_read_back(entries: Seq<Entry>, timestamp: i64, prefix: u32, buckets: int)
    requires
        buildable(entries),
        ascending(entries),
        prefix < 0x10_0000,
        0 <= buckets <= 16,
    ensures
        count_between(entries, 0, 16 * prefix) <= count_between(entries, 0, 16 * prefix + buckets)
            <= entries.len(),
        shard_of(image_of(entries, timestamp), prefix, buckets) == Ok::<Seq<Entry>, IoError>(
            stretch(entries, 16 * prefix as int, 16 * prefix + buckets),
        ),
    decreases buckets,
{
    let image = image_of(entries, timestamp);
    let low = 16 * prefix as int;
    lemma_count_bounded(entries, 0, low + buckets);
    if buckets == 0 {
        assert(stretch(entries, low, low) =~= Seq::<Entry>::empty());
    } else {
        let bucket = low + buckets - 1;
        lemma_shard_read_back(entries, timestamp, prefix, buckets - 1);
        lemma_bucket_contents(entries, timestamp, bucket);
        lemma_suffixes_of_ascending(entries, bucket);
        lemma_ascending_bucket(entries, bucket);
        let start = count_between(entries, 0, bucket) as int;
        let end = count_between(entries, 0, bucket + 1) as int;
        let added = tagged(bucket as u32, suffixes_of(entries, bucket));
        assert forall|i: int| 0 <= i < end - start implies added[i] == entries[start + i] by {
            assert(entries[start + i].0 == bucket);
        }
        assert(added =~= entries.subrange(start, end));
        assert(stretch(entries, low, low + buckets) =~= stretch(entries, low, bucket) + added);
    }
}

/// The entries that `image` stores in its first `shards` shards, shard by shard.
pub open spec fn shards_of(image: Seq<u8>, shards: int) -> Result<Seq<Entry>, IoError>
    decreases shards,
{
    if shards <= 0 {
        Ok(Seq::empty())
    } else {
        match shards_of(image, shards - 1) {
            Err(e) => Err(e),
            Ok(before) => match shard_of(image, (shards - 1) as u32, 16) {
                Err(e) => Err(e),
                Ok(entries) => Ok(before + entries),
            },
        }
    }
}

/// Reading an ascending build back shard by shard gives its entries up to
/// the shards read.
pub proof fn lemma_shards_read_back(entries: Seq<Entry>, timestamp: i64, shards: int)
    requires
        buildable(entries),
        ascending(entries),
        0 <= shards <= 0x10_0000,
    ensures
        shards_of(image_of(entries, timestamp), shards) == Ok::<Seq<Entry>, IoError>(
            stretch(entries, 0, 16 * shards),
        ),
    decreases shards,
{
    lemma_count_none_below(entries, 0);
    lemma_count_bounded(entries, 0, 16 * shards);
    if shards == 0 {
        assert(stretch(entries, 0, 0) =~= Seq::<Entry>::empty());
    } else {
        lemma_shards_read_back(entries, timestamp, shards - 1);
        lemma_shard_read_back(entries, timestamp, (shards - 1) as u32, 16);
        assert(stretch(entries, 0, 16 * shards) =~= stretch(entries, 0, 16 * (shards - 1))
            + stretch(entries, 16 * (shards - 1), 16 * (shards - 1) + 16));
    }
}

/// A build from what an ascending build gives back when all its shards are
/// read is that build again, under its own timestamp.
pub proof fn lemma_rebuild_from_previous(entries: Seq<Entry>, earlier: i64, later: i64)
    requires
        buildable(entries),
        ascending(entries),
    ensures
        shards_of(image_of(entries, earlier), 0x10_0000) matches Ok(read) && image_of(read, later)
            == image_of(entries, later),
{
    lemma_shards_read_back(entries, earlier, 0x10_0000);
    lemma_count_none_below(entries, 0);
    lemma_count_all(entries);
    assert(stretch(entries, 0, 0x100_0000) =~= entries);
}

} // verus!
