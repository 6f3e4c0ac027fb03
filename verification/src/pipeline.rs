//! A build shard by shard: the shards are merged in ascending order, each
//! from the text that the service sent or from the previous database, and
//! the records of each are handed back as the bytes to append to the file.
use vstd::prelude::*;
use crate::builder::{body_bytes, directory_bytes, image_of, Builder};
use crate::layout::i64_le_bytes;
use crate::parser::SHARDS;
use crate::reader::{failed_read, reads_from, serves, CompactHashDB, IoError};
use crate::records::{
    ascending, count_between, entries_of, in_shard, lemma_all_below, lemma_ascending_concat,
    lemma_count_concat, lemma_count_in_shard, lemma_count_widen, lemma_in_shard_well_formed,
    well_formed, Entry,
};
use crate::shard::{shard_stream, shard_to_hash_stream, DownloadResult, ShardError};

verus! {

/// Why a shard was not merged.
#[derive(Clone, Copy, Debug, PartialEq, Eq, Structural)]
pub enum BuildError {
    /// All shards have been merged already.
    Complete,
    /// The shard handed over is not the one that comes next.
    OutOfOrder,
    /// The service reported no change, and there is no previous database.
    MissingPrevious,
    /// The previous database did not serve a read.
    Io(IoError),
    /// The database would hold more records than a directory entry counts.
    TooManyRecords,
}

/// What merging shard `prefix` makes of a build that holds `entries` and
/// has merged `merged` shards, where `stream` is what the shard holds: the
/// entries of the build afterwards, or why the shard is not merged.
pub open spec fn merge_outcome(
    entries: Seq<Entry>,
    merged: int,
    prefix: u32,
    stream: Result<Seq<Entry>, ShardError>,
) -> Result<Seq<Entry>, BuildError> {
    if merged >= SHARDS {
        Err(BuildError::Complete)
    } else if prefix != merged {
        Err(BuildError::OutOfOrder)
    } else {
        match stream {
            Err(ShardError::MissingPrevious) => Err(BuildError::MissingPrevious),
            Err(ShardError::Io(e)) => Err(BuildError::Io(e)),
            Ok(added) => if entries.len() + added.len() > u32::MAX {
                Err(BuildError::TooManyRecords)
            } else {
                Ok(entries + added)
            },
        }
    }
}

/// `r` fails as `expected` does, or the build holds the entries of `expected`.
pub open spec fn merged_is(
    r: Result<Vec<u8>, BuildError>,
    entries: Seq<Entry>,
    expected: Result<Seq<Entry>, BuildError>,
) -> bool {
    match expected {
        Ok(all) => r is Ok && entries == all,
        Err(e) => r == Err::<Vec<u8>, BuildError>(e),
    }
}

/// A build in progress: the shards below `next` have been merged.
pub struct Build {
    builder: Builder,
    next: u32,
}

impl View for Build {
    type V = Seq<Entry>;

    /// The entries merged so far, in order.
    closed spec fn view(&self) -> Seq<Entry> {
        self.builder@
    }
}

impl Build {
    /// The number of shards merged.
    pub closed spec fn merged(&self) -> int {
        self.next as int
    }

    /// No more shards are merged than there are, and the entries merged all
    /// lie in the buckets of the shards merged: the counts of those buckets
    /// add up to the number of records handed back.
    pub open spec fn wf(&self) -> bool {
        &&& 0 <= self.merged() <= SHARDS
        &&& count_between(self@, 0, 16 * self.merged()) == self@.len()
    }

    /// A build that has merged nothing.
    pub fn new() -> (build: Self)
        ensures
            build.wf(),
            build.merged() == 0,
            build@ == Seq::<Entry>::empty(),
    {
        Build { builder: Builder::new(), next: 0 }
    }

    /// The shard to merge next, if any is left.
    pub fn next_shard(&self) -> (next: Option<u32>)
        requires
            self.wf(),
        ensures
            next == if self.merged() < SHARDS {
                Some(self.merged() as u32)
            } else {
                None
            },
    {
        if self.next < SHARDS {
            Some(self.next)
        } else {
            None
        }
    }

    /// The number of records merged.
    pub fn total(&self) -> (total: u32)
        ensures
            total == self@.len(),
            well_formed(self@),
    {
        self.builder.total()
    }

    /// Whether the buckets of the records merged never decreased.
    pub fn is_ascending(&self) -> (yes: bool)
        ensures
            yes == ascending(self@),
    {
        self.builder.is_ascending()
    }

    /// Merges shard `prefix`, for which the service answered `result`, and
    /// hands back the suffixes of its records as the bytes to append to the
    /// file. The shards are taken in ascending order only; on an error
    /// nothing is merged.
    pub fn merge<F: Fn(u64, usize) -> Option<Vec<u8>>>(
        &mut self,
        prefix: u32,
        result: &DownloadResult,
        previous: Option<&CompactHashDB<F>>,
    ) -> (r: Result<Vec<u8>, BuildError>)
        requires
            old(self).wf(),
        ensures
            final(self).wf(),
            match r {
                Ok(bytes) => {
                    let added = final(self)@.skip(old(self)@.len() as int);
                    &&& final(self).merged() == old(self).merged() + 1
                    &&& final(self)@ == old(self)@ + added
                    &&& prefix == old(self).merged()
                    &&& in_shard(added, prefix)
                    &&& bytes@ == body_bytes(added)
                    &&& ascending(old(self)@) && ascending(added) ==> ascending(final(self)@)
                },
                Err(_) => final(self)@ == old(self)@ && final(self).merged() == old(self).merged(),
            },
            r matches Err(BuildError::Io(e)) ==> previous is Some && failed_read(
                previous.unwrap().source(),
                e,
            ),
            result is Text || previous is None || prefix != old(self).merged() || old(
                self,
            ).merged() >= SHARDS ==> merged_is(
                r,
                final(self)@,
                merge_outcome(
                    old(self)@,
                    old(self).merged(),
                    prefix,
                    shard_stream(prefix, *result, None),
                ),
            ),
            forall|image: Seq<u8>|
                result is Cached && previous is Some && #[trigger] serves(
                    previous.unwrap().source(),
                    image,
                ) ==> merged_is(
                    r,
                    final(self)@,
                    merge_outcome(
                        old(self)@,
                        old(self).merged(),
                        prefix,
                        shard_stream(prefix, *result, Some(image)),
                    ),
                ),
            forall|image: Seq<u8>|
                result is Cached && previous is Some && #[trigger] reads_from(
                    previous.unwrap().source(),
                    image,
                ) ==> r is Ok ==> merged_is(
                    r,
                    final(self)@,
                    merge_outcome(
                        old(self)@,
                        old(self).merged(),
                        prefix,
                        shard_stream(prefix, *result, Some(image)),
                    ),
                ),
    {
        if self.next >= SHARDS {
            return Err(BuildError::Complete);
        }
        if prefix != self.next {
            return Err(BuildError::OutOfOrder);
        }
        let records = match shard_to_hash_stream(prefix, result, previous) {
            Ok(records) => records,
            Err(ShardError::MissingPrevious) => {
                return Err(BuildError::MissingPrevious);
            },
            Err(ShardError::Io(e)) => {
                return Err(BuildError::Io(e));
            },
        };
        let ghost before = self.builder@;
        let ghost added = entries_of(records@);
        proof {
            lemma_in_shard_well_formed(added, prefix);
        }
        match self.builder.append(records.as_slice()) {
            Ok(bytes) => {
                proof {
                    lemma_count_in_shard(added, prefix);
                    lemma_count_widen(before, 16 * prefix as int, 16 * prefix + 16);
                    lemma_count_concat(before, added, 0, 16 * prefix + 16);
                    assert((before + added).skip(before.len() as int) =~= added);
                    if ascending(before) && ascending(added) {
                        lemma_all_below(before, 16 * prefix as int);
                        assert forall|i: int| 0 <= i < added.len() implies 16 * prefix <= (
                        #[trigger] added[i]).0 by {
                            assert(added[i].0 / 16 == prefix);
                        }
                        lemma_ascending_concat(before, added, 16 * prefix as int);
                    }
                }
                self.next = prefix + 1;
                Ok(bytes)
            },
            // The records of a shard lie in its buckets: they can only be too many.
            Err(_) => Err(BuildError::TooManyRecords),
        }
    }

    /// Closes the build: the timestamp to write after the last record, and
    /// the directory to write at the start of the file.
    pub fn finish(&self, timestamp: i64) -> (closing: ([u8; 8], Vec<u8>))
        ensures
            closing.0@ == i64_le_bytes(timestamp as int),
            closing.1@ == directory_bytes(self@),
            image_of(self@, timestamp) == closing.1@ + body_bytes(self@) + closing.0@,
    {
        self.builder.finish(timestamp)
    }
}

} // verus!
