//! Building a database in one forward pass: the records are appended in the
//! order in which they arrive, the directory is derived from per-bucket
//! counts once the last one is in, and the timestamp closes the file.
use vstd::prelude::*;
use crate::layout::{encode_i64_le, encode_u32_le, i64_le_bytes, u32_le_bytes, Record, BODY_START, BUCKETS};
use crate::records::{
    ascending, count_between, entries_of, lemma_ascending_push, lemma_count_bounded,
    lemma_count_none_below, lemma_count_split, well_formed, Entry,
};

verus! {

/// What directory entry `index` holds in a database of `entries`: the number
/// of entries in the buckets below `index`, and the number of all in entry 0.
pub open spec fn entry_of(entries: Seq<Entry>, index: int) -> int {
    if index == 0 {
        entries.len() as int
    } else {
        count_between(entries, 0, index) as int
    }
}

/// The directory of a database of `entries`.
pub open spec fn directory_bytes(entries: Seq<Entry>) -> Seq<u8> {
    Seq::new(BODY_START as nat, |i: int| u32_le_bytes(entry_of(entries, i / 4))[i % 4])
}

/// The suffixes of `entries`, one after the other.
pub open spec fn body_bytes(entries: Seq<Entry>) -> Seq<u8> {
    Seq::new(13 * entries.len(), |i: int| entries[i / 13].1[i % 13])
}

/// The database that a build begun at `timestamp` makes of `entries`.
pub open spec fn image_of(entries: Seq<Entry>, timestamp: i64) -> Seq<u8> {
    directory_bytes(entries) + body_bytes(entries) + i64_le_bytes(timestamp as int)
}

/// The body grows by the suffix of each entry that is added.
pub proof fn lemma_body_push(entries: Seq<Entry>, entry: Entry)
    requires
        entry.1.len() == 13,
    ensures
        body_bytes(entries.push(entry)) == body_bytes(entries) + entry.1,
{
    let grown = entries.push(entry);
    assert forall|i: int| 0 <= i < 13 * grown.len() implies body_bytes(grown)[i] == (body_bytes(
        entries,
    ) + entry.1)[i] by {
        if i < 13 * entries.len() {
            assert(grown[i / 13] == entries[i / 13]);
        } else {
            assert(i / 13 == entries.len());
            assert(i % 13 == i - 13 * entries.len());
        }
    }
    assert(body_bytes(grown) =~= body_bytes(entries) + entry.1);
}

/// The body of a concatenation is the concatenation of the bodies.
pub proof fn lemma_body_concat(first: Seq<Entry>, second: Seq<Entry>)
    requires
        well_formed(second),
    ensures
        body_bytes(first + second) == body_bytes(first) + body_bytes(second),
    decreases second.len(),
{
    if second.len() == 0 {
        assert(first + second =~= first);
        assert(body_bytes(second) =~= Seq::<u8>::empty());
        assert(body_bytes(first) + body_bytes(second) =~= body_bytes(first));
    } else {
        let init = second.drop_last();
        let last = second.last();
        assert(forall|i: int| 0 <= i < init.len() ==> init[i] == second[i]);
        lemma_body_concat(first, init);
        assert(first + second =~= (first + init).push(last));
        assert(second =~= init.push(last));
        lemma_body_push(first + init, last);
        lemma_body_push(init, last);
        assert(body_bytes(first) + (body_bytes(init) + last.1) =~= (body_bytes(first) + body_bytes(
            init,
        )) + last.1);
    }
}

/// Why records were not taken in.
#[derive(Clone, Copy, Debug, PartialEq, Eq, Structural)]
pub enum AppendError {
    /// A record names a bucket beyond the last one.
    PrefixOutOfRange,
    /// The database would hold more records than a directory entry counts.
    TooManyRecords,
}

/// The state of a build: how many records each bucket has received.
pub struct Builder {
    counts: Vec<u32>,
    total: u32,
    last: u32,
    sorted: bool,
    entries: Ghost<Seq<Entry>>,
}

impl View for Builder {
    type V = Seq<Entry>;

    /// The entries appended so far, in order.
    closed spec fn view(&self) -> Seq<Entry> {
        self.entries@
    }
}

/// `counts` holds for each bucket how many of `entries` fall into it.
pub open spec fn tallies(counts: Seq<u32>, entries: Seq<Entry>) -> bool {
    &&& counts.len() == BUCKETS
    &&& forall|p: int| 0 <= p < BUCKETS ==> #[trigger] counts[p] == count_between(entries, p, p + 1)
}

/// `last` is the bucket of the last of `entries`, and `sorted` tells whether
/// their buckets never decreased.
pub open spec fn follows(last: u32, sorted: bool, entries: Seq<Entry>) -> bool {
    &&& sorted == ascending(entries)
    &&& entries.len() > 0 ==> last == entries.last().0
}

impl Builder {
    #[verifier::type_invariant]
    spec fn counted(&self) -> bool {
        &&& tallies(self.counts@, self.entries@)
        &&& self.total == self.entries@.len()
        &&& well_formed(self.entries@)
        &&& follows(self.last, self.sorted, self.entries@)
    }

    /// A build that has received nothing.
    pub fn new() -> (builder: Self)
        ensures
            builder@ == Seq::<Entry>::empty(),
    {
        let counts: Vec<u32> = vec![0u32; 0x0100_0000];
        Builder { counts, total: 0, last: 0, sorted: true, entries: Ghost(Seq::empty()) }
    }

    /// The number of records received.
    pub fn total(&self) -> (total: u32)
        ensures
            total == self@.len(),
            well_formed(self@),
    {
        proof {
            use_type_invariant(self);
        }
        self.total
    }

    /// Whether the buckets of the records received never decreased. Only
    /// then does the database list each bucket's records under that bucket.
    pub fn is_ascending(&self) -> (yes: bool)
        ensures
            yes == ascending(self@),
    {
        proof {
            use_type_invariant(self);
        }
        self.sorted
    }

    /// Takes in `records`, all or none, and hands back their suffixes as the
    /// bytes to append to the file.
    pub fn append(&mut self, records: &[Record]) -> (r: Result<Vec<u8>, AppendError>)
        ensures
            well_formed(old(self)@),
            match r {
                Ok(bytes) => {
                    &&& well_formed(entries_of(records@))
                    &&& old(self)@.len() + records@.len() <= u32::MAX
                    &&& final(self)@ == old(self)@ + entries_of(records@)
                    &&& bytes@ == body_bytes(entries_of(records@))
                },
                Err(AppendError::PrefixOutOfRange) => {
                    &&& !well_formed(entries_of(records@))
                    &&& final(self)@ == old(self)@
                },
                Err(AppendError::TooManyRecords) => {
                    &&& well_formed(entries_of(records@))
                    &&& old(self)@.len() + records@.len() > u32::MAX
                    &&& final(self)@ == old(self)@
                },
            },
    {
        proof {
            use_type_invariant(&*self);
        }
        if !prefixes_in_range(records) {
            return Err(AppendError::PrefixOutOfRange);
        }
        if records.len() > (u32::MAX - self.total) as usize {
            return Err(AppendError::TooManyRecords);
        }
        let ghost added = entries_of(records@);
        let ghost start = self@;
        let mut bytes: Vec<u8> = Vec::new();
        let mut i: usize = 0;
        assert(start + added.take(0) =~= start);
        assert(body_bytes(added.take(0)) =~= Seq::<u8>::empty());
        while i < records.len()
            invariant
                i <= records.len(),
                added == entries_of(records@),
                well_formed(added),
                start.len() + records@.len() <= u32::MAX,
                self@ == start + added.take(i as int),
                bytes@ == body_bytes(added.take(i as int)),
            decreases records.len() - i,
        {
            let ghost entry = added[i as int];
            let ghost before = self@;
            assert(entry.0 == records@[i as int].0 && entry.1 == records@[i as int].1@);
            proof {
                use_type_invariant(&*self);
            }
            count_one(
                &mut self.counts,
                &mut self.total,
                &mut self.last,
                &mut self.sorted,
                &mut self.entries,
                records[i].0,
                Ghost(entry),
            );
            proof {
                assert(added.take(i + 1) =~= added.take(i as int).push(entry));
                assert(start + added.take(i + 1) =~= before.push(entry));
                lemma_body_push(added.take(i as int), entry);
            }
            let suffix: &[u8; 13] = &records[i].1;
            let ghost collected = bytes@;
            let mut j: usize = 0;
            while j < 13
                invariant
                    j <= 13,
                    suffix@ == entry.1,
                    bytes@ == collected + entry.1.take(j as int),
                decreases 13 - j,
            {
                bytes.push(suffix[j]);
                j += 1;
                assert(bytes@ =~= collected + entry.1.take(j as int));
            }
            assert(entry.1.take(13) =~= entry.1);
            i += 1;
        }
        assert(added.take(records@.len() as int) =~= added);
        Ok(bytes)
    }

    /// Closes the build: the timestamp to write after the last record, and
    /// the directory to write at the start of the file.
    pub fn finish(&self, timestamp: i64) -> (closing: ([u8; 8], Vec<u8>))
        ensures
            closing.0@ == i64_le_bytes(timestamp as int),
            closing.1@ == directory_bytes(self@),
            image_of(self@, timestamp) == closing.1@ + body_bytes(self@) + closing.0@,
    {
        proof {
            use_type_invariant(self);
        }
        let ghost entries = self.entries@;
        let mut directory: Vec<u8> = Vec::new();
        let mut below: u32 = 0;
        let mut p: usize = 0;
        proof {
            lemma_count_none_below(entries, 0);
        }
        while p < 0x0100_0000
            invariant
                p <= BUCKETS,
                entries == self.entries@,
                tallies(self.counts@, entries),
                self.total == entries.len(),
                well_formed(entries),
                below == count_between(entries, 0, p as int),
                directory@.len() == 4 * p,
                forall|i: int|
                    0 <= i < 4 * p ==> #[trigger] directory@[i] == u32_le_bytes(
                        entry_of(entries, i / 4),
                    )[i % 4],
            decreases BUCKETS - p,
        {
            let entry: u32 = if p == 0 {
                self.total
            } else {
                below
            };
            let bytes = encode_u32_le(entry);
            let ghost before = directory@;
            directory.push(bytes[0]);
            directory.push(bytes[1]);
            directory.push(bytes[2]);
            directory.push(bytes[3]);
            proof {
                lemma_count_split(entries, 0, p as int, p + 1);
                lemma_count_bounded(entries, 0, p + 1);
                assert forall|i: int| 0 <= i < 4 * (p + 1) implies #[trigger] directory@[i]
                    == u32_le_bytes(entry_of(entries, i / 4))[i % 4] by {
                    if i < 4 * p {
                        assert(directory@[i] == before[i]);
                    } else {
                        assert(i / 4 == p);
                    }
                }
            }
            below = below + self.counts[p];
            p += 1;
        }
        assert(directory@ =~= directory_bytes(entries));
        (encode_i64_le(timestamp), directory)
    }
}

/// The whole database of `records` in memory, for a build begun at
/// `timestamp`; the error of [`Builder::append`] where the records are not
/// taken in.
pub fn build_image(records: &[Record], timestamp: i64) -> (r: Result<Vec<u8>, AppendError>)
    ensures
        match r {
            Ok(image) => {
                &&& well_formed(entries_of(records@))
                &&& records@.len() <= u32::MAX
                &&& image@ == image_of(entries_of(records@), timestamp)
            },
            Err(AppendError::PrefixOutOfRange) => !well_formed(entries_of(records@)),
            Err(AppendError::TooManyRecords) => well_formed(entries_of(records@)) && records@.len()
                > u32::MAX,
        },
{
    let mut builder = Builder::new();
    let mut body = match builder.append(records) {
        Ok(body) => body,
        Err(e) => {
            return Err(e);
        },
    };
    assert(builder@ =~= entries_of(records@));
    let (stamp, mut image) = builder.finish(timestamp);
    image.append(&mut body);
    let ghost without = image@;
    let mut i: usize = 0;
    while i < 8
        invariant
            i <= 8,
            image@ == without + stamp@.take(i as int),
        decreases 8 - i,
    {
        image.push(stamp[i]);
        i += 1;
        assert(image@ =~= without + stamp@.take(i as int));
    }
    assert(stamp@.take(8) =~= stamp@);
    Ok(image)
}

/// Whether every record names an existing bucket.
fn prefixes_in_range(records: &[Record]) -> (all: bool)
    ensures
        all == well_formed(entries_of(records@)),
{
    let mut i: usize = 0;
    while i < records.len()
        invariant
            i <= records.len(),
            forall|j: int| 0 <= j < i ==> (#[trigger] records@[j]).0 < BUCKETS,
        decreases records.len() - i,
    {
        if records[i].0 >= BUCKETS {
            assert(entries_of(records@)[i as int].0 >= BUCKETS);
            return false;
        }
        i += 1;
    }
    assert forall|j: int| 0 <= j < entries_of(records@).len() implies (#[trigger] entries_of(
        records@,
    )[j]).0 < BUCKETS && entries_of(records@)[j].1.len() == 13 by {
        assert(records@[j].0 < BUCKETS);
    }
    true
}

/// Counts one more entry into bucket `prefix`.
fn count_one(
    counts: &mut Vec<u32>,
    total: &mut u32,
    last: &mut u32,
    sorted: &mut bool,
    entries: &mut Ghost<Seq<Entry>>,
    prefix: u32,
    Ghost(entry): Ghost<Entry>,
)
    requires
        tallies(old(counts)@, old(entries)@),
        *old(total) == old(entries)@.len(),
        well_formed(old(entries)@),
        follows(*old(last), *old(sorted), old(entries)@),
        *old(total) < u32::MAX,
        entry.0 == prefix,
        prefix < BUCKETS,
        entry.1.len() == 13,
    ensures
        tallies(final(counts)@, final(entries)@),
        *final(total) == final(entries)@.len(),
        well_formed(final(entries)@),
        follows(*final(last), *final(sorted), final(entries)@),
        final(entries)@ == old(entries)@.push(entry),
    no_unwind
{
    let ghost before = entries@;
    proof {
        lemma_count_bounded(before, prefix as int, prefix + 1);
    }
    let at: usize = prefix as usize;
    let count: u32 = counts[at];
    counts[at] = count + 1;
    if *total > 0 && prefix < *last {
        *sorted = false;
    }
    *last = prefix;
    *total = *total + 1;
    proof {
        *entries = Ghost(before.push(entry));
        assert(before.push(entry).drop_last() =~= before);
        lemma_ascending_push(before, entry);
    }
}

} // verus!
