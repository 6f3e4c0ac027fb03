//! Point queries against a database that is reached through positional reads.
use vstd::prelude::*;
use crate::layout::{
    decode_i64_le, decode_u32_le, entry_offset, i64_le, prefix_of, record_offset, split_digest,
    suffix_of, u32_le, BODY_START, BUCKETS, ENTRY_LEN, LAST_BUCKET, STAMP_LEN, SUFFIX_LEN,
};

verus! {

/// The read of `len` bytes at `offset` that the source did not serve.
#[derive(Clone, Copy, Debug, PartialEq, Eq, Structural)]
pub struct IoError {
    pub offset: u64,
    pub len: usize,
}

/// What a read of `len` bytes at `offset` finds in a file that holds `image`.
pub open spec fn read_image(image: Seq<u8>, offset: int, len: int) -> Option<Seq<u8>> {
    if 0 <= offset && 0 <= len && offset + len <= image.len() {
        Some(image.subrange(offset, offset + len))
    } else {
        None
    }
}

/// The bytes that a source handed out, if any.
pub open spec fn answer_bytes(answer: Option<Vec<u8>>) -> Option<Seq<u8>> {
    match answer {
        Some(bytes) => Some(bytes@),
        None => None,
    }
}

/// Whatever `source` hands out is what `image` holds at the place asked for.
/// The source may still refuse any read.
pub open spec fn reads_from<F: Fn(u64, usize) -> Option<Vec<u8>>>(
    source: F,
    image: Seq<u8>,
) -> bool {
    forall|offset: u64, len: usize, answer: Option<Vec<u8>>| #[trigger]
        source.ensures((offset, len), answer) ==> answer is Some ==> answer_bytes(answer)
            == read_image(image, offset as int, len as int)
}

/// `source` refuses a read only where the bytes asked for do not all lie
/// inside `image`.
pub open spec fn refuses_only_outside<F: Fn(u64, usize) -> Option<Vec<u8>>>(
    source: F,
    image: Seq<u8>,
) -> bool {
    forall|offset: u64, len: usize, answer: Option<Vec<u8>>| #[trigger]
        source.ensures((offset, len), answer) ==> answer is None ==> read_image(
            image,
            offset as int,
            len as int,
        ) is None
}

/// `source` answers every read as a file that holds `image` does: with the
/// bytes where they all lie inside the image, with a refusal elsewhere.
pub open spec fn serves<F: Fn(u64, usize) -> Option<Vec<u8>>>(source: F, image: Seq<u8>) -> bool {
    reads_from(source, image) && refuses_only_outside(source, image)
}

/// `source` did not answer the read `read` with as many bytes as were asked
/// for.
pub open spec fn failed_read<F: Fn(u64, usize) -> Option<Vec<u8>>>(source: F, read: IoError) -> bool {
    exists|answer: Option<Vec<u8>>| #[trigger]
        source.ensures((read.offset, read.len), answer) && !(answer matches Some(bytes)
            && bytes@.len() == read.len)
}

/// Directory entry `index` of `image`.
pub open spec fn entry_at(image: Seq<u8>, index: int) -> Result<u32, IoError> {
    match read_image(image, entry_offset(index), 4) {
        Some(bytes) => Ok(u32_le(bytes) as u32),
        None => Err(IoError { offset: entry_offset(index) as u64, len: 4 }),
    }
}

/// The timestamp of `image`: the eight bytes after the records that entry 0 counts.
pub open spec fn timestamp_of(image: Seq<u8>) -> Result<i64, IoError> {
    match entry_at(image, 0) {
        Err(e) => Err(e),
        Ok(total) => match read_image(image, record_offset(total as int), 8) {
            Some(bytes) => Ok(i64_le(bytes) as i64),
            None => Err(IoError { offset: record_offset(total as int) as u64, len: 8 }),
        },
    }
}

/// The directory entry that holds the end of bucket `prefix`.
pub open spec fn end_entry(prefix: int) -> int {
    if prefix == LAST_BUCKET {
        0
    } else {
        prefix + 1
    }
}

/// First record of bucket `prefix` and the record after its last. Entry
/// `prefix` is read even for bucket 0, where the start is 0 whatever it holds.
pub open spec fn bucket_indexes(image: Seq<u8>, prefix: int) -> Result<(u32, u32), IoError> {
    match entry_at(image, prefix) {
        Err(e) => Err(e),
        Ok(first) => match entry_at(image, end_entry(prefix)) {
            Err(e) => Err(e),
            Ok(second) => Ok(
                (
                    if prefix == 0 {
                        0u32
                    } else {
                        first
                    },
                    second,
                ),
            ),
        },
    }
}

/// How many whole records `image` has room for after the directory.
pub open spec fn whole_records(image: Seq<u8>) -> int {
    if image.len() < BODY_START {
        0
    } else {
        (image.len() - BODY_START) / 13
    }
}

/// Record `index` of `image`.
pub open spec fn record_at(image: Seq<u8>, index: int) -> Seq<u8> {
    image.subrange(record_offset(index), record_offset(index) + 13)
}

/// The read that fails when records `start..end` are read in order and not
/// all of them lie inside `image`.
pub open spec fn first_missing(image: Seq<u8>, start: int) -> IoError {
    IoError {
        offset: record_offset(
            if start < whole_records(image) {
                whole_records(image)
            } else {
                start
            },
        ) as u64,
        len: 13,
    }
}

/// Records `start..end` of `image` in order; none where `end <= start`.
pub open spec fn records_between(image: Seq<u8>, start: int, end: int) -> Result<
    Seq<Seq<u8>>,
    IoError,
> {
    if end <= start {
        Ok(Seq::empty())
    } else if end <= whole_records(image) {
        Ok(Seq::new((end - start) as nat, |i: int| record_at(image, start + i)))
    } else {
        Err(first_missing(image, start))
    }
}

/// The suffixes that `image` stores in bucket `prefix`.
pub open spec fn suffixes_in_bucket(image: Seq<u8>, prefix: int) -> Result<Seq<Seq<u8>>, IoError> {
    match bucket_indexes(image, prefix) {
        Err(e) => Err(e),
        Ok((start, end)) => records_between(image, start as int, end as int),
    }
}

/// Some record among `start..end` that lies inside `image` is `suffix`.
pub open spec fn found_between(image: Seq<u8>, start: int, end: int, suffix: Seq<u8>) -> bool {
    exists|k: int|
        start <= k < end && k < whole_records(image) && #[trigger] record_at(image, k) == suffix
}

/// Whether `suffix` is among records `start..end`, read in order until it is
/// found: a record outside `image` fails the scan unless the suffix came first.
pub open spec fn scan_between(image: Seq<u8>, start: int, end: int, suffix: Seq<u8>) -> Result<
    bool,
    IoError,
> {
    if found_between(image, start, end, suffix) {
        Ok(true)
    } else if end <= start || end <= whole_records(image) {
        Ok(false)
    } else {
        Err(first_missing(image, start))
    }
}

/// Whether `image` holds `digest`.
pub open spec fn contains(image: Seq<u8>, digest: Seq<u8>) -> Result<bool, IoError> {
    match bucket_indexes(image, prefix_of(digest)) {
        Err(e) => Err(e),
        Ok((start, end)) => scan_between(image, start as int, end as int, suffix_of(digest)),
    }
}

/// The byte sequences of a list of suffixes.
pub open spec fn suffix_views(suffixes: Seq<[u8; 13]>) -> Seq<Seq<u8>> {
    Seq::new(suffixes.len(), |i: int| suffixes[i]@)
}

/// A database behind `source`, which answers a read of `len` bytes at
/// `offset` with those bytes, or with `None` where it cannot.
pub struct CompactHashDB<F: Fn(u64, usize) -> Option<Vec<u8>>> {
    source: F,
}

impl<F: Fn(u64, usize) -> Option<Vec<u8>>> CompactHashDB<F> {
    /// The source that this database reads.
    pub closed spec fn source(&self) -> F {
        self.source
    }

    #[verifier::type_invariant]
    spec fn asks_what_is_accepted(&self) -> bool {
        forall|offset: u64, len: usize| self.source.requires((offset, len))
    }

    /// A database behind `source`. Nothing is read yet.
    pub fn open(source: F) -> (db: Self)
        requires
            forall|offset: u64, len: usize| source.requires((offset, len)),
        ensures
            db.source() == source,
    {
        CompactHashDB { source }
    }

    /// Reads exactly `len` bytes at `offset`; an answer of another length
    /// counts as a refusal.
    fn read_exact_at(&self, offset: u64, len: usize) -> (r: Result<Vec<u8>, IoError>)
        ensures
            r matches Ok(bytes) ==> bytes@.len() == len,
            r matches Err(e) ==> e == (IoError { offset, len }) && failed_read(self.source(), e),
            forall|image: Seq<u8>| #[trigger]
                reads_from(self.source(), image) ==> (r matches Ok(bytes) ==> read_image(
                    image,
                    offset as int,
                    len as int,
                ) == Some(bytes@)),
            forall|image: Seq<u8>| #[trigger]
                serves(self.source(), image) ==> (r is Err ==> read_image(
                    image,
                    offset as int,
                    len as int,
                ) is None),
    {
        proof {
            use_type_invariant(self);
        }
        let answer = (self.source)(offset, len);
        let ghost given = answer;
        let ghost read = IoError { offset, len };
        assert(self.source.ensures((read.offset, read.len), given));
        match answer {
            Some(bytes) => {
                if bytes.len() == len {
                    Ok(bytes)
                } else {
                    assert(given == Some(bytes));
                    assert(failed_read(self.source, read));
                    Err(IoError { offset, len })
                }
            },
            None => {
                assert(failed_read(self.source, read));
                Err(IoError { offset, len })
            },
        }
    }

    /// Reads the directory entry at `offset`.
    fn read_le_u32(&self, offset: u64) -> (r: Result<u32, IoError>)
        ensures
            r matches Err(e) ==> e == (IoError { offset, len: 4 }) && failed_read(self.source(), e),
            forall|image: Seq<u8>| #[trigger]
                reads_from(self.source(), image) ==> (r matches Ok(value) ==> read_image(
                    image,
                    offset as int,
                    4,
                ) matches Some(bytes) && value == u32_le(bytes)),
            forall|image: Seq<u8>| #[trigger]
                serves(self.source(), image) ==> (r is Err ==> read_image(image, offset as int, 4)
                    is None),
    {
        match self.read_exact_at(offset, ENTRY_LEN) {
            Err(e) => Err(e),
            Ok(bytes) => {
                let value = decode_u32_le(bytes.as_slice(), 0);
                assert(bytes@.subrange(0, 4) =~= bytes@);
                Ok(value)
            },
        }
    }

    /// Reads the timestamp at `offset`.
    fn read_le_i64(&self, offset: u64) -> (r: Result<i64, IoError>)
        ensures
            r matches Err(e) ==> e == (IoError { offset, len: 8 }) && failed_read(self.source(), e),
            forall|image: Seq<u8>| #[trigger]
                reads_from(self.source(), image) ==> (r matches Ok(value) ==> read_image(
                    image,
                    offset as int,
                    8,
                ) matches Some(bytes) && value == i64_le(bytes)),
            forall|image: Seq<u8>| #[trigger]
                serves(self.source(), image) ==> (r is Err ==> read_image(image, offset as int, 8)
                    is None),
    {
        match self.read_exact_at(offset, STAMP_LEN) {
            Err(e) => Err(e),
            Ok(bytes) => {
                let value = decode_i64_le(bytes.as_slice(), 0);
                assert(bytes@.subrange(0, 8) =~= bytes@);
                Ok(value)
            },
        }
    }

    /// The time at which the build of this database began, in nanoseconds
    /// since the Unix epoch.
    pub fn get_timestamp(&self) -> (r: Result<i64, IoError>)
        ensures
            r matches Err(e) ==> failed_read(self.source(), e),
            forall|image: Seq<u8>| #[trigger]
                serves(self.source(), image) ==> r == timestamp_of(image),
            forall|image: Seq<u8>| #[trigger]
                reads_from(self.source(), image) ==> r is Ok ==> r == timestamp_of(image),
    {
        let total = match self.read_le_u32(0) {
            Err(e) => { return Err(e); },
            Ok(total) => total,
        };
        let offset: u64 = BODY_START + (total as u64) * 13;
        self.read_le_i64(offset)
    }

    /// First record of bucket `prefix` and the record after its last.
    pub fn get_bucket_indexes(&self, prefix: u32) -> (r: Result<(u32, u32), IoError>)
        requires
            prefix < BUCKETS,
        ensures
            r matches Err(e) ==> failed_read(self.source(), e),
            forall|image: Seq<u8>| #[trigger]
                serves(self.source(), image) ==> r == bucket_indexes(image, prefix as int),
            forall|image: Seq<u8>| #[trigger]
                reads_from(self.source(), image) ==> r is Ok ==> r == bucket_indexes(
                    image,
                    prefix as int,
                ),
    {
        let first = match self.read_le_u32((prefix as u64) * 4) {
            Err(e) => { return Err(e); },
            Ok(first) => first,
        };
        let start: u32 = if prefix == 0 {
            0
        } else {
            first
        };
        let end_at: u64 = if prefix == LAST_BUCKET {
            0
        } else {
            (prefix as u64 + 1) * 4
        };
        match self.read_le_u32(end_at) {
            Err(e) => Err(e),
            Ok(end) => Ok((start, end)),
        }
    }

    /// The suffixes stored in bucket `prefix`, in file order.
    pub fn get_hashs_suffix(&self, prefix: u32) -> (r: Result<Vec<[u8; 13]>, IoError>)
        requires
            prefix < BUCKETS,
        ensures
            r matches Err(e) ==> failed_read(self.source(), e),
            forall|image: Seq<u8>| #[trigger]
                serves(self.source(), image) ==> match r {
                    Ok(suffixes) => suffixes_in_bucket(image, prefix as int) == Ok::<
                        Seq<Seq<u8>>,
                        IoError,
                    >(suffix_views(suffixes@)),
                    Err(e) => suffixes_in_bucket(image, prefix as int) == Err::<
                        Seq<Seq<u8>>,
                        IoError,
                    >(e),
                },
            forall|image: Seq<u8>| #[trigger]
                reads_from(self.source(), image) ==> (r matches Ok(suffixes)
                    ==> suffixes_in_bucket(image, prefix as int) == Ok::<Seq<Seq<u8>>, IoError>(
                    suffix_views(suffixes@),
                )),
    {
        let (start, end) = match self.get_bucket_indexes(prefix) {
            Err(e) => { return Err(e); },
            Ok(bounds) => bounds,
        };
        let mut suffixes: Vec<[u8; 13]> = Vec::new();
        if end <= start {
            assert(suffix_views(suffixes@) =~= Seq::<Seq<u8>>::empty());
            return Ok(suffixes);
        }
        let mut k: u32 = start;
        while k < end
            invariant
                start <= k <= end,
                start < end,
                suffixes@.len() == k - start,
                forall|image: Seq<u8>| #[trigger]
                    reads_from(self.source(), image) ==> bucket_indexes(image, prefix as int)
                        == Ok::<(u32, u32), IoError>((start, end)),
                forall|image: Seq<u8>| #[trigger]
                    reads_from(self.source(), image) ==> (k == start || k <= whole_records(image)),
                forall|image: Seq<u8>, i: int|
                    #![trigger reads_from(self.source(), image), suffixes@[i]]
                    reads_from(self.source(), image) && 0 <= i < k - start ==> suffixes@[i]@
                        == record_at(image, start + i),
            decreases end - k,
        {
            let offset: u64 = BODY_START + (k as u64) * 13;
            match self.read_exact_at(offset, SUFFIX_LEN) {
                Err(e) => {
                    assert forall|image: Seq<u8>| #[trigger]
                        serves(self.source(), image) implies suffixes_in_bucket(
                        image,
                        prefix as int,
                    ) == Err::<Seq<Seq<u8>>, IoError>(e) by {
                        assert(reads_from(self.source(), image));
                        assert(read_image(image, offset as int, 13) is None);
                    }
                    return Err(e);
                },
                Ok(bytes) => {
                    let suffix = suffix_from(bytes.as_slice());
                    let ghost before = suffixes@;
                    suffixes.push(suffix);
                    assert forall|image: Seq<u8>, i: int|
                        #![trigger reads_from(self.source(), image), suffixes@[i]]
                        reads_from(self.source(), image) && 0 <= i < k + 1 - start implies suffixes@[i]@
                        == record_at(image, start + i) by {
                        if i < k - start {
                            assert(suffixes@[i] == before[i]);
                        } else {
                            assert(read_image(image, offset as int, 13) == Some(bytes@));
                        }
                    }
                    assert forall|image: Seq<u8>| #[trigger]
                        reads_from(self.source(), image) implies k + 1 <= whole_records(image) by {
                        assert(read_image(image, offset as int, 13) == Some(bytes@));
                    }
                    k += 1;
                },
            }
        }
        assert forall|image: Seq<u8>| #[trigger]
            reads_from(self.source(), image) implies suffixes_in_bucket(image, prefix as int)
            == Ok::<Seq<Seq<u8>>, IoError>(suffix_views(suffixes@)) by {
            assert(suffix_views(suffixes@) =~= Seq::new(
                (end - start) as nat,
                |i: int| record_at(image, start + i),
            ));
        }
        Ok(suffixes)
    }

    /// Whether the database holds `hash`: the records of its bucket are read
    /// in order until its suffix is found.
    pub fn find_hash(&self, hash: &[u8; 16]) -> (r: Result<bool, IoError>)
        ensures
            r matches Err(e) ==> failed_read(self.source(), e),
            forall|image: Seq<u8>| #[trigger]
                serves(self.source(), image) ==> r == contains(image, hash@),
            forall|image: Seq<u8>| #[trigger]
                reads_from(self.source(), image) ==> r is Ok ==> r == contains(image, hash@),
    {
        let (prefix, suffix) = split_digest(hash);
        let (start, end) = match self.get_bucket_indexes(prefix) {
            Err(e) => { return Err(e); },
            Ok(bounds) => bounds,
        };
        if end <= start {
            return Ok(false);
        }
        let mut k: u32 = start;
        while k < end
            invariant
                start <= k <= end,
                start < end,
                prefix == prefix_of(hash@),
                suffix@ == suffix_of(hash@),
                forall|image: Seq<u8>| #[trigger]
                    reads_from(self.source(), image) ==> bucket_indexes(image, prefix as int)
                        == Ok::<(u32, u32), IoError>((start, end)),
                forall|image: Seq<u8>| #[trigger]
                    reads_from(self.source(), image) ==> (k == start || k <= whole_records(image)),
                forall|image: Seq<u8>, i: int|
                    #![trigger reads_from(self.source(), image), record_at(image, i)]
                    reads_from(self.source(), image) && start <= i < k ==> record_at(image, i)
                        != suffix@,
            decreases end - k,
        {
            let offset: u64 = BODY_START + (k as u64) * 13;
            match self.read_exact_at(offset, SUFFIX_LEN) {
                Err(e) => {
                    assert forall|image: Seq<u8>| #[trigger]
                        serves(self.source(), image) implies contains(image, hash@) == Err::<
                        bool,
                        IoError,
                    >(e) by {
                        assert(reads_from(self.source(), image));
                        assert(read_image(image, offset as int, 13) is None);
                        assert(!found_between(image, start as int, end as int, suffix@));
                    }
                    return Err(e);
                },
                Ok(bytes) => {
                    if same_bytes(bytes.as_slice(), suffix.as_slice()) {
                        assert forall|image: Seq<u8>| #[trigger]
                            reads_from(self.source(), image) implies contains(image, hash@)
                            == Ok::<bool, IoError>(true) by {
                            assert(read_image(image, offset as int, 13) == Some(bytes@));
                            assert(record_at(image, k as int) == suffix@);
                        }
                        return Ok(true);
                    }
                    assert forall|image: Seq<u8>| #[trigger]
                        reads_from(self.source(), image) implies k + 1 <= whole_records(image)
                        && record_at(image, k as int) != suffix@ by {
                        assert(read_image(image, offset as int, 13) == Some(bytes@));
                    }
                    k += 1;
                },
            }
        }
        assert forall|image: Seq<u8>| #[trigger]
            reads_from(self.source(), image) implies contains(image, hash@) == Ok::<
            bool,
            IoError,
        >(false) by {
            assert(!found_between(image, start as int, end as int, suffix@));
        }
        Ok(false)
    }
}

/// The array that holds the 13 bytes of `bytes`.
fn suffix_from(bytes: &[u8]) -> (suffix: [u8; 13])
    requires
        bytes.len() == 13,
    ensures
        suffix@ == bytes@,
{
    let suffix: [u8; 13] = [
        bytes[0], bytes[1], bytes[2], bytes[3], bytes[4], bytes[5], bytes[6],
        bytes[7], bytes[8], bytes[9], bytes[10], bytes[11], bytes[12],
    ];
    assert(suffix@ =~= bytes@);
    suffix
}

/// Whether two byte strings are the same.
fn same_bytes(a: &[u8], b: &[u8]) -> (same: bool)
    ensures
        same == (a@ == b@),
{
    if a.len() != b.len() {
        return false;
    }
    let mut i: usize = 0;
    while i < a.len()
        invariant
            a.len() == b.len(),
            i <= a.len(),
            forall|j: int| 0 <= j < i ==> a@[j] == b@[j],
        decreases a.len() - i,
    {
        if a[i] != b[i] {
            return false;
        }
        i += 1;
    }
    assert(a@ =~= b@);
    true
}

/// Answers a read from an image held in memory, as a file that holds
/// `image` does.
pub fn read_slice(image: &[u8], offset: u64, len: usize) -> (answer: Option<Vec<u8>>)
    ensures
        answer_bytes(answer) == read_image(image@, offset as int, len as int),
{
    if offset > image.len() as u64 || len > image.len() - offset as usize {
        return None;
    }
    let start: usize = offset as usize;
    let mut bytes: Vec<u8> = Vec::new();
    let mut i: usize = 0;
    while i < len
        invariant
            start + len <= image.len(),
            i <= len,
            bytes@ == image@.subrange(start as int, start + i),
        decreases len - i,
    {
        bytes.push(image[start + i]);
        i += 1;
        assert(bytes@ =~= image@.subrange(start as int, start + i));
    }
    Some(bytes)
}

} // verus!
