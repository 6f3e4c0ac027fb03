//! Sequences of records as the builder takes them in, and how many of them
//! fall into a range of buckets.
use vstd::prelude::*;
use crate::layout::{Record, BUCKETS};

verus! {

/// A record in specifications: its bucket and the 13 bytes of its suffix.
pub type Entry = (u32, Seq<u8>);

/// The entries that a list of records stands for.
pub open spec fn entries_of(records: Seq<Record>) -> Seq<Entry> {
    Seq::new(records.len(), |i: int| (records[i].0, records[i].1@))
}

/// Every entry names a bucket that exists and holds a suffix of 13 bytes.
pub open spec fn well_formed(entries: Seq<Entry>) -> bool {
    forall|i: int|
        0 <= i < entries.len() ==> (#[trigger] entries[i]).0 < BUCKETS && entries[i].1.len() == 13
}

/// The buckets of the entries never decrease.
pub open spec fn ascending(entries: Seq<Entry>) -> bool {
    forall|i: int, j: int|
        0 <= i <= j < entries.len() ==> (#[trigger] entries[i]).0 <= (#[trigger] entries[j]).0
}

/// How many entries lie in buckets `low..high`.
pub open spec fn count_between(entries: Seq<Entry>, low: int, high: int) -> nat
    decreases entries.len(),
{
    if entries.len() == 0 {
        0
    } else {
        count_between(entries.drop_last(), low, high) + if low <= entries.last().0 < high {
            1nat
        } else {
            0nat
        }
    }
}

/// The entries of bucket `prefix`, in the order in which they came.
pub open spec fn suffixes_of(entries: Seq<Entry>, prefix: int) -> Seq<Seq<u8>>
    decreases entries.len(),
{
    if entries.len() == 0 {
        Seq::empty()
    } else if entries.last().0 == prefix {
        suffixes_of(entries.drop_last(), prefix).push(entries.last().1)
    } else {
        suffixes_of(entries.drop_last(), prefix)
    }
}

/// No more entries lie in a range of buckets than there are.
pub proof fn lemma_count_bounded(entries: Seq<Entry>, low: int, high: int)
    ensures
        count_between(entries, low, high) <= entries.len(),
    decreases entries.len(),
{
    if entries.len() > 0 {
        lemma_count_bounded(entries.drop_last(), low, high);
    }
}

/// Adjacent ranges of buckets add up.
pub proof fn lemma_count_split(entries: Seq<Entry>, low: int, mid: int, high: int)
    requires
        low <= mid <= high,
    ensures
        count_between(entries, low, high) == count_between(entries, low, mid) + count_between(
            entries,
            mid,
            high,
        ),
    decreases entries.len(),
{
    if entries.len() > 0 {
        lemma_count_split(entries.drop_last(), low, mid, high);
    }
}

/// Every well-formed entry lies in one of the buckets.
pub proof fn lemma_count_all(entries: Seq<Entry>)
    requires
        well_formed(entries),
    ensures
        count_between(entries, 0, BUCKETS as int) == entries.len(),
    decreases entries.len(),
{
    if entries.len() > 0 {
        lemma_count_all(entries.drop_last());
        assert(entries.last() == entries[entries.len() - 1]);
    }
}

/// Counting goes entry by entry through a concatenation.
pub proof fn lemma_count_concat(first: Seq<Entry>, second: Seq<Entry>, low: int, high: int)
    ensures
        count_between(first + second, low, high) == count_between(first, low, high)
            + count_between(second, low, high),
    decreases second.len(),
{
    if second.len() == 0 {
        assert(first + second =~= first);
    } else {
        lemma_count_concat(first, second.drop_last(), low, high);
        assert((first + second).drop_last() =~= first + second.drop_last());
    }
}

/// In an ascending list the entries below bucket `bound` are exactly the
/// first `count_between(entries, 0, bound)` ones.
pub proof fn lemma_ascending_boundary(entries: Seq<Entry>, bound: int)
    requires
        ascending(entries),
    ensures
        forall|k: int|
            0 <= k < entries.len() ==> ((#[trigger] entries[k]).0 < bound <==> k < count_between(
                entries,
                0,
                bound,
            )),
    decreases entries.len(),
{
    if entries.len() > 0 {
        let init = entries.drop_last();
        let last = entries.last();
        assert(forall|i: int| 0 <= i < init.len() ==> init[i] == entries[i]);
        lemma_ascending_boundary(init, bound);
        lemma_count_bounded(init, 0, bound);
        if last.0 < bound && init.len() > 0 {
            let k = init.len() - 1;
            assert(entries[k].0 <= entries[entries.len() - 1].0);
            assert(init[k].0 < bound);
        }
        assert forall|k: int| 0 <= k < entries.len() implies ((#[trigger] entries[k]).0 < bound
            <==> k < count_between(entries, 0, bound)) by {
            if k < init.len() {
                assert(init[k] == entries[k]);
            }
        }
    }
}

/// In an ascending list bucket `prefix` is the stretch of entries from
/// `count_between(entries, 0, prefix)` up to `count_between(entries, 0, prefix + 1)`.
pub proof fn lemma_ascending_bucket(entries: Seq<Entry>, prefix: int)
    requires
        ascending(entries),
    ensures
        count_between(entries, 0, prefix) <= count_between(entries, 0, prefix + 1) <= entries.len(),
        forall|k: int|
            0 <= k < entries.len() ==> ((#[trigger] entries[k]).0 == prefix <==> count_between(
                entries,
                0,
                prefix,
            ) <= k < count_between(entries, 0, prefix + 1)),
{
    lemma_ascending_boundary(entries, prefix);
    lemma_ascending_boundary(entries, prefix + 1);
    lemma_count_bounded(entries, 0, prefix + 1);
    if 0 <= prefix {
        lemma_count_split(entries, 0, prefix, prefix + 1);
    } else {
        lemma_count_none_below(entries, prefix);
        lemma_count_none_below(entries, prefix + 1);
    }
}

/// No entry lies below bucket 0.
pub proof fn lemma_count_none_below(entries: Seq<Entry>, bound: int)
    requires
        bound <= 0,
    ensures
        count_between(entries, 0, bound) == 0,
    decreases entries.len(),
{
    if entries.len() > 0 {
        lemma_count_none_below(entries.drop_last(), bound);
    }
}

/// A list stays ascending under a new last entry exactly if it was
/// ascending and the bucket of the new entry is not below that of the last.
pub proof fn lemma_ascending_push(entries: Seq<Entry>, entry: Entry)
    ensures
        ascending(entries.push(entry)) <==> ascending(entries) && (entries.len() == 0
            || entries.last().0 <= entry.0),
{
    let grown = entries.push(entry);
    if ascending(grown) {
        assert forall|i: int, j: int| 0 <= i <= j < entries.len() implies (#[trigger] entries[i]).0
            <= (#[trigger] entries[j]).0 by {
            assert(grown[i].0 <= grown[j].0);
        }
        if entries.len() > 0 {
            assert(grown[entries.len() - 1].0 <= grown[entries.len() as int].0);
        }
    }
    if ascending(entries) && (entries.len() == 0 || entries.last().0 <= entry.0) {
        assert forall|i: int, j: int| 0 <= i <= j < grown.len() implies (#[trigger] grown[i]).0
            <= (#[trigger] grown[j]).0 by {
            if j < entries.len() {
                assert(entries[i].0 <= entries[j].0);
            } else if i < entries.len() {
                assert(entries[i].0 <= entries[entries.len() - 1].0);
            }
        }
    }
}

/// Every entry lies in one of the 16 buckets of shard `prefix` and holds 13 bytes.
pub open spec fn in_shard(entries: Seq<Entry>, prefix: u32) -> bool {
    forall|i: int|
        0 <= i < entries.len() ==> (#[trigger] entries[i]).0 / 16 == prefix && entries[i].1.len()
            == 13
}

/// The entries of a shard all lie below the first bucket of the next shard.
pub proof fn lemma_count_in_shard(entries: Seq<Entry>, prefix: u32)
    requires
        in_shard(entries, prefix),
    ensures
        count_between(entries, 0, 16 * prefix + 16) == entries.len(),
    decreases entries.len(),
{
    if entries.len() > 0 {
        let init = entries.drop_last();
        assert(forall|i: int| 0 <= i < init.len() ==> init[i] == entries[i]);
        lemma_count_in_shard(init, prefix);
        assert(entries.last() == entries[entries.len() - 1]);
    }
}

/// Widening a range of buckets loses no entry.
pub proof fn lemma_count_widen(entries: Seq<Entry>, high: int, higher: int)
    requires
        0 <= high <= higher,
        count_between(entries, 0, high) == entries.len(),
    ensures
        count_between(entries, 0, higher) == entries.len(),
{
    lemma_count_split(entries, 0, high, higher);
    lemma_count_bounded(entries, 0, higher);
}

/// All entries lie in buckets below `bound`.
pub open spec fn all_below(entries: Seq<Entry>, bound: int) -> bool {
    forall|i: int| 0 <= i < entries.len() ==> (#[trigger] entries[i]).0 < bound
}

/// The entries all lie below `bound` exactly if counting those below
/// `bound` counts them all.
pub proof fn lemma_all_below(entries: Seq<Entry>, bound: int)
    ensures
        all_below(entries, bound) <==> count_between(entries, 0, bound) == entries.len(),
    decreases entries.len(),
{
    if entries.len() > 0 {
        let init = entries.drop_last();
        assert(forall|i: int| 0 <= i < init.len() ==> init[i] == entries[i]);
        lemma_all_below(init, bound);
        lemma_count_bounded(init, 0, bound);
        assert(entries.last() == entries[entries.len() - 1]);
        if all_below(entries, bound) {
            assert(all_below(init, bound));
        }
        if count_between(entries, 0, bound) == entries.len() {
            assert forall|i: int| 0 <= i < entries.len() implies (#[trigger] entries[i]).0
                < bound by {
                if i < init.len() {
                    assert(init[i].0 < bound);
                }
            }
        }
    }
}

/// Ascending entries followed by ascending entries of higher buckets are
/// ascending: shards merged in order keep the order of the records.
pub proof fn lemma_ascending_concat(first: Seq<Entry>, second: Seq<Entry>, bound: int)
    requires
        ascending(first),
        ascending(second),
        all_below(first, bound),
        forall|i: int| 0 <= i < second.len() ==> bound <= (#[trigger] second[i]).0,
    ensures
        ascending(first + second),
{
    let all = first + second;
    assert forall|i: int, j: int| 0 <= i <= j < all.len() implies (#[trigger] all[i]).0 <= (
    #[trigger] all[j]).0 by {
        if j < first.len() {
            assert(first[i].0 <= first[j].0);
        } else if i < first.len() {
            assert(first[i].0 < bound);
            assert(bound <= second[j - first.len()].0);
        } else {
            assert(second[i - first.len()].0 <= second[j - first.len()].0);
        }
    }
}

/// The entries of a shard that exists lie in buckets that exist.
pub proof fn lemma_in_shard_well_formed(entries: Seq<Entry>, prefix: u32)
    requires
        in_shard(entries, prefix),
        prefix < 0x10_0000,
    ensures
        well_formed(entries),
{
    assert forall|i: int| 0 <= i < entries.len() implies (#[trigger] entries[i]).0 < BUCKETS
        && entries[i].1.len() == 13 by {
        assert(entries[i].0 / 16 == prefix);
    }
}

} // verus!
