//! One shard of the range service as text: a line per digest, holding the
//! digest's last 27 hexadecimal digits, a colon and a count. Lines that do
//! not start with 27 hexadecimal digits are passed over.
use vstd::prelude::*;
use vstd::slice::slice_subrange;
use vstd::string::StringSliceAdditionalSpecFns;
use hex::FromHex;
use crate::layout::Record;
use crate::records::{entries_of, in_shard, Entry};

verus! {

/// Number of shards: one for each value of a digest's first 20 bits.
pub const SHARDS: u32 = 0x10_0000;

/// Hexadecimal digits at the start of a line: one that completes the bucket
/// and 26 that spell the suffix.
pub const LINE_DIGITS: usize = 27;

/// Why a line was passed over.
#[derive(Clone, Copy, Debug, PartialEq, Eq, Structural)]
pub enum ParseWarning {
    /// The line has fewer than 27 bytes.
    LineTooShort,
    /// The first byte is no hexadecimal digit.
    InvalidFirstChar,
    /// The 26 bytes after the first are not all hexadecimal digits.
    InvalidSuffix,
}

/// The value of a hexadecimal digit in either case, if `c` is one.
pub open spec fn hex_value(c: u8) -> Option<int> {
    if 0x30 <= c <= 0x39 {
        Some(c - 0x30)
    } else if 0x41 <= c <= 0x46 {
        Some(c - 0x41 + 10)
    } else if 0x61 <= c <= 0x66 {
        Some(c - 0x61 + 10)
    } else {
        None
    }
}

/// Every byte of `digits` is a hexadecimal digit.
pub open spec fn all_hex(digits: Seq<u8>) -> bool {
    forall|i: int| 0 <= i < digits.len() ==> (#[trigger] hex_value(digits[i])) is Some
}

/// The bytes that pairs of hexadecimal digits spell, the first digit of a
/// pair being the upper half of its byte.
pub open spec fn hex_decoded(digits: Seq<u8>) -> Seq<u8> {
    Seq::new(
        digits.len() / 2,
        |i: int|
            (16 * hex_value(digits[2 * i]).unwrap() + hex_value(digits[2 * i + 1]).unwrap()) as u8,
    )
}

/// What a line of shard `prefix` stands for: the entry whose bucket its
/// first digit completes and whose suffix its next 26 digits spell, or the
/// reason why it is passed over. What follows the 27 digits plays no part.
pub open spec fn line_entry(prefix: u32, line: Seq<u8>) -> Result<Entry, ParseWarning> {
    if line.len() < 27 {
        Err(ParseWarning::LineTooShort)
    } else if hex_value(line[0]) is None {
        Err(ParseWarning::InvalidFirstChar)
    } else if !all_hex(line.subrange(1, 27)) {
        Err(ParseWarning::InvalidSuffix)
    } else {
        Ok(((16 * prefix + hex_value(line[0]).unwrap()) as u32, hex_decoded(line.subrange(1, 27))))
    }
}

/// Number of bytes before the first line feed of `text`.
pub open spec fn line_len(text: Seq<u8>) -> nat
    decreases text.len(),
{
    if text.len() == 0 || text[0] == 0x0A {
        0
    } else {
        1 + line_len(text.drop_first())
    }
}

/// The first line of `text`: the bytes before the first line feed, without
/// a carriage return that stands directly before that line feed.
pub open spec fn first_line(text: Seq<u8>) -> Seq<u8> {
    let n = line_len(text) as int;
    if 0 < n < text.len() && text[n - 1] == 0x0D {
        text.subrange(0, n - 1)
    } else {
        text.subrange(0, n)
    }
}

/// What follows the first line of `text` and the line feed that ends it.
pub open spec fn after_first_line(text: Seq<u8>) -> Seq<u8> {
    let n = line_len(text) as int;
    if n < text.len() {
        text.subrange(n + 1, text.len() as int)
    } else {
        Seq::empty()
    }
}

/// The lines of `text`. A line ends at a line feed or at the end of the
/// text; a line feed at the very end starts no further line.
pub open spec fn lines_of(text: Seq<u8>) -> Seq<Seq<u8>>
    decreases text.len(),
{
    if text.len() == 0 {
        Seq::empty()
    } else {
        seq![first_line(text)] + lines_of(after_first_line(text))
    }
}

/// The entries of the well-formed ones among `lines`, in the order of the lines.
pub open spec fn entries_in(prefix: u32, lines: Seq<Seq<u8>>) -> Seq<Entry>
    decreases lines.len(),
{
    if lines.len() == 0 {
        Seq::empty()
    } else {
        match line_entry(prefix, lines.last()) {
            Ok(entry) => entries_in(prefix, lines.drop_last()).push(entry),
            Err(_) => entries_in(prefix, lines.drop_last()),
        }
    }
}

/// The lines among `lines` that are passed over, each with its place among
/// the lines, counted from 0, and the reason.
pub open spec fn warnings_in(lines: Seq<Seq<u8>>) -> Seq<(usize, ParseWarning)>
    decreases lines.len(),
{
    if lines.len() == 0 {
        Seq::empty()
    } else {
        match line_entry(0, lines.last()) {
            Ok(_) => warnings_in(lines.drop_last()),
            Err(warning) => warnings_in(lines.drop_last()).push(
                ((lines.len() - 1) as usize, warning),
            ),
        }
    }
}

/// The entries of the well-formed lines of the text of shard `prefix`, in
/// the order of the lines.
pub open spec fn shard_entries(prefix: u32, text: Seq<u8>) -> Seq<Entry> {
    entries_in(prefix, lines_of(text))
}

/// The value of `c` as a hexadecimal digit in either case.
pub fn hex_digit(c: u8) -> (value: Option<u8>)
    ensures
        match value {
            Some(v) => hex_value(c) == Some(v as int),
            None => hex_value(c) is None,
        },
{
    if 0x30 <= c && c <= 0x39 {
        Some(c - 0x30)
    } else if 0x41 <= c && c <= 0x46 {
        Some(c - 0x41 + 10)
    } else if 0x61 <= c && c <= 0x66 {
        Some(c - 0x61 + 10)
    } else {
        None
    }
}

/// Calls `hex::FromHex::from_hex` for an array of 13 bytes. That function
/// fails unless it is given exactly 26 bytes that are all hexadecimal digits
/// of either case; each byte of its result is 16 times the value of one
/// digit plus the value of the next.
#[verifier::external_body]
fn decode_suffix(digits: &[u8]) -> (suffix: Option<[u8; 13]>)
    ensures
        match suffix {
            Some(bytes) => digits@.len() == 26 && all_hex(digits@) && bytes@ == hex_decoded(
                digits@,
            ),
            None => !(digits@.len() == 26 && all_hex(digits@)),
        },
{
    match <[u8; 13]>::from_hex(digits) {
        Ok(bytes) => Some(bytes),
        Err(_) => None,
    }
}

/// `r` is the record of `expected`, or its warning.
pub open spec fn line_is(r: Result<Record, ParseWarning>, expected: Result<Entry, ParseWarning>) -> bool {
    match r {
        Ok(record) => expected == Ok::<Entry, ParseWarning>((record.0, record.1@)),
        Err(warning) => expected == Err::<Entry, ParseWarning>(warning),
    }
}

/// The record that a line of shard `prefix` stands for, or the reason why
/// the line is passed over.
pub fn parse_line(prefix: u32, line: &[u8]) -> (r: Result<Record, ParseWarning>)
    requires
        prefix < SHARDS,
    ensures
        line_is(r, line_entry(prefix, line@)),
{
    if line.len() < LINE_DIGITS {
        return Err(ParseWarning::LineTooShort);
    }
    let nibble = match hex_digit(line[0]) {
        Some(nibble) => nibble,
        None => {
            return Err(ParseWarning::InvalidFirstChar);
        },
    };
    match decode_suffix(slice_subrange(line, 1, LINE_DIGITS)) {
        Some(suffix) => Ok((16 * prefix + nibble as u32, suffix)),
        None => Err(ParseWarning::InvalidSuffix),
    }
}

/// The first line of `text` ends where the first line feed stands.
proof fn lemma_line_len(text: Seq<u8>, end: int)
    requires
        0 <= end <= text.len(),
        forall|i: int| 0 <= i < end ==> text[i] != 0x0A,
        end < text.len() ==> text[end] == 0x0A,
    ensures
        line_len(text) == end,
    decreases end,
{
    if end > 0 {
        lemma_line_len(text.drop_first(), end - 1);
    }
}

/// The records of the well-formed lines of `text` and the places of the
/// other lines, each with the reason why it is passed over.
fn scan_shard(prefix: u32, text: &[u8]) -> (found: (Vec<Record>, Vec<(usize, ParseWarning)>))
    requires
        prefix < SHARDS,
    ensures
        entries_of(found.0@) == shard_entries(prefix, text@),
        found.1@ == warnings_in(lines_of(text@)),
{
    let mut records: Vec<Record> = Vec::new();
    let mut warnings: Vec<(usize, ParseWarning)> = Vec::new();
    let mut start: usize = 0;
    let mut count: usize = 0;
    let ghost mut lines: Seq<Seq<u8>> = Seq::empty();
    assert(text@.subrange(0, text@.len() as int) =~= text@);
    assert(entries_of(records@) =~= Seq::<Entry>::empty());
    while start < text.len()
        invariant
            prefix < SHARDS,
            start <= text.len(),
            count == lines.len(),
            count <= start,
            lines_of(text@) == lines + lines_of(text@.subrange(start as int, text@.len() as int)),
            entries_of(records@) == entries_in(prefix, lines),
            warnings@ == warnings_in(lines),
        decreases text.len() - start,
    {
        let ghost rest = text@.subrange(start as int, text@.len() as int);
        let mut end: usize = start;
        while end < text.len() && text[end] != 0x0A
            invariant
                start <= end <= text.len(),
                forall|i: int| start <= i < end ==> text@[i] != 0x0A,
            decreases text.len() - end,
        {
            end += 1;
        }
        let stop: usize = if start < end && end < text.len() && text[end - 1] == 0x0D {
            end - 1
        } else {
            end
        };
        let line = slice_subrange(text, start, stop);
        proof {
            lemma_line_len(rest, end - start);
            assert(first_line(rest) =~= line@);
            assert(lines.push(line@).drop_last() =~= lines);
            assert(lines + (seq![line@] + lines_of(after_first_line(rest))) =~= lines.push(line@)
                + lines_of(after_first_line(rest)));
        }
        let ghost held = records@;
        match parse_line(prefix, line) {
            Ok(record) => {
                records.push(record);
                assert(entries_of(records@) =~= entries_of(held).push((record.0, record.1@)));
            },
            Err(warning) => {
                warnings.push((count, warning));
            },
        }
        proof {
            lines = lines.push(line@);
        }
        count += 1;
        if end < text.len() {
            assert(after_first_line(rest) =~= text@.subrange(end + 1, text@.len() as int));
            start = end + 1;
        } else {
            assert(text@.subrange(text@.len() as int, text@.len() as int) =~= Seq::<u8>::empty());
            start = end;
        }
    }
    assert(lines + Seq::<Seq<u8>>::empty() =~= lines);
    (records, warnings)
}

/// The records of the well-formed lines of `text`, in the order of the lines.
pub fn parse_shard(prefix: u32, text: &[u8]) -> (records: Vec<Record>)
    requires
        prefix < SHARDS,
    ensures
        entries_of(records@) == shard_entries(prefix, text@),
        in_shard(entries_of(records@), prefix),
{
    proof {
        lemma_shard_entries_in_shard(prefix, text@);
    }
    scan_shard(prefix, text).0
}

/// The records of the well-formed lines of `text`, in the order of the
/// lines. Lines that are too short or do not start with 27 hexadecimal
/// digits yield nothing.
pub fn text_to_hash_stream(prefix: u32, text: &str) -> (records: Vec<Record>)
    requires
        prefix < SHARDS,
    ensures
        entries_of(records@) == shard_entries(prefix, text.spec_bytes()),
        in_shard(entries_of(records@), prefix),
{
    parse_shard(prefix, text.as_bytes())
}

/// The lines of `text` that yield no record, each with its place among the
/// lines, counted from 0, and the reason.
pub fn shard_warnings(text: &str) -> (warnings: Vec<(usize, ParseWarning)>)
    ensures
        warnings@ == warnings_in(lines_of(text.spec_bytes())),
{
    scan_shard(0, text.as_bytes()).1
}

/// The upper-case hexadecimal digit of `value`.
pub open spec fn upper_hex_digit(value: int) -> u8 {
    if value < 10 {
        (0x30 + value) as u8
    } else {
        (0x41 + value - 10) as u8
    }
}

/// `bytes` in upper-case hexadecimal digits, two for each byte.
pub open spec fn upper_hex(bytes: Seq<u8>) -> Seq<u8> {
    Seq::new(
        2 * bytes.len(),
        |i: int|
            upper_hex_digit(
                if i % 2 == 0 {
                    bytes[i / 2] as int / 16
                } else {
                    bytes[i / 2] as int % 16
                },
            ),
    )
}

/// The 27 digits with which the line of `entry` starts in the text of its
/// shard: the last four bits of its bucket, then its suffix.
pub open spec fn line_digits(entry: Entry) -> Seq<u8> {
    seq![upper_hex_digit(entry.0 as int % 16)] + upper_hex(entry.1)
}

/// A line that starts with the digits of an entry is read back as that
/// entry in the entry's shard, whatever follows the digits.
pub proof fn lemma_line_round_trip(entry: Entry, rest: Seq<u8>)
    requires
        entry.1.len() == 13,
    ensures
        line_entry((entry.0 / 16) as u32, line_digits(entry) + rest) == Ok::<Entry, ParseWarning>(
            entry,
        ),
{
    let line = line_digits(entry) + rest;
    let tail = line.subrange(1, 27);
    assert(tail =~= upper_hex(entry.1));
    assert forall|i: int| 0 <= i < 26 implies (#[trigger] hex_value(tail[i])) is Some by {}
    assert forall|i: int| 0 <= i < 13 implies hex_decoded(tail)[i] == entry.1[i] by {
        assert(tail[2 * i] == upper_hex_digit(entry.1[i] as int / 16));
        assert(tail[2 * i + 1] == upper_hex_digit(entry.1[i] as int % 16));
    }
    assert(hex_decoded(tail) =~= entry.1);
    assert(hex_value(line[0]) == Some(entry.0 as int % 16));
}

/// The text of one line, the digits of an entry and then anything but a line
/// feed, is read back as that entry alone.
pub proof fn lemma_shard_round_trip(entry: Entry, rest: Seq<u8>)
    requires
        entry.1.len() == 13,
        forall|i: int| 0 <= i < rest.len() ==> rest[i] != 0x0A,
    ensures
        shard_entries((entry.0 / 16) as u32, line_digits(entry) + rest) == seq![entry],
{
    let text = line_digits(entry) + rest;
    assert forall|i: int| 0 <= i < text.len() implies text[i] != 0x0A by {
        if i >= 27 {
            assert(text[i] == rest[i - 27]);
        } else if i > 0 {
            assert(text[i] == upper_hex(entry.1)[i - 1]);
        }
    }
    lemma_line_len(text, text.len() as int);
    assert(first_line(text) =~= text);
    assert(lines_of(after_first_line(text)) =~= Seq::<Seq<u8>>::empty());
    assert(lines_of(text) =~= seq![text]);
    lemma_line_round_trip(entry, rest);
    lemma_entries_prepend((entry.0 / 16) as u32, text, Seq::empty());
    assert(seq![text] + Seq::<Seq<u8>>::empty() =~= seq![text]);
    assert(entries_in((entry.0 / 16) as u32, Seq::empty()) =~= Seq::<Entry>::empty());
    assert(seq![entry] + Seq::<Entry>::empty() =~= seq![entry]);
}

/// The first line of a text is no longer than the text.
pub proof fn lemma_line_len_bound(text: Seq<u8>)
    ensures
        line_len(text) <= text.len(),
    decreases text.len(),
{
    if text.len() > 0 && text[0] != 0x0A {
        lemma_line_len_bound(text.drop_first());
    }
}

/// A text of fewer than 27 bytes yields no entry.
pub proof fn lemma_short_text(prefix: u32, text: Seq<u8>)
    requires
        text.len() < 27,
    ensures
        shard_entries(prefix, text) == Seq::<Entry>::empty(),
    decreases text.len(),
{
    if text.len() > 0 {
        let rest = after_first_line(text);
        lemma_line_len_bound(text);
        lemma_short_text(prefix, rest);
        lemma_entries_prepend(prefix, first_line(text), lines_of(rest));
        assert(line_entry(prefix, first_line(text)) is Err);
    } else {
        assert(entries_in(prefix, lines_of(text)) =~= Seq::<Entry>::empty());
    }
}

/// The entries of a list of lines are those of its first line followed by
/// those of the others.
pub proof fn lemma_entries_prepend(prefix: u32, line: Seq<u8>, lines: Seq<Seq<u8>>)
    ensures
        entries_in(prefix, seq![line] + lines) == match line_entry(prefix, line) {
            Ok(entry) => seq![entry] + entries_in(prefix, lines),
            Err(_) => entries_in(prefix, lines),
        },
    decreases lines.len(),
{
    let all = seq![line] + lines;
    let first: Seq<Entry> = match line_entry(prefix, line) {
        Ok(entry) => seq![entry],
        Err(_) => Seq::empty(),
    };
    if lines.len() == 0 {
        assert(all.drop_last() =~= Seq::<Seq<u8>>::empty());
        assert(all.last() == line);
        assert(entries_in(prefix, all.drop_last()) =~= Seq::<Entry>::empty());
        assert(entries_in(prefix, lines) =~= Seq::<Entry>::empty());
        assert(entries_in(prefix, all) =~= first);
        assert(first + Seq::<Entry>::empty() =~= first);
    } else {
        lemma_entries_prepend(prefix, line, lines.drop_last());
        assert(all.drop_last() =~= seq![line] + lines.drop_last());
        assert(all.last() == lines.last());
        let before = entries_in(prefix, lines.drop_last());
        assert(entries_in(prefix, all.drop_last()) == first + before);
        match line_entry(prefix, lines.last()) {
            Ok(last) => {
                assert(entries_in(prefix, all) == (first + before).push(last));
                assert(entries_in(prefix, lines) == before.push(last));
                assert((first + before).push(last) =~= first + before.push(last));
            },
            Err(_) => {
                assert(entries_in(prefix, all) == first + before);
                assert(entries_in(prefix, lines) == before);
            },
        }
        assert(entries_in(prefix, all) == first + entries_in(prefix, lines));
    }
    assert(Seq::<Entry>::empty() + entries_in(prefix, lines) =~= entries_in(prefix, lines));
}

/// Every entry of well-formed lines of shard `prefix` lies in one of the 16
/// buckets of that shard and holds 13 bytes.
pub proof fn lemma_entries_in_shard(prefix: u32, lines: Seq<Seq<u8>>)
    requires
        prefix < SHARDS,
    ensures
        in_shard(entries_in(prefix, lines), prefix),
    decreases lines.len(),
{
    if lines.len() > 0 {
        lemma_entries_in_shard(prefix, lines.drop_last());
    }
}

/// Every entry read from the text of shard `prefix` lies in one of the 16
/// buckets of that shard and holds 13 bytes.
pub proof fn lemma_shard_entries_in_shard(prefix: u32, text: Seq<u8>)
    requires
        prefix < SHARDS,
    ensures
        in_shard(shard_entries(prefix, text), prefix),
{
    lemma_entries_in_shard(prefix, lines_of(text));
}

} // verus!
