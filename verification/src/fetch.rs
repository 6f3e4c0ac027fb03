//! What the build asks of the range service and how it reads the answers.
//! The requests themselves are made elsewhere.
use vstd::prelude::*;
use vstd::string::StringExecFns;
use chrono::TimeZone;
use crate::parser::SHARDS;
use crate::reader::{failed_read, reads_from, serves, timestamp_of, CompactHashDB, IoError};

verus! {

/// What a response means for its shard.
#[derive(Clone, Copy, Debug, PartialEq, Eq, Structural)]
pub enum StatusClass {
    /// 200: the body holds the shard as text.
    Fresh,
    /// 304: the shard has not changed since the previous build.
    NotModified,
    /// Any other status: the request is tried again.
    Retry,
}

/// Reads the status of a response.
pub fn classify_status(code: u16) -> (class: StatusClass)
    ensures
        class == if code == 200 {
            StatusClass::Fresh
        } else if code == 304 {
            StatusClass::NotModified
        } else {
            StatusClass::Retry
        },
{
    if code == 200 {
        StatusClass::Fresh
    } else if code == 304 {
        StatusClass::NotModified
    } else {
        StatusClass::Retry
    }
}

/// The upper-case hexadecimal digit of `value`.
pub open spec fn upper_hex_char(value: int) -> char {
    if value < 10 {
        (0x30 + value) as u8 as char
    } else {
        (0x41 + value - 10) as u8 as char
    }
}

/// Shard `prefix` in five upper-case hexadecimal digits.
pub open spec fn shard_digits(prefix: u32) -> Seq<char> {
    seq![
        upper_hex_char(prefix as int / 0x1_0000 % 16),
        upper_hex_char(prefix as int / 0x1000 % 16),
        upper_hex_char(prefix as int / 0x100 % 16),
        upper_hex_char(prefix as int / 0x10 % 16),
        upper_hex_char(prefix as int % 16),
    ]
}

/// The address of shard `prefix`.
pub open spec fn range_url_of(prefix: u32) -> Seq<char> {
    "https://api.pwnedpasswords.com/range/"@ + shard_digits(prefix) + "?mode=ntlm"@
}

/// The upper-case hexadecimal digit of `value` as text.
fn upper_hex_str(value: u32) -> (digit: &'static str)
    requires
        value < 16,
    ensures
        digit@ == seq![upper_hex_char(value as int)],
{
    proof {
        reveal_strlit("0");
        reveal_strlit("1");
        reveal_strlit("2");
        reveal_strlit("3");
        reveal_strlit("4");
        reveal_strlit("5");
        reveal_strlit("6");
        reveal_strlit("7");
        reveal_strlit("8");
        reveal_strlit("9");
        reveal_strlit("A");
        reveal_strlit("B");
        reveal_strlit("C");
        reveal_strlit("D");
        reveal_strlit("E");
        reveal_strlit("F");
    }
    let digit = if value == 0 {
        "0"
    } else if value == 1 {
        "1"
    } else if value == 2 {
        "2"
    } else if value == 3 {
        "3"
    } else if value == 4 {
        "4"
    } else if value == 5 {
        "5"
    } else if value == 6 {
        "6"
    } else if value == 7 {
        "7"
    } else if value == 8 {
        "8"
    } else if value == 9 {
        "9"
    } else if value == 10 {
        "A"
    } else if value == 11 {
        "B"
    } else if value == 12 {
        "C"
    } else if value == 13 {
        "D"
    } else if value == 14 {
        "E"
    } else {
        "F"
    };
    assert(digit@ =~= seq![upper_hex_char(value as int)]);
    digit
}

/// The address to request shard `prefix` from.
pub fn range_url(prefix: u32) -> (url: String)
    requires
        prefix < SHARDS,
    ensures
        url@ == range_url_of(prefix),
{
    let mut url = String::from_str("https://api.pwnedpasswords.com/range/");
    url.append(upper_hex_str(prefix / 0x1_0000 % 16));
    url.append(upper_hex_str(prefix / 0x1000 % 16));
    url.append(upper_hex_str(prefix / 0x100 % 16));
    url.append(upper_hex_str(prefix / 0x10 % 16));
    url.append(upper_hex_str(prefix % 16));
    url.append("?mode=ntlm");
    assert(url@ =~= range_url_of(prefix));
    url
}

/// The date and time of the instant `nanos` nanoseconds after the Unix
/// epoch, in UTC, as RFC 2822 writes it.
pub uninterp spec fn rfc2822_utc(nanos: i64) -> Seq<char>;

/// Calls `chrono::DateTime::to_rfc2822` on the instant that
/// `chrono::TimeZone::timestamp_nanos` makes of `nanos` in `Utc`. The first
/// never fails; the second writes the date in English and fails only for
/// years outside 0 to 9999, which no count of nanoseconds in 64 bits reaches.
#[verifier::external_body]
fn to_rfc2822(nanos: i64) -> (date: String)
    ensures
        date@ == rfc2822_utc(nanos),
{
    chrono::Utc.timestamp_nanos(nanos).to_rfc2822()
}

/// The request header that makes a request conditional on a change since `date`.
pub fn header_since(date: String) -> (header: (String, String))
    ensures
        header.0@ == "If-Modified-Since"@,
        header.1@ == date@,
{
    (String::from_str("If-Modified-Since"), date)
}

/// The request header that makes a request conditional on a change since
/// the build that began at `timestamp`, in nanoseconds since the Unix epoch.
pub fn if_modified_since(timestamp: i64) -> (header: (String, String))
    ensures
        header.0@ == "If-Modified-Since"@,
        header.1@ == rfc2822_utc(timestamp),
{
    header_since(to_rfc2822(timestamp))
}

/// `r` is the one conditional header for the timestamp read, or the error
/// that reading it met.
pub open spec fn sends_since(
    r: Result<Vec<(String, String)>, IoError>,
    timestamp: Result<i64, IoError>,
) -> bool {
    match timestamp {
        Ok(timestamp) => r matches Ok(headers) && headers@.len() == 1 && headers@[0].0@
            == "If-Modified-Since"@ && headers@[0].1@ == rfc2822_utc(timestamp),
        Err(e) => r == Err::<Vec<(String, String)>, IoError>(e),
    }
}

/// The headers to send with every request of a build: none without a
/// previous database, else the condition on its timestamp.
pub fn request_headers<F: Fn(u64, usize) -> Option<Vec<u8>>>(
    previous: Option<&CompactHashDB<F>>,
) -> (r: Result<Vec<(String, String)>, IoError>)
    ensures
        r matches Err(e) ==> previous is Some && failed_read(previous.unwrap().source(), e),
        match previous {
            None => r matches Ok(headers) && headers@.len() == 0,
            Some(db) => {
                &&& forall|image: Seq<u8>| #[trigger]
                    serves(db.source(), image) ==> sends_since(r, timestamp_of(image))
                &&& forall|image: Seq<u8>| #[trigger]
                    reads_from(db.source(), image) ==> r is Ok ==> sends_since(
                        r,
                        timestamp_of(image),
                    )
            },
        },
{
    let mut headers: Vec<(String, String)> = Vec::new();
    match previous {
        None => Ok(headers),
        Some(db) => match db.get_timestamp() {
            Err(e) => Err(e),
            Ok(timestamp) => {
                headers.push(if_modified_since(timestamp));
                Ok(headers)
            },
        },
    }
}

} // verus!
