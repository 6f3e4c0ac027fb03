use hibppwdflt::args::{same_file, DEFAULT_PARALLEL};
use hibppwdflt::builder::build_image;
use hibppwdflt::fetch::{
    classify_status, header_since, if_modified_since, range_url, request_headers, StatusClass,
};
use hibppwdflt::reader::{read_slice, CompactHashDB, IoError};

#[test]
fn address_of_a_shard() {
    assert_eq!(range_url(0x8846F), "https://api.pwnedpasswords.com/range/8846F?mode=ntlm");
    assert_eq!(range_url(0), "https://api.pwnedpasswords.com/range/00000?mode=ntlm");
    assert_eq!(range_url(0xFFFFF), "https://api.pwnedpasswords.com/range/FFFFF?mode=ntlm");
    assert_eq!(range_url(0x0A0B9), "https://api.pwnedpasswords.com/range/0A0B9?mode=ntlm");
    for prefix in [1u32, 0x10, 0x123, 0xABCDE, 0x54321, 0xF0F0F] {
        assert_eq!(
            range_url(prefix),
            format!("https://api.pwnedpasswords.com/range/{:05X}?mode=ntlm", prefix)
        );
    }
}

#[test]
fn status_of_a_response() {
    assert_eq!(classify_status(200), StatusClass::Fresh);
    assert_eq!(classify_status(304), StatusClass::NotModified);
    for code in [0u16, 100, 199, 201, 204, 206, 301, 303, 305, 400, 404, 429, 500, 503, 599, 65535] {
        assert_eq!(classify_status(code), StatusClass::Retry);
    }
}

#[test]
fn condition_on_the_previous_build() {
    assert_eq!(
        if_modified_since(1_662_921_288_000_000_000),
        (String::from("If-Modified-Since"), String::from("Sun, 11 Sep 2022 18:34:48 +0000"))
    );
    assert_eq!(
        if_modified_since(1_662_921_288_999_999_999),
        (String::from("If-Modified-Since"), String::from("Sun, 11 Sep 2022 18:34:48 +0000"))
    );
    assert_eq!(if_modified_since(0).1, "Thu, 1 Jan 1970 00:00:00 +0000");
    assert_eq!(if_modified_since(-1).1, "Wed, 31 Dec 1969 23:59:59 +0000");
    assert_eq!(if_modified_since(i64::MAX).1, "Fri, 11 Apr 2262 23:47:16 +0000");
    assert_eq!(if_modified_since(i64::MIN).1, "Tue, 21 Sep 1677 00:12:43 +0000");
    assert_eq!(
        header_since(String::from("yesterday")),
        (String::from("If-Modified-Since"), String::from("yesterday"))
    );
}

#[test]
fn headers_of_a_build() {
    let none: Option<&CompactHashDB<fn(u64, usize) -> Option<Vec<u8>>>> = None;
    assert_eq!(request_headers(none), Ok(vec![]));

    let mut image = build_image(&[(3, [7; 13])], 1_431_648_000_000_000_000).unwrap();
    let db = CompactHashDB::open(|offset, len| read_slice(&image, offset, len));
    assert_eq!(
        request_headers(Some(&db)),
        Ok(vec![(
            String::from("If-Modified-Since"),
            String::from("Fri, 15 May 2015 00:00:00 +0000")
        )])
    );

    image.truncate((1 << 26) + 13 + 7);
    let db = CompactHashDB::open(|offset, len| read_slice(&image, offset, len));
    assert_eq!(request_headers(Some(&db)), Err(IoError { offset: (1 << 26) + 13, len: 8 }));
}

#[test]
fn a_build_does_not_write_what_it_reads() {
    let output = String::from("new.chdb");
    assert!(same_file(&Some(String::from("new.chdb")), &output));
    assert!(!same_file(&Some(String::from("old.chdb")), &output));
    assert!(!same_file(&Some(String::from("new.chd")), &output));
    assert!(!same_file(&None, &output));
    assert_eq!(DEFAULT_PARALLEL, 160);
}
