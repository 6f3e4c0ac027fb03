use hibppwdflt::builder::build_image;
use hibppwdflt::config::RegConfig;
use hibppwdflt::filter::{decide, digest_filter, needs_lookup, password_filter, PasswordFilter};
use hibppwdflt::reader::{read_slice, CompactHashDB, IoError};
use hibppwdflt::winctype::{PunicodeExt, UNICODE_STRING};

// The digest of "password" in UTF-16, least significant byte first.
const PASSWORD_DIGEST: [u8; 16] = [
    0x88, 0x46, 0xF7, 0xEA, 0xEE, 0x8F, 0xB1, 0x17, 0xAD, 0x06, 0xBD, 0xD8, 0x30, 0xB7, 0x58, 0x6C,
];

fn utf16(text: &str) -> Vec<u8> {
    text.encode_utf16().flat_map(|unit| unit.to_le_bytes()).collect()
}

fn counted(text: &str) -> UNICODE_STRING {
    let buffer: Vec<u16> = text.encode_utf16().collect();
    UNICODE_STRING {
        Length: (2 * buffer.len()) as u16,
        MaximumLength: (2 * buffer.len()) as u16,
        Buffer: buffer,
    }
}

fn breached() -> Vec<u8> {
    let mut suffix = [0u8; 13];
    suffix.copy_from_slice(&PASSWORD_DIGEST[3..]);
    build_image(&[(0x8846F7, suffix)], 0).unwrap()
}

#[test]
fn defaults_of_the_settings() {
    let settings = RegConfig::new(None, None, None);
    assert!(settings.on_error());
    assert!(!settings.check_on_set());
    assert_eq!(settings.db_path(), "C:\\Windows\\System32\\HIBPPwdFlt\\hibp.chdb");
    let settings = RegConfig::new(Some(0), Some(0), Some(String::from("D:\\hibp.chdb")));
    assert!(settings.on_error());
    assert!(!settings.check_on_set());
    assert_eq!(settings.db_path(), "D:\\hibp.chdb");
    let settings = RegConfig::new(Some(1), Some(7), None);
    assert!(!settings.on_error());
    assert!(settings.check_on_set());
    assert_eq!(RegConfig::get_or(Some(5u32), 0), 5);
    assert_eq!(RegConfig::get_or(None, 9u32), 9);
    assert_eq!(RegConfig::get_or(None, String::from("fallback")), "fallback");
}

#[test]
fn decision_of_the_filter() {
    let lenient = RegConfig::new(None, None, None);
    let strict = RegConfig::new(Some(1), Some(1), None);
    let failed = Err(IoError { offset: 0, len: 4 });
    assert!(!needs_lookup(&lenient, true));
    assert!(needs_lookup(&lenient, false));
    assert!(needs_lookup(&strict, true));
    assert!(needs_lookup(&strict, false));

    assert!(decide(&lenient, true, Some(Ok(true))));
    assert!(decide(&lenient, true, None));
    assert!(!decide(&lenient, false, Some(Ok(true))));
    assert!(decide(&lenient, false, Some(Ok(false))));
    assert!(decide(&lenient, false, Some(failed)));
    assert!(decide(&lenient, false, None));

    assert!(!decide(&strict, true, Some(Ok(true))));
    assert!(decide(&strict, true, Some(Ok(false))));
    assert!(!decide(&strict, true, Some(failed)));
    assert!(!decide(&strict, false, None));
}

#[test]
fn breached_password_is_rejected() {
    let image = breached();
    let db = CompactHashDB::open(|offset, len| read_slice(&image, offset, len));
    let settings = RegConfig::new(None, None, None);
    assert!(!password_filter(&utf16("password"), false, &settings, Some(&db)));
    assert!(password_filter(&utf16("Password"), false, &settings, Some(&db)));
    assert!(password_filter(&utf16("password "), false, &settings, Some(&db)));
    assert!(password_filter(&utf16(""), false, &settings, Some(&db)));
    assert!(password_filter(b"password", false, &settings, Some(&db)));
    assert!(password_filter(&utf16("password"), true, &settings, Some(&db)));
    let checking = RegConfig::new(None, Some(1), None);
    assert!(!password_filter(&utf16("password"), true, &checking, Some(&db)));

    assert!(!digest_filter(&PASSWORD_DIGEST, false, &settings, Some(&db)));
    let mut other = PASSWORD_DIGEST;
    other[15] ^= 1;
    assert!(digest_filter(&other, false, &settings, Some(&db)));
}

#[test]
fn unreadable_database_follows_the_setting() {
    let none: Option<&CompactHashDB<fn(u64, usize) -> Option<Vec<u8>>>> = None;
    let lenient = RegConfig::new(Some(0), None, None);
    let strict = RegConfig::new(Some(2), None, None);
    assert!(password_filter(&utf16("password"), false, &lenient, none));
    assert!(!password_filter(&utf16("password"), false, &strict, none));
    assert!(password_filter(&utf16("password"), true, &strict, none));

    let image: Vec<u8> = vec![0; 10];
    let db = CompactHashDB::open(|offset, len| read_slice(&image, offset, len));
    assert!(password_filter(&utf16("password"), false, &lenient, Some(&db)));
    assert!(!password_filter(&utf16("password"), false, &strict, Some(&db)));
}

#[test]
fn filter_as_the_system_calls_it() {
    let image = breached();
    let db = CompactHashDB::open(|offset, len| read_slice(&image, offset, len));
    let settings = RegConfig::new(None, None, None);
    let account = counted("alice");
    let full = counted("Alice Example");
    assert_eq!(PasswordFilter(&account, &full, &counted("password"), 0, &settings, Some(&db)), 0);
    assert_eq!(PasswordFilter(&account, &full, &counted("password"), 1, &settings, Some(&db)), 1);
    assert_eq!(PasswordFilter(&account, &full, &counted("passw0rd"), 0, &settings, Some(&db)), 1);
    let checking = RegConfig::new(None, Some(1), None);
    assert_eq!(PasswordFilter(&account, &full, &counted("password"), 255, &checking, Some(&db)), 0);
}

#[test]
fn bytes_of_a_counted_string() {
    let text = UNICODE_STRING { Length: 6, MaximumLength: 8, Buffer: vec![0x0061, 0x20AC, 0xD83D, 0xDE00] };
    assert_eq!((&text).to_bytes(), vec![0x61, 0x00, 0xAC, 0x20, 0x3D, 0xD8]);
    let odd = UNICODE_STRING { Length: 3, MaximumLength: 4, Buffer: vec![0x1234, 0x5678] };
    assert_eq!((&odd).to_bytes(), vec![0x34, 0x12, 0x78]);
    let empty = UNICODE_STRING { Length: 0, MaximumLength: 0, Buffer: vec![] };
    assert_eq!((&empty).to_bytes(), Vec::<u8>::new());
    assert_eq!((&counted("password")).to_bytes(), utf16("password"));
}
