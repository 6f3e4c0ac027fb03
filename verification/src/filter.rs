//! The decision of the password filter: a password is accepted unless the
//! database holds its digest.
use vstd::prelude::*;
use md4::Digest;
use crate::config::RegConfig;
use crate::reader::{contains, reads_from, serves, CompactHashDB, IoError};
use crate::winctype::{PunicodeExt, BOOLEAN, PUNICODE_STRING};

verus! {

/// The MD4 digest of `data`.
pub uninterp spec fn md4_of(data: Seq<u8>) -> Seq<u8>;

/// Calls `md4::Md4::digest`, which hashes the bytes given with MD4 and
/// returns the 16 bytes of the digest.
#[verifier::external_body]
fn md4_digest(data: &[u8]) -> (digest: [u8; 16])
    ensures
        digest@ == md4_of(data@),
{
    md4::Md4::digest(data).into()
}

/// Whether the database has to be asked at all: not for a password that an
/// administrator sets, unless the settings ask for that.
pub open spec fn asks_database(settings: RegConfig, set_operation: bool) -> bool {
    !set_operation || settings.checks_on_set()
}

/// Whether a password is accepted. `lookup` is what asking the database for
/// its digest gave, `None` where the database could not be opened.
pub open spec fn verdict(
    settings: RegConfig,
    set_operation: bool,
    lookup: Option<Result<bool, IoError>>,
) -> bool {
    if !asks_database(settings, set_operation) {
        true
    } else {
        match lookup {
            Some(Ok(found)) => !found,
            _ => settings.accepts_on_error(),
        }
    }
}

/// Whether the database has to be asked at all.
pub fn needs_lookup(settings: &RegConfig, set_operation: bool) -> (needed: bool)
    ensures
        needed == asks_database(*settings, set_operation),
{
    !set_operation || settings.check_on_set()
}

/// Whether a password is accepted, given what asking the database for its
/// digest gave; `None` where the database could not be opened.
pub fn decide(
    settings: &RegConfig,
    set_operation: bool,
    lookup: Option<Result<bool, IoError>>,
) -> (accept: bool)
    ensures
        accept == verdict(*settings, set_operation, lookup),
{
    if !needs_lookup(settings, set_operation) {
        return true;
    }
    match lookup {
        Some(Ok(found)) => !found,
        _ => settings.on_error(),
    }
}

/// Whether the password with digest `digest` is accepted. `db` is `None`
/// where the database could not be opened; it is not read where the settings
/// make the answer without it.
pub fn digest_filter<F: Fn(u64, usize) -> Option<Vec<u8>>>(
    digest: &[u8; 16],
    set_operation: bool,
    settings: &RegConfig,
    db: Option<&CompactHashDB<F>>,
) -> (accept: bool)
    ensures
        !asks_database(*settings, set_operation) ==> accept,
        db is None ==> accept == verdict(*settings, set_operation, None),
        forall|image: Seq<u8>|
            db is Some && #[trigger] serves(db.unwrap().source(), image) ==> accept == verdict(
                *settings,
                set_operation,
                Some(contains(image, digest@)),
            ),
        forall|image: Seq<u8>|
            db is Some && #[trigger] reads_from(db.unwrap().source(), image) ==> accept == verdict(
                *settings,
                set_operation,
                Some(contains(image, digest@)),
            ) || accept == settings.accepts_on_error(),
{
    if !needs_lookup(settings, set_operation) {
        return true;
    }
    match db {
        None => decide(settings, set_operation, None),
        Some(db) => decide(settings, set_operation, Some(db.find_hash(digest))),
    }
}

/// Whether `password`, the bytes of its UTF-16 form, is accepted: it is
/// unless the database holds its MD4 digest.
pub fn password_filter<F: Fn(u64, usize) -> Option<Vec<u8>>>(
    password: &[u8],
    set_operation: bool,
    settings: &RegConfig,
    db: Option<&CompactHashDB<F>>,
) -> (accept: bool)
    ensures
        !asks_database(*settings, set_operation) ==> accept,
        db is None ==> accept == verdict(*settings, set_operation, None),
        forall|image: Seq<u8>|
            db is Some && #[trigger] serves(db.unwrap().source(), image) ==> accept == verdict(
                *settings,
                set_operation,
                Some(contains(image, md4_of(password@))),
            ),
        forall|image: Seq<u8>|
            db is Some && #[trigger] reads_from(db.unwrap().source(), image) ==> accept == verdict(
                *settings,
                set_operation,
                Some(contains(image, md4_of(password@))),
            ) || accept == settings.accepts_on_error(),
{
    if !needs_lookup(settings, set_operation) {
        return true;
    }
    let digest = md4_digest(password);
    digest_filter(&digest, set_operation, settings, db)
}

/// The filter as the operating system calls it: 1 where the password is
/// accepted, 0 where it is not. The account's names play no part.
#[allow(non_snake_case, unused_variables)]
pub fn PasswordFilter<F: Fn(u64, usize) -> Option<Vec<u8>>>(
    account_name: PUNICODE_STRING,
    full_name: PUNICODE_STRING,
    password: PUNICODE_STRING,
    set_operation: BOOLEAN,
    settings: &RegConfig,
    db: Option<&CompactHashDB<F>>,
) -> (accepted: BOOLEAN)
    requires
        password.well_formed(),
    ensures
        accepted == 0 || accepted == 1,
        !asks_database(*settings, set_operation != 0) ==> accepted == 1,
        db is None ==> (accepted == 1) == verdict(*settings, set_operation != 0, None),
        forall|image: Seq<u8>|
            db is Some && #[trigger] serves(db.unwrap().source(), image) ==> (accepted == 1)
                == verdict(
                *settings,
                set_operation != 0,
                Some(contains(image, md4_of(password.bytes()))),
            ),
{
    let pwd = password.to_bytes();
    if password_filter(pwd.as_slice(), set_operation != 0, settings, db) {
        1
    } else {
        0
    }
}

} // verus!
