//! The settings of the password filter, as the registry key held them.
use vstd::prelude::*;
use vstd::string::StringExecFns;

verus! {

/// What was read under the filter's registry key. A value that was absent,
/// unreadable or of another type is `None`; so are all three where the key
/// itself could not be opened.
pub struct RegConfig {
    pub reject_on_error: Option<u32>,
    pub check_on_set: Option<u32>,
    pub db_path: Option<String>,
}

/// Where the database lies unless the registry says otherwise.
pub open spec fn default_db_path() -> Seq<char> {
    "C:\\Windows\\System32\\HIBPPwdFlt\\hibp.chdb"@
}

impl RegConfig {
    /// The settings as read: `RejectOnError`, `CheckOnSet` and `DBPath`.
    pub fn new(
        reject_on_error: Option<u32>,
        check_on_set: Option<u32>,
        db_path: Option<String>,
    ) -> (config: Self)
        ensures
            config.reject_on_error == reject_on_error,
            config.check_on_set == check_on_set,
            config.db_path == db_path,
    {
        RegConfig { reject_on_error, check_on_set, db_path }
    }

    /// The value read, or `fallback` where none was.
    pub fn get_or<T>(value: Option<T>, fallback: T) -> (setting: T)
        ensures
            setting == match value {
                Some(v) => v,
                None => fallback,
            },
    {
        match value {
            Some(v) => v,
            None => fallback,
        }
    }

    /// Whether a password is accepted when the database cannot be asked:
    /// it is unless `RejectOnError` is set to a number other than 0.
    pub open spec fn accepts_on_error(&self) -> bool {
        match self.reject_on_error {
            Some(v) => v == 0,
            None => true,
        }
    }

    /// Whether passwords set by an administrator are checked as well: they
    /// are not unless `CheckOnSet` is set to a number other than 0.
    pub open spec fn checks_on_set(&self) -> bool {
        match self.check_on_set {
            Some(v) => v != 0,
            None => false,
        }
    }

    /// Whether a password is accepted when the database cannot be asked.
    pub fn on_error(&self) -> (accept: bool)
        ensures
            accept == self.accepts_on_error(),
    {
        Self::get_or(self.reject_on_error, 0u32) == 0
    }

    /// Whether passwords set by an administrator are checked as well.
    pub fn check_on_set(&self) -> (check: bool)
        ensures
            check == self.checks_on_set(),
    {
        Self::get_or(self.check_on_set, 0u32) != 0
    }

    /// Where the database lies.
    pub fn db_path(&self) -> (path: String)
        ensures
            path@ == match self.db_path {
                Some(p) => p@,
                None => default_db_path(),
            },
    {
        match &self.db_path {
            Some(p) => p.clone(),
            None => String::from_str("C:\\Windows\\System32\\HIBPPwdFlt\\hibp.chdb"),
        }
    }
}

} // verus!
