//! What a build is started with.
use vstd::prelude::*;

verus! {

/// Requests in flight at a time unless the caller says otherwise.
pub const DEFAULT_PARALLEL: usize = 160;

/// Whether a build would write the file that it reads as its previous
/// database. Such a build must not start: the directory of the output is
/// written over the first bytes long before the last shard has been read.
pub fn same_file(from: &Option<String>, output: &String) -> (same: bool)
    ensures
        same == (from matches Some(path) && path@ == output@),
{
    match from {
        Some(path) => *path == *output,
        None => false,
    }
}

} // verus!
