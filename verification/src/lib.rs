//! A compact database of 16-byte password digests and the filter that asks it.
//!
//! The database is one file: a directory with an entry for each of the 2^24
//! values of a digest's first three bytes, then the remaining 13 bytes of
//! every digest, bucket by bucket, then the time at which the build began.
//! A lookup reads two directory entries and the records of one bucket.
//!
//! - [`layout`]: the sizes and encodings of the file.
//! - [`reader`]: lookups through a source of positional reads.
//! - [`records`]: lists of records and what holds of ascending ones.
//! - [`builder`]: the directory and body that a list of records makes.
//! - [`parser`]: a shard of the range service as text.
//! - [`shard`]: the records of a shard, from text or from a previous database.
//! - [`pipeline`]: a build shard by shard.
//! - [`fetch`]: addresses, request headers and statuses of the range service.
//! - [`args`]: what a build is started with.
//! - [`config`], [`filter`], [`winctype`]: the password filter.
//! - [`laws`]: what holds of every database that a build produces.

pub mod args;
pub mod builder;
pub mod config;
pub mod fetch;
pub mod filter;
pub mod laws;
pub mod layout;
pub mod parser;
pub mod pipeline;
pub mod reader;
pub mod records;
pub mod shard;
pub mod winctype;
