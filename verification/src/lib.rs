//! Duplicate-file detection: directory scanning, file catalogue, content
//! hashing and grouping of files that share a name or a set of digests.
//!
//! The library computes and decides; it reads no file and writes none. A
//! caller hands it what it has read (a directory tree, sizes, contents) and
//! carries out what the library returns.
//!
//! - `listing`, `scanner`: the directory tree and the scan of its files, in an
//!   order that depends on the names alone.
//! - `system`, `paths`: the catalogue of files, and the checks on paths.
//! - `hashing`, `checksums`: the hash algorithms, and the digests of one file.
//! - `partition`, `scheduler`: the split of the catalogue into chunks, and the
//!   passes that give every file its digests.
//! - `search_engine`: the groups of files that share a name or their digests.
//! - `cli`, `export`, `error`: the configuration, what is handed to the
//!   export, and the errors with their messages.
//! - `text`, `text_map`: strings as sequences of characters, their order, and
//!   a table of texts that is searched by bisection.

pub mod checksums;
pub mod cli;
pub mod error;
pub mod export;
pub mod hashing;
pub mod listing;
pub mod partition;
pub mod paths;
pub mod scanner;
pub mod scheduler;
pub mod search_engine;
pub mod system;
pub mod text;
pub mod text_map;
