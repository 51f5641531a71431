//! An archiver/compressor library.
//!
//! A tree of files, directories and symbolic links is packed into a single
//! archive file: an embedded relational database whose tables encode the
//! directory tree (`item`), a set of compressed content bundles (`content`),
//! and a mapping from byte ranges of items to byte ranges inside the
//! decompressed bundles (`itemcontent`). Compression is applied per bundle,
//! not per file, so small files amortize codec overhead; files larger than
//! the bundle capacity are split across bundles and reassembled on
//! extraction.
//!
//! Paths throughout are `/`-separated, POSIX style; other separators and
//! drive prefixes are ordinary name characters to this library.
//!
//! The guarantees live where the work is done: `pack::PackBuilder::finish`
//! leaves tables satisfying `archive::archive_wf`; `unpack` turns such
//! tables into a scatter plan of sanitized write actions; and the lemmas of
//! `restore` prove that applying the plan gives back every item's bytes
//! exactly, on a fresh destination or over a previous extraction.

use vstd::prelude::*;

pub mod archive;
pub mod codec;
pub mod ident;
pub mod pack;
pub mod path;
pub mod restore;
pub mod store;
pub mod unpack;

pub use ident::is_pack_file;
pub use path::get_file_name;
pub use path::sanitize_path;
pub use store::Entry;

verus! {

/// Persisted `kind` tag for file items.
pub const KIND_FILE: i8 = 0;

/// Persisted `kind` tag for directory items.
pub const KIND_DIRECTORY: i8 = 1;

/// Persisted `kind` tag for symbolic-link items.
pub const KIND_SYMLINK: i8 = 2;

/// Upper bound, in bytes, on the uncompressed size of one content bundle.
pub const BUNDLE_SIZE: u64 = 16777216;

/// All possible errors that can occur within this crate.
#[derive(Debug)]
pub enum Error {
    /// Error occurred during an I/O related operation; carries the
    /// underlying error's message.
    IOError(String),
    /// Error occurred during an SQL related operation; carries the
    /// underlying error's message.
    SQLError(String),
    /// When writing file content to a blob, the result was incomplete.
    IncompleteBlobWrite,
    /// The named pack file was not one of ours.
    NotPackFile,
    /// The symbolic link bytes were not decipherable.
    LinkTextEncoding,
    /// Something happened when operating on the database, or an input
    /// would break the archive's rules.
    Database,
    /// Thread pool is shutting down.
    ThreadPoolShutdown,
}

} // verus!
