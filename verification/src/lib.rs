//! A minimal content-addressable object store in the style of git:
//! objects are identified by the SHA-1 hash of a typed, length-prefixed
//! byte stream, stored zlib-compressed under a path derived from the hash,
//! and reconstructible byte-for-byte from the hash alone.
use vstd::prelude::*;

pub mod blob;
pub mod commands;
pub mod commit;
pub mod git_object;
pub mod hashing;
pub mod object;
pub mod object_id;
pub mod tree;

pub mod wire;
pub mod zlib;

verus! {

/// The three kinds of objects the store understands.
#[derive(Clone, Copy, Debug, PartialEq, Eq, Structural)]
pub enum ObjectKind {
    Blob,
    Tree,
    Commit,
}

/// Every way a store operation can fail.
#[derive(Clone, Copy, Debug, PartialEq, Eq, Structural)]
pub enum GitError {
    /// Malformed hex or wrong length in an object id.
    InvalidObjectId,
    /// No object stored under the requested id.
    ObjectNotFound,
    /// Decompression failure, missing delimiter, or truncated body.
    CorruptObject,
    /// Header tag is not one of the known kinds, or the kind does not
    /// support the requested operation.
    UnsupportedObjectKind,
    /// An I/O failure on read, write, rename or mkdir.
    FilesystemError,
    /// A name field is not valid text.
    NonUtf8Name,
}

} // verus!
