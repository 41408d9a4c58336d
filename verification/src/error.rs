//! The ways in which an operation of the object store can fail.

use vstd::prelude::*;

verus! {

/// Every failure the object store reports.
#[derive(Debug, Clone, PartialEq, Eq)]
pub enum Error {
    /// An operation of the underlying storage or stream failed.
    IoError,
    /// The upward search reached the filesystem root without finding a
    /// metadata directory.
    RepositoryNotFound,
    /// No object is stored under the requested digest.
    ObjectNotFound,
    /// Stored bytes could not be decompressed.
    CorruptData,
    /// Decompressed bytes are not the canonical encoding of any object.
    MalformedObject,
    /// A type tag outside the closed set of object kinds; carries the tag.
    UnknownObjectType(String),
}

} // verus!
