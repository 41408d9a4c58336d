//! A content-addressable object store in the style of a version-control
//! system's storage layer.
//!
//! Objects are immutable values identified by the SHA-1 digest of their
//! canonical framed encoding. The crate holds the object model, the framing
//! and the per-kind encoders and decoders, the digest and compression
//! helpers, and the derivation of where a repository keeps each object. It
//! performs no input or output itself: callers read and write the bytes.

pub mod error;
pub mod index;
pub mod bytes;
pub mod database;
pub mod digest;
pub mod numeral;
pub mod objects;
pub mod repository;
pub mod utils;

pub use database::{load, store};
pub use digest::Digest;
pub use error::Error;
pub use index::Index;
pub use objects::{GitObject, ObjectType};
pub use repository::Repository;
