//! The object model: the four kinds of object, their framing and their
//! canonical encodings.

pub mod blob;
pub mod commit;
pub mod header;
pub mod object;
pub mod signature;
pub mod tag;
pub mod tree;
pub mod variant;

pub use blob::Blob;
pub use commit::Commit;
pub use object::{GitObject, ObjectType};
pub use signature::Signature;
pub use tag::Tag;
pub use tree::{Tree, TreeEntry};
pub use variant::Object;
