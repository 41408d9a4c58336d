//! Blobs: file content as opaque bytes.

use vstd::prelude::*;
use crate::bytes::copy_range;
use crate::error::Error;
use crate::objects::object::{GitObject, ObjectType};

verus! {

/// Raw file content. Every byte string is a blob, and a blob's payload is
/// its content unchanged.
#[derive(Debug, Clone, PartialEq, Eq)]
pub struct Blob {
    /// The content.
    pub content: Vec<u8>,
}

impl View for Blob {
    type V = Seq<u8>;

    open spec fn view(&self) -> Seq<u8> {
        self.content@
    }
}

impl Blob {
    /// The blob with the given content.
    pub fn new(content: Vec<u8>) -> (blob: Blob)
        ensures
            blob@ == content@,
    {
        Blob { content }
    }

    /// Decodes a blob's payload: the content is the payload.
    pub fn parse(payload: &[u8]) -> (blob: Blob)
        ensures
            blob@ == payload@,
    {
        Blob { content: copy_range(payload, 0, payload.len()) }
    }
}

impl GitObject for Blob {
    open spec fn well_formed(&self) -> bool {
        true
    }

    open spec fn kind(&self) -> ObjectType {
        ObjectType::Blob
    }

    open spec fn payload(&self) -> Seq<u8> {
        self@
    }

    fn object_type(&self) -> ObjectType {
        ObjectType::Blob
    }

    fn serialize(&self) -> (r: Result<Vec<u8>, Error>) {
        Ok(copy_range(self.content.as_slice(), 0, self.content.len()))
    }
}

} // verus!
