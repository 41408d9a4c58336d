//! The object database: what storing an object writes, and what loading
//! makes of the bytes that were read.

use vstd::prelude::*;
use crate::digest::{hex_text, is_digest_text};
use crate::error::Error;
use crate::objects::object::{frame_spec, GitObject};
use crate::objects::variant::{framed_form, Object};
use crate::repository::{object_dir_spec, object_path_spec, ObjectFile, Repository};
use crate::utils::{decompress, hash_data, sha1_digest, zlib_inflated, zlib_stream};

verus! {

/// An object made ready for storing: its digest and the file to write.
#[derive(Debug, Clone, PartialEq, Eq)]
pub struct Stored {
    /// The object's digest, as forty hexadecimal characters.
    pub digest: String,
    /// The file that holds the object.
    pub file: ObjectFile,
}

/// Prepares `object` for storing in `repo`: frames its payload, takes the
/// digest of the framed bytes, and compresses them for the file that the
/// digest names. This succeeds exactly on the well-formed objects. The
/// caller writes the file; loading what was written gives the object back.
pub fn store<T: GitObject>(repo: &Repository, object: &T) -> (r: Result<Stored, Error>)
    ensures
        match r {
            Ok(s) => {
                let framed = frame_spec(object.kind(), object.payload());
                &&& object.well_formed()
                &&& s.digest@ == hex_text(sha1_digest(framed))
                &&& is_digest_text(s.digest@)
                &&& s.file.directory@ == object_dir_spec(repo.git_dir@, s.digest@)
                &&& s.file.path@ == object_path_spec(repo.git_dir@, s.digest@)
                &&& s.file.bytes@ == zlib_stream(framed)
                &&& s.file.bytes@.len() > 0
                &&& zlib_inflated(s.file.bytes@) == Some(framed)
            },
            Err(e) => !object.well_formed() && e == Error::MalformedObject,
        },
{
    let framed = match object.to_bytes() {
        Ok(bytes) => bytes,
        Err(e) => {
            return Err(e);
        },
    };
    let digest = hash_data(framed.as_slice());
    match repo.write_object(digest.as_str(), framed.as_slice()) {
        Ok(file) => Ok(Stored { digest, file }),
        Err(e) => Err(e),
    }
}

/// Makes an object of what was read from an object's file. `stored` is
/// the file's content, or `None` where there is no such file
/// (`ObjectNotFound`). Content that does not decompress is `CorruptData`;
/// decompressed bytes that are not the framed form of a valid object are
/// `MalformedObject`. The content that `store` prepared for an object
/// loads as that object.
pub fn load(stored: Option<&[u8]>) -> (r: Result<Object, Error>)
    ensures
        match stored {
            None => r == Err::<Object, Error>(Error::ObjectNotFound),
            Some(bytes) => match zlib_inflated(bytes@) {
                None => r == Err::<Object, Error>(Error::CorruptData),
                Some(framed) => {
                    &&& match r {
                        Ok(o) => o.well_formed() && framed_form(o) == framed,
                        Err(e) => {
                            &&& e == Error::MalformedObject
                            &&& forall|o: Object|
                                #[trigger] o.well_formed() ==> framed_form(o) != framed
                        },
                    }
                    &&& forall|v: Object|
                        #[trigger] v.well_formed() && framed_form(v) == framed ==> (r matches Ok(
                            o,
                        ) && o@ == v@)
                },
            },
        },
{
    let bytes = match stored {
        Some(bytes) => bytes,
        None => {
            return Err(Error::ObjectNotFound);
        },
    };
    match decompress(bytes) {
        Ok(framed) => Object::decode(framed.as_slice()),
        Err(e) => Err(e),
    }
}

} // verus!
