//! Any object: the closed union of the four kinds, and the decoding of a
//! framed object into the kind its header declares.

use vstd::prelude::*;
use crate::error::Error;
use crate::objects::blob::Blob;
use crate::objects::commit::{encode_commit, lemma_commit_injective, Commit, CommitView};
use crate::objects::object::{frame_spec, lemma_frame_injective, unframe, GitObject, ObjectType};
use crate::objects::tag::{encode_tag, lemma_tag_injective, Tag, TagView};
use crate::objects::tree::{encode_entries, lemma_entries_injective, EntryView, Tree};

verus! {

/// An object of any of the four kinds.
#[derive(Debug, Clone, PartialEq, Eq)]
pub enum Object {
    /// Raw file content.
    Blob(Blob),
    /// A directory listing.
    Tree(Tree),
    /// A snapshot with its history links.
    Commit(Commit),
    /// A pointer to another object.
    Tag(Tag),
}

/// An object of any kind as a mathematical value.
pub enum ObjectView {
    /// A blob's content.
    Blob(Seq<u8>),
    /// A tree's entries, in the order of their names.
    Tree(Seq<EntryView>),
    /// A commit.
    Commit(CommitView),
    /// A tag.
    Tag(TagView),
}

impl View for Object {
    type V = ObjectView;

    open spec fn view(&self) -> ObjectView {
        match self {
            Object::Blob(b) => ObjectView::Blob(b@),
            Object::Tree(t) => ObjectView::Tree(t@),
            Object::Commit(c) => ObjectView::Commit(c@),
            Object::Tag(t) => ObjectView::Tag(t@),
        }
    }
}

impl GitObject for Object {
    open spec fn well_formed(&self) -> bool {
        match self {
            Object::Blob(b) => b.well_formed(),
            Object::Tree(t) => t.well_formed(),
            Object::Commit(c) => c.well_formed(),
            Object::Tag(t) => t.well_formed(),
        }
    }

    open spec fn kind(&self) -> ObjectType {
        match self {
            Object::Blob(_) => ObjectType::Blob,
            Object::Tree(_) => ObjectType::Tree,
            Object::Commit(_) => ObjectType::Commit,
            Object::Tag(_) => ObjectType::Tag,
        }
    }

    open spec fn payload(&self) -> Seq<u8> {
        match self {
            Object::Blob(b) => b.payload(),
            Object::Tree(t) => t.payload(),
            Object::Commit(c) => c.payload(),
            Object::Tag(t) => t.payload(),
        }
    }

    fn object_type(&self) -> ObjectType {
        match self {
            Object::Blob(_) => ObjectType::Blob,
            Object::Tree(_) => ObjectType::Tree,
            Object::Commit(_) => ObjectType::Commit,
            Object::Tag(_) => ObjectType::Tag,
        }
    }

    fn serialize(&self) -> (r: Result<Vec<u8>, Error>) {
        match self {
            Object::Blob(b) => b.serialize(),
            Object::Tree(t) => t.serialize(),
            Object::Commit(c) => c.serialize(),
            Object::Tag(t) => t.serialize(),
        }
    }
}

/// The framed form of an object: what is hashed and stored.
pub open spec fn framed_form(o: Object) -> Seq<u8> {
    frame_spec(o.kind(), o.payload())
}

/// Valid objects with the same framed form are the same object: whoever
/// decodes what was stored for an object gets that object back, with the
/// same kind and the same payload.
pub proof fn lemma_decode_encode(stored: Object, loaded: Object)
    requires
        stored.well_formed(),
        loaded.well_formed(),
        framed_form(loaded) == framed_form(stored),
    ensures
        loaded.kind() == stored.kind(),
        loaded.payload() == stored.payload(),
        loaded@ == stored@,
{
    lemma_frame_injective(loaded.kind(), loaded.payload(), stored.kind(), stored.payload());
    match (stored, loaded) {
        (Object::Tree(a), Object::Tree(b)) => {
            lemma_entries_injective(a@, b@);
        },
        (Object::Commit(a), Object::Commit(b)) => {
            lemma_commit_injective(a@, b@);
        },
        (Object::Tag(a), Object::Tag(b)) => {
            lemma_tag_injective(a@, b@);
        },
        _ => {},
    }
}

impl Object {
    /// Decodes `payload` as an object of kind `kind`. Succeeds exactly
    /// where `payload` is the canonical payload of a valid object of that
    /// kind; everything else is `MalformedObject`.
    pub fn parse(kind: ObjectType, payload: &[u8]) -> (r: Result<Object, Error>)
        ensures
            match r {
                Ok(o) => o.well_formed() && o.kind() == kind && o.payload() == payload@,
                Err(e) => {
                    &&& e == Error::MalformedObject
                    &&& forall|o: Object|
                        o.well_formed() && o.kind() == kind ==> #[trigger] o.payload()
                            != payload@
                },
            },
    {
        match kind {
            ObjectType::Blob => Ok(Object::Blob(Blob::parse(payload))),
            ObjectType::Tree => match Tree::parse(payload) {
                Ok(t) => Ok(Object::Tree(t)),
                Err(e) => {
                    proof {
                        assert forall|o: Object|
                            o.well_formed() && o.kind() == kind implies #[trigger] o.payload()
                            != payload@ by {
                            match o {
                                Object::Tree(t) => {
                                    assert(t.payload() == encode_entries(t@));
                                },
                                _ => {},
                            }
                        }
                    }
                    Err(e)
                },
            },
            ObjectType::Commit => match Commit::parse(payload) {
                Ok(c) => Ok(Object::Commit(c)),
                Err(e) => {
                    proof {
                        assert forall|o: Object|
                            o.well_formed() && o.kind() == kind implies #[trigger] o.payload()
                            != payload@ by {
                            match o {
                                Object::Commit(c) => {
                                    assert(c.payload() == encode_commit(c@));
                                },
                                _ => {},
                            }
                        }
                    }
                    Err(e)
                },
            },
            ObjectType::Tag => match Tag::parse(payload) {
                Ok(t) => Ok(Object::Tag(t)),
                Err(e) => {
                    proof {
                        assert forall|o: Object|
                            o.well_formed() && o.kind() == kind implies #[trigger] o.payload()
                            != payload@ by {
                            match o {
                                Object::Tag(t) => {
                                    assert(t.payload() == encode_tag(t@));
                                },
                                _ => {},
                            }
                        }
                    }
                    Err(e)
                },
            },
        }
    }

    /// Decodes a framed object: splits off the header and decodes the
    /// payload as the kind the header declares. Succeeds exactly on the
    /// framed forms of valid objects, and then gives an object with that
    /// very framed form; everything else is `MalformedObject`.
    pub fn decode(framed: &[u8]) -> (r: Result<Object, Error>)
        ensures
            match r {
                Ok(o) => o.well_formed() && framed_form(o) == framed@,
                Err(e) => {
                    &&& e == Error::MalformedObject
                    &&& forall|o: Object| #[trigger] o.well_formed() ==> framed_form(o) != framed@
                },
            },
            forall|v: Object|
                #[trigger] v.well_formed() && framed_form(v) == framed@ ==> (r matches Ok(o) && o@
                    == v@),
    {
        let r = match unframe(framed) {
            Ok((kind, payload)) => {
                let parsed = Object::parse(kind, payload.as_slice());
                proof {
                    assert forall|o: Object| #[trigger] o.well_formed() && framed_form(o)
                        == framed@ implies o.kind() == kind && o.payload() == payload@ by {
                        lemma_frame_injective(o.kind(), o.payload(), kind, payload@);
                    }
                }
                parsed
            },
            Err(e) => Err(e),
        };
        proof {
            assert forall|v: Object|
                #[trigger] v.well_formed() && framed_form(v) == framed@ implies (r matches Ok(o)
                && o@ == v@) by {
                match r {
                    Ok(o) => {
                        lemma_decode_encode(v, o);
                    },
                    Err(_) => {},
                }
            }
        }
        r
    }
}

} // verus!
