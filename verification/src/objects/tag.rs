//! Tags: a pointer to an object of any kind, with who made it and a
//! message.

use vstd::prelude::*;
use vstd::string::*;
use crate::bytes::{
    ascii, ascii_bytes, copy_range, find_byte, first_at, lemma_field_end, lemma_first_unique,
    lemma_matches_inside, lemma_take_extend, matches_at, starts_with_at,
};
use crate::digest::Digest;
use crate::error::Error;
use crate::objects::header::{
    digest_line, lemma_digest_line_parts, lemma_digest_line_unique, push_digest_line,
    read_digest_line,
};
use crate::objects::object::{lemma_kind_of_tag, GitObject, ObjectType};
use crate::objects::signature::{
    lemma_signature_unique, signature_record, valid_signature, Signature, SignatureView,
};

verus! {

/// A pointer to an object, made by someone at some time for some reason.
#[derive(Debug, Clone, PartialEq, Eq)]
pub struct Tag {
    /// The digest of the object pointed at.
    pub target: Digest,
    /// The kind of the object pointed at.
    pub target_type: ObjectType,
    /// Who made the tag.
    pub tagger: Signature,
    /// The message.
    pub message: Vec<u8>,
}

/// A tag as a mathematical value.
pub struct TagView {
    /// The digest of the object pointed at.
    pub target: Seq<u8>,
    /// The kind of the object pointed at.
    pub target_type: ObjectType,
    /// Who made the tag.
    pub tagger: SignatureView,
    /// The message.
    pub message: Seq<u8>,
}

impl View for Tag {
    type V = TagView;

    open spec fn view(&self) -> TagView {
        TagView {
            target: self.target@,
            target_type: self.target_type,
            tagger: self.tagger@,
            message: self.message@,
        }
    }
}

/// The keyword of the line that names the target.
pub open spec fn object_keyword() -> Seq<u8> {
    ascii("object "@)
}

/// The keyword of the line that gives the target's kind.
pub open spec fn type_keyword() -> Seq<u8> {
    ascii("type "@)
}

/// The keyword of the tagger's line.
pub open spec fn tagger_keyword() -> Seq<u8> {
    ascii("tagger "@)
}

/// Whether a tag has an encoding: its digest has twenty bytes and its
/// signature is valid.
pub open spec fn valid_tag(t: TagView) -> bool {
    t.target.len() == 20 && valid_signature(t.tagger)
}

/// The encoding of a tag: the target's line, the line with its kind, the
/// tagger's line, an empty line, and the message.
pub open spec fn encode_tag(t: TagView) -> Seq<u8> {
    digest_line(object_keyword(), t.target) + type_keyword() + t.target_type.tag() + seq![10u8]
        + tagger_keyword() + signature_record(t.tagger) + seq![10u8] + t.message
}

proof fn lemma_keywords()
    ensures
        is_ascii("object "),
        is_ascii("type "),
        is_ascii("tagger "),
        object_keyword().len() == 7,
        type_keyword().len() == 5,
        tagger_keyword().len() == 7,
{
    reveal_strlit("object ");
    reveal_strlit("type ");
    reveal_strlit("tagger ");
}

/// Where the parts of a tag lie in its encoding.
proof fn lemma_tag_layout(t: TagView)
    requires
        valid_tag(t),
    ensures
        ({
            let e = encode_tag(t);
            let g = t.target_type.tag().len() as int;
            let r = signature_record(t.tagger).len() as int;
            &&& matches_at(e, 0, digest_line(object_keyword(), t.target))
            &&& matches_at(e, 48, type_keyword())
            &&& first_at(e, 53, 10u8, 53 + g)
            &&& e.subrange(53, 53 + g) == t.target_type.tag()
            &&& matches_at(e, 54 + g, tagger_keyword())
            &&& matches_at(e, 61 + g, signature_record(t.tagger))
            &&& e.len() == 62 + g + r + t.message.len()
            &&& e[61 + g + r] == 10u8
            &&& e.subrange(62 + g + r, e.len() as int) == t.message
        }),
{
    lemma_keywords();
    let e = encode_tag(t);
    let head = digest_line(object_keyword(), t.target);
    let tk = type_keyword();
    let kind = t.target_type.tag();
    let nl = seq![10u8];
    let gk = tagger_keyword();
    let rec = signature_record(t.tagger);
    let g = kind.len() as int;
    lemma_digest_line_parts(Seq::empty(), 0, object_keyword(), t.target);
    assert(head.subrange(0, 48) =~= head);
    lemma_matches_inside(
        Seq::empty(),
        head,
        tk + kind + nl + gk + rec + nl + t.message,
        0,
        head,
    );
    assert(Seq::<u8>::empty() + head + (tk + kind + nl + gk + rec + nl + t.message) =~= e);
    assert(tk.subrange(0, 5) =~= tk);
    lemma_matches_inside(head, tk, kind + nl + gk + rec + nl + t.message, 0, tk);
    assert(head + tk + (kind + nl + gk + rec + nl + t.message) =~= e);
    let field = kind.push(10u8);
    assert(field.subrange(0, g + 1) =~= field);
    lemma_matches_inside(head + tk, field, gk + rec + nl + t.message, 0, field);
    assert(head + tk + field + (gk + rec + nl + t.message) =~= e);
    lemma_field_end(e, 53, kind, 10u8);
    assert(gk.subrange(0, 7) =~= gk);
    lemma_matches_inside(head + tk + kind + nl, gk, rec + nl + t.message, 0, gk);
    assert(head + tk + kind + nl + gk + (rec + nl + t.message) =~= e);
    assert(rec.subrange(0, rec.len() as int) =~= rec);
    lemma_matches_inside(head + tk + kind + nl + gk, rec, nl + t.message, 0, rec);
    assert(head + tk + kind + nl + gk + rec + (nl + t.message) =~= e);
    assert(e.subrange(62 + g + rec.len(), e.len() as int) =~= t.message);
}

/// Tags with the same encoding are the same tag.
pub proof fn lemma_tag_injective(a: TagView, b: TagView)
    requires
        valid_tag(a),
        valid_tag(b),
        encode_tag(a) == encode_tag(b),
    ensures
        a == b,
{
    let e = encode_tag(a);
    lemma_tag_layout(a);
    lemma_tag_layout(b);
    lemma_digest_line_unique(e, 0, object_keyword(), a.target, b.target);
    let g = a.target_type.tag().len() as int;
    lemma_first_unique(e, 53, 10u8, 53 + g, 53 + b.target_type.tag().len() as int);
    lemma_kind_of_tag(a.target_type, b.target_type);
    lemma_signature_unique(e, 61 + g, a.tagger, b.tagger);
}

impl Tag {
    /// Decodes a tag's payload. Succeeds exactly on the encodings of valid
    /// tags; everything else (a missing or misplaced header line, a digest
    /// that is not forty hexadecimal digits, an unknown kind, a signature
    /// that is not well formed, no empty line before the message) is
    /// `MalformedObject`.
    pub fn parse(payload: &[u8]) -> (r: Result<Tag, Error>)
        ensures
            match r {
                Ok(t) => valid_tag(t@) && encode_tag(t@) == payload@,
                Err(e) => {
                    &&& e == Error::MalformedObject
                    &&& forall|v: TagView| valid_tag(v) ==> #[trigger] encode_tag(v) != payload@
                },
            },
    {
        proof {
            lemma_keywords();
            assert forall|v: TagView|
                valid_tag(v) && #[trigger] encode_tag(v) == payload@ implies {
                let g = v.target_type.tag().len() as int;
                let r = signature_record(v.tagger).len() as int;
                &&& matches_at(payload@, 0, digest_line(object_keyword(), v.target))
                &&& matches_at(payload@, 48, type_keyword())
                &&& first_at(payload@, 53, 10u8, 53 + g)
                &&& payload@.subrange(53, 53 + g) == v.target_type.tag()
                &&& matches_at(payload@, 54 + g, tagger_keyword())
                &&& matches_at(payload@, 61 + g, signature_record(v.tagger))
                &&& payload@.len() == 62 + g + r + v.message.len()
                &&& payload@[61 + g + r] == 10u8
            } by {
                lemma_tag_layout(v);
            }
        }
        let total: usize = payload.len();
        let (target, start) = match read_digest_line(payload, 0, ascii_bytes("object ")) {
            Some(found) => found,
            None => {
                return Err(Error::MalformedObject);
            },
        };
        if !starts_with_at(payload, start, ascii_bytes("type ")) {
            return Err(Error::MalformedObject);
        }
        let line_end = match find_byte(payload, start + 5, 10u8) {
            Some(i) => i,
            None => {
                return Err(Error::MalformedObject);
            },
        };
        let kind = ObjectType::from_bytes(vstd::slice::slice_subrange(payload, start + 5, line_end));
        proof {
            assert forall|v: TagView|
                valid_tag(v) && #[trigger] encode_tag(v) == payload@ implies {
                &&& v.target == target@
                &&& line_end == 53 + v.target_type.tag().len()
                &&& kind == Some(v.target_type)
            } by {
                lemma_digest_line_unique(payload@, 0, object_keyword(), v.target, target@);
                lemma_first_unique(
                    payload@,
                    53,
                    10u8,
                    line_end as int,
                    53 + v.target_type.tag().len() as int,
                );
                match kind {
                    Some(k) => {
                        lemma_kind_of_tag(k, v.target_type);
                    },
                    None => {},
                }
            }
        }
        let target_type = match kind {
            Some(k) => k,
            None => {
                return Err(Error::MalformedObject);
            },
        };
        if !starts_with_at(payload, line_end + 1, ascii_bytes("tagger ")) {
            return Err(Error::MalformedObject);
        }
        let (tagger, end) = match Signature::read_record(payload, line_end + 8) {
            Some(found) => found,
            None => {
                return Err(Error::MalformedObject);
            },
        };
        proof {
            assert forall|v: TagView|
                valid_tag(v) && #[trigger] encode_tag(v) == payload@ implies v.tagger
                == tagger@ by {
                lemma_signature_unique(payload@, line_end + 8, v.tagger, tagger@);
            }
        }
        if end >= total || payload[end] != 10u8 {
            return Err(Error::MalformedObject);
        }
        let message = copy_range(payload, end + 1, total);
        let tag = Tag { target, target_type, tagger, message };
        proof {
            lemma_take_extend(payload@, 0, digest_line(object_keyword(), target@));
            lemma_take_extend(payload@, 48, type_keyword());
            assert(payload@.take(line_end as int) =~= payload@.take(53) + target_type.tag()) by {
                assert forall|j: int| 53 <= j < line_end implies payload@[j]
                    == target_type.tag()[j - 53] by {
                    assert(payload@.subrange(53, line_end as int)[j - 53] == payload@[j]);
                }
            }
            lemma_take_extend(payload@, line_end + 1, tagger_keyword());
            lemma_take_extend(payload@, line_end + 8, signature_record(tagger@));
            assert(payload@.take(line_end + 1) =~= payload@.take(line_end as int) + seq![10u8]);
            assert(payload@ =~= payload@.take(end as int) + seq![10u8] + message@);
            assert(payload@.take(0) =~= Seq::<u8>::empty());
            assert(encode_tag(tag@) =~= payload@);
        }
        Ok(tag)
    }
}

impl GitObject for Tag {
    open spec fn well_formed(&self) -> bool {
        valid_tag(self@)
    }

    open spec fn kind(&self) -> ObjectType {
        ObjectType::Tag
    }

    open spec fn payload(&self) -> Seq<u8> {
        encode_tag(self@)
    }

    fn object_type(&self) -> ObjectType {
        ObjectType::Tag
    }

    fn serialize(&self) -> (r: Result<Vec<u8>, Error>) {
        proof {
            lemma_keywords();
        }
        if !self.tagger.is_valid() {
            return Err(Error::MalformedObject);
        }
        let mut out: Vec<u8> = Vec::new();
        push_digest_line(&mut out, ascii_bytes("object "), &self.target);
        out.extend_from_slice(ascii_bytes("type "));
        out.extend_from_slice(self.target_type.as_bytes());
        out.push(10u8);
        out.extend_from_slice(ascii_bytes("tagger "));
        self.tagger.push_record(&mut out);
        out.push(10u8);
        out.extend_from_slice(self.message.as_slice());
        assert(out@ =~= encode_tag(self@));
        Ok(out)
    }
}

} // verus!
