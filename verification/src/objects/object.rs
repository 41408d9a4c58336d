//! Object kinds, the capability every object shares, and the framing that
//! precedes a payload before it is hashed and stored.

use vstd::prelude::*;
use vstd::string::*;
use vstd::utf8::*;
use crate::bytes::{ascii, ascii_bytes, copy_range, equal, find_byte, first_at};
use crate::digest::{hex_text, is_digest_text};
use crate::error::Error;
use crate::numeral::{
    decode_numeral, lemma_numeral_canonical, lemma_numeral_of_value, numeral, parse_numeral,
    push_numeral, Radix,
};
use crate::utils::{hash_data, sha1_digest};

verus! {

/// The kinds of object the store holds.
#[derive(Debug, Clone, Copy, PartialEq, Eq)]
pub enum ObjectType {
    /// Raw file content.
    Blob,
    /// A directory listing.
    Tree,
    /// A snapshot with its history links.
    Commit,
    /// A pointer to another object, with a message.
    Tag,
}

impl ObjectType {
    /// The kind's tag as text.
    pub open spec fn tag_text(self) -> Seq<char> {
        match self {
            ObjectType::Blob => seq!['b', 'l', 'o', 'b'],
            ObjectType::Tree => seq!['t', 'r', 'e', 'e'],
            ObjectType::Commit => seq!['c', 'o', 'm', 'm', 'i', 't'],
            ObjectType::Tag => seq!['t', 'a', 'g'],
        }
    }

    /// The kind's tag as the ASCII bytes that a frame starts with.
    pub open spec fn tag(self) -> Seq<u8> {
        ascii(self.tag_text())
    }

    /// The kind's lowercase tag.
    pub fn as_str(&self) -> (s: &'static str)
        ensures
            s@ == self.tag_text(),
    {
        proof {
            reveal_strlit("blob");
            reveal_strlit("tree");
            reveal_strlit("commit");
            reveal_strlit("tag");
        }
        let s = match self {
            ObjectType::Blob => "blob",
            ObjectType::Tree => "tree",
            ObjectType::Commit => "commit",
            ObjectType::Tag => "tag",
        };
        assert(s@ =~= self.tag_text());
        s
    }

    /// The kind's tag as bytes.
    pub fn as_bytes(&self) -> (b: &'static [u8])
        ensures
            b@ == self.tag(),
    {
        ascii_bytes(self.as_str())
    }

    /// The kind whose tag is `tag`, if there is one.
    pub fn from_bytes(tag: &[u8]) -> (r: Option<ObjectType>)
        ensures
            match r {
                Some(t) => tag@ == t.tag(),
                None => forall|t: ObjectType| tag@ != #[trigger] t.tag(),
            },
    {
        let kinds = [ObjectType::Blob, ObjectType::Tree, ObjectType::Commit, ObjectType::Tag];
        let mut i: usize = 0;
        while i < 4
            invariant
                i <= 4,
                kinds@ == seq![
                    ObjectType::Blob,
                    ObjectType::Tree,
                    ObjectType::Commit,
                    ObjectType::Tag,
                ],
                forall|j: int| 0 <= j < i ==> tag@ != (#[trigger] kinds@[j]).tag(),
            decreases 4 - i,
        {
            let kind = kinds[i];
            let expected = kind.as_bytes();
            if equal(tag, expected) {
                return Some(kind);
            }
            i = i + 1;
        }
        proof {
            assert forall|t: ObjectType| tag@ != #[trigger] t.tag() by {
                assert(t == kinds@[0] || t == kinds@[1] || t == kinds@[2] || t == kinds@[3]);
            }
        }
        None
    }

    /// Parses a tag; any text outside the closed set of kinds is rejected
    /// with `UnknownObjectType`, which carries the text.
    pub fn from_str(s: &str) -> (r: Result<ObjectType, Error>)
        ensures
            match r {
                Ok(t) => s@ == t.tag_text(),
                Err(e) => {
                    &&& e matches Error::UnknownObjectType(text)
                    &&& text@ == s@
                    &&& forall|t: ObjectType| s@ != #[trigger] t.tag_text()
                },
            },
    {
        match ObjectType::from_bytes(s.as_bytes()) {
            Some(t) => {
                proof {
                    lemma_tag_text_bytes(t);
                    encode_utf8_decode_utf8(s@);
                    encode_utf8_decode_utf8(t.tag_text());
                }
                Ok(t)
            },
            None => {
                proof {
                    assert forall|t: ObjectType| s@ != #[trigger] t.tag_text() by {
                        lemma_tag_text_bytes(t);
                    }
                }
                Err(Error::UnknownObjectType(s.to_owned()))
            },
        }
    }
}

/// Kinds with the same tag are the same kind.
pub proof fn lemma_kind_of_tag(a: ObjectType, b: ObjectType)
    requires
        a.tag() == b.tag(),
    ensures
        a == b,
{
    assert(a.tag().len() == a.tag_text().len());
    assert(b.tag().len() == b.tag_text().len());
    assert(a.tag()[0] == a.tag_text()[0] as u8);
    assert(b.tag()[0] == b.tag_text()[0] as u8);
}

/// The bytes of a tag are the UTF-8 encoding of its text.
proof fn lemma_tag_text_bytes(t: ObjectType)
    ensures
        encode_utf8(t.tag_text()) == t.tag(),
{
    let c = t.tag_text();
    assert(is_ascii_chars(c));
    is_ascii_chars_encode_utf8(c);
    assert(encode_utf8(c) =~= t.tag());
}

/// The framed form of an object: its tag, a space, the payload's length in
/// decimal, a zero byte, and the payload.
pub open spec fn frame_spec(kind: ObjectType, payload: Seq<u8>) -> Seq<u8> {
    kind.tag() + seq![32u8] + numeral(payload.len(), Radix::Decimal) + seq![0u8] + payload
}

/// Where the parts of a frame lie: the tag holds neither a space nor a
/// zero byte, the length holds no zero byte, so the first space ends the
/// tag and the first zero byte ends the header.
proof fn lemma_frame_layout(kind: ObjectType, payload: Seq<u8>)
    ensures
        ({
            let f = frame_spec(kind, payload);
            let a = kind.tag().len() as int;
            let m = numeral(payload.len(), Radix::Decimal).len() as int;
            &&& f.len() == a + m + 2 + payload.len()
            &&& first_at(f, 0, 32u8, a)
            &&& first_at(f, 0, 0u8, a + 1 + m)
            &&& f.subrange(0, a) == kind.tag()
            &&& f.subrange(a + 1, a + 1 + m) == numeral(payload.len(), Radix::Decimal)
            &&& f.subrange(a + m + 2, f.len() as int) == payload
        }),
{
    let f = frame_spec(kind, payload);
    let a = kind.tag().len() as int;
    let digits = numeral(payload.len(), Radix::Decimal);
    let m = digits.len() as int;
    lemma_numeral_canonical(payload.len(), Radix::Decimal);
    assert forall|j: int| 0 <= j < a + 1 + m implies f[j] != 0u8 by {
        if j < a {
            assert(f[j] == kind.tag()[j]);
        } else if j > a {
            assert(f[j] == digits[j - a - 1]);
            assert(Radix::Decimal.is_digit(digits[j - a - 1]));
        }
    }
    assert forall|j: int| 0 <= j < a implies f[j] != 32u8 by {
        assert(f[j] == kind.tag()[j]);
    }
    assert(f.subrange(0, a) =~= kind.tag());
    assert(f.subrange(a + 1, a + 1 + m) =~= digits);
    assert(f.subrange(a + m + 2, f.len() as int) =~= payload);
}

/// A frame determines the kind and the payload it was made from: unframing
/// a frame gives back exactly both.
pub proof fn lemma_frame_injective(k1: ObjectType, p1: Seq<u8>, k2: ObjectType, p2: Seq<u8>)
    requires
        frame_spec(k1, p1) == frame_spec(k2, p2),
    ensures
        k1 == k2,
        p1 == p2,
{
    lemma_frame_layout(k1, p1);
    lemma_frame_layout(k2, p2);
    let f = frame_spec(k1, p1);
    let a1 = k1.tag().len() as int;
    let a2 = k2.tag().len() as int;
    assert(a1 == a2) by {
        if a1 < a2 {
            assert(f[a1] == 32u8);
        } else if a2 < a1 {
            assert(f[a2] == 32u8);
        }
    }
    lemma_kind_of_tag(k1, k2);
    let m1 = numeral(p1.len(), Radix::Decimal).len() as int;
    let m2 = numeral(p2.len(), Radix::Decimal).len() as int;
    assert(m1 == m2) by {
        if m1 < m2 {
            assert(f[a1 + 1 + m1] == 0u8);
        } else if m2 < m1 {
            assert(f[a1 + 1 + m2] == 0u8);
        }
    }
}

/// Frames `payload` as an object of kind `kind`.
pub fn frame(kind: ObjectType, payload: &[u8]) -> (framed: Vec<u8>)
    ensures
        framed@ == frame_spec(kind, payload@),
{
    let mut framed: Vec<u8> = Vec::new();
    framed.extend_from_slice(kind.as_bytes());
    framed.push(32u8);
    push_numeral(&mut framed, payload.len() as u64, Radix::Decimal);
    framed.push(0u8);
    framed.extend_from_slice(payload);
    assert(framed@ =~= frame_spec(kind, payload@));
    framed
}

/// What the header of a frame tells a reader who has found its first zero
/// byte and its first space.
proof fn lemma_frame_read(bytes: Seq<u8>, kind: ObjectType, payload: Seq<u8>, space: int, nul: int)
    requires
        bytes == frame_spec(kind, payload),
        bytes.len() <= usize::MAX,
        first_at(bytes, 0, 0u8, nul),
        first_at(bytes, 0, 32u8, space),
    ensures
        space < nul,
        bytes.subrange(0, space) == kind.tag(),
        decode_numeral(bytes.subrange(space + 1, nul), Radix::Decimal) == Some(
            payload.len() as u64,
        ),
        payload.len() == bytes.len() - nul - 1,
{
    lemma_frame_layout(kind, payload);
    lemma_numeral_canonical(payload.len(), Radix::Decimal);
    let a = kind.tag().len() as int;
    let m = numeral(payload.len(), Radix::Decimal).len() as int;
    assert(space == a) by {
        if space < a {
            assert(bytes[space] == 32u8);
        } else if a < space {
            assert(bytes[a] == 32u8);
        }
    }
    assert(nul == a + 1 + m) by {
        if nul < a + 1 + m {
            assert(bytes[nul] == 0u8);
        } else if a + 1 + m < nul {
            assert(bytes[a + 1 + m] == 0u8);
        }
    }
}

/// A byte string whose header reads as a tag and a length that counts the
/// bytes after the zero byte is a frame.
proof fn lemma_frame_built(bytes: Seq<u8>, kind: ObjectType, space: int, nul: int)
    requires
        0 <= space < nul < bytes.len() <= usize::MAX,
        bytes[space] == 32u8,
        bytes[nul] == 0u8,
        bytes.subrange(0, space) == kind.tag(),
        decode_numeral(bytes.subrange(space + 1, nul), Radix::Decimal) == Some(
            (bytes.len() - nul - 1) as u64,
        ),
    ensures
        bytes == frame_spec(kind, bytes.subrange(nul + 1, bytes.len() as int)),
{
    let digits = bytes.subrange(space + 1, nul);
    let payload = bytes.subrange(nul + 1, bytes.len() as int);
    lemma_numeral_of_value(digits, Radix::Decimal);
    assert(numeral(payload.len(), Radix::Decimal) == digits);
    let f = frame_spec(kind, payload);
    assert(f.len() == bytes.len());
    assert forall|j: int| 0 <= j < bytes.len() implies bytes[j] == f[j] by {
        if j < space {
            assert(bytes.subrange(0, space)[j] == bytes[j]);
        } else if space < j < nul {
            assert(digits[j - space - 1] == bytes[j]);
        } else if nul < j {
            assert(payload[j - nul - 1] == bytes[j]);
        }
    }
    assert(bytes =~= f);
}

/// Splits a framed object into its kind and payload. Succeeds exactly on
/// the frames that `frame` produces; everything else (no zero byte, no
/// space, an unknown tag, a length that is not a canonical decimal or does
/// not count the bytes that follow) is `MalformedObject`.
pub fn unframe(bytes: &[u8]) -> (r: Result<(ObjectType, Vec<u8>), Error>)
    ensures
        match r {
            Ok((kind, payload)) => bytes@ == frame_spec(kind, payload@),
            Err(e) => {
                &&& e == Error::MalformedObject
                &&& forall|kind: ObjectType, payload: Seq<u8>|
                    bytes@ != #[trigger] frame_spec(kind, payload)
            },
        },
        forall|kind: ObjectType, payload: Seq<u8>|
            bytes@ == #[trigger] frame_spec(kind, payload) ==> (r matches Ok((k, p)) && k == kind
                && p@ == payload),
{
    let total: usize = bytes.len();
    let nul = match find_byte(bytes, 0, 0u8) {
        Some(i) => i,
        None => {
            proof {
                assert forall|kind: ObjectType, payload: Seq<u8>|
                    bytes@ != #[trigger] frame_spec(kind, payload) by {
                    lemma_frame_layout(kind, payload);
                }
            }
            return Err(Error::MalformedObject);
        },
    };
    let space = match find_byte(bytes, 0, 32u8) {
        Some(i) => i,
        None => {
            proof {
                assert forall|kind: ObjectType, payload: Seq<u8>|
                    bytes@ != #[trigger] frame_spec(kind, payload) by {
                    lemma_frame_layout(kind, payload);
                }
            }
            return Err(Error::MalformedObject);
        },
    };
    proof {
        assert forall|k: ObjectType, p: Seq<u8>| bytes@ == #[trigger] frame_spec(k, p) implies {
            &&& space < nul
            &&& bytes@.subrange(0, space as int) == k.tag()
            &&& decode_numeral(bytes@.subrange(space + 1, nul as int), Radix::Decimal) == Some(
                p.len() as u64,
            )
            &&& p.len() == bytes@.len() - nul - 1
        } by {
            lemma_frame_read(bytes@, k, p, space as int, nul as int);
        }
    }
    if space > nul {
        return Err(Error::MalformedObject);
    }
    let kind = ObjectType::from_bytes(vstd::slice::slice_subrange(bytes, 0, space));
    let length = parse_numeral(bytes, space + 1, nul, Radix::Decimal);
    let rest: usize = total - nul - 1;
    match (kind, length) {
        (Some(k), Some(n)) => {
            if n != rest as u64 {
                return Err(Error::MalformedObject);
            }
            let payload = copy_range(bytes, nul + 1, total);
            proof {
                lemma_frame_built(bytes@, k, space as int, nul as int);
                assert forall|kind: ObjectType, p: Seq<u8>|
                    bytes@ == #[trigger] frame_spec(kind, p) implies k == kind && payload@
                    == p by {
                    lemma_frame_injective(kind, p, k, payload@);
                }
            }
            Ok((k, payload))
        },
        _ => Err(Error::MalformedObject),
    }
}

/// What every object can do: tell its kind and write its payload in
/// canonical form. Framing and digest are derived from these two alone, in
/// one place, so that every kind of object is framed and hashed alike.
pub trait GitObject {
    /// Whether the value is a valid object, one that has an encoding.
    spec fn well_formed(&self) -> bool;

    /// The object's kind.
    spec fn kind(&self) -> ObjectType;

    /// The object's canonical payload.
    spec fn payload(&self) -> Seq<u8>;

    /// The object's kind.
    fn object_type(&self) -> (t: ObjectType)
        ensures
            t == self.kind(),
    ;

    /// The object's canonical payload, without the frame header. Fails with
    /// `MalformedObject` exactly where the value is not a valid object.
    fn serialize(&self) -> (r: Result<Vec<u8>, Error>)
        ensures
            match r {
                Ok(p) => self.well_formed() && p@ == self.payload(),
                Err(e) => !self.well_formed() && e == Error::MalformedObject,
            },
    ;

    /// The object's digest: the hash of its framed form, as forty
    /// hexadecimal characters.
    fn hash(&self) -> (r: Result<String, Error>)
        ensures
            match r {
                Ok(h) => {
                    &&& self.well_formed()
                    &&& h@ == hex_text(sha1_digest(frame_spec(self.kind(), self.payload())))
                    &&& is_digest_text(h@)
                },
                Err(e) => !self.well_formed() && e == Error::MalformedObject,
            },
    {
        match self.to_bytes() {
            Ok(data) => Ok(hash_data(data.as_slice())),
            Err(e) => Err(e),
        }
    }

    /// The object's framed form: what is hashed and, compressed, stored.
    fn to_bytes(&self) -> (r: Result<Vec<u8>, Error>)
        ensures
            match r {
                Ok(b) => self.well_formed() && b@ == frame_spec(self.kind(), self.payload()),
                Err(e) => !self.well_formed() && e == Error::MalformedObject,
            },
    {
        match self.serialize() {
            Ok(content) => Ok(frame(self.object_type(), content.as_slice())),
            Err(e) => Err(e),
        }
    }
}

} // verus!
