//! Header lines that name an object: a keyword, the object's digest in
//! hexadecimal, and a line end.

use vstd::prelude::*;
use crate::bytes::{lemma_matches_concat, matches_at, starts_with_at};
use crate::digest::{hex_of, lemma_unhex_hex, parse_hex, push_hex, Digest};

verus! {

/// The line that names the object with digest `digest` under `keyword`.
pub open spec fn digest_line(keyword: Seq<u8>, digest: Seq<u8>) -> Seq<u8> {
    keyword + hex_of(digest) + seq![10u8]
}

/// The views of a run of digests.
pub open spec fn digest_views(digests: Seq<Digest>) -> Seq<Seq<u8>> {
    Seq::new(digests.len(), |i: int| digests[i]@)
}

/// At most one digest has its line under `keyword` at a given place.
pub proof fn lemma_digest_line_unique(
    input: Seq<u8>,
    pos: int,
    keyword: Seq<u8>,
    a: Seq<u8>,
    b: Seq<u8>,
)
    requires
        a.len() == b.len(),
        matches_at(input, pos, digest_line(keyword, a)),
        matches_at(input, pos, digest_line(keyword, b)),
    ensures
        a == b,
{
    lemma_digest_line_parts(input, pos, keyword, a);
    lemma_digest_line_parts(input, pos, keyword, b);
    lemma_unhex_hex(a);
    lemma_unhex_hex(b);
}

/// Where the parts of a digest line lie when it stands at `pos`.
pub proof fn lemma_digest_line_parts(input: Seq<u8>, pos: int, keyword: Seq<u8>, d: Seq<u8>)
    ensures
        matches_at(input, pos, digest_line(keyword, d)) <==> {
            &&& matches_at(input, pos, keyword)
            &&& matches_at(input, pos + keyword.len(), hex_of(d))
            &&& matches_at(input, pos + keyword.len() + 2 * d.len(), seq![10u8])
        },
        digest_line(keyword, d).len() == keyword.len() + 2 * d.len() + 1,
{
    let rest = hex_of(d) + seq![10u8];
    assert(digest_line(keyword, d) =~= keyword + rest);
    lemma_matches_concat(input, pos, keyword, rest);
    lemma_matches_concat(input, pos + keyword.len(), hex_of(d), seq![10u8]);
}

/// Appends the line that names `digest` under `keyword` to `out`.
pub fn push_digest_line(out: &mut Vec<u8>, keyword: &[u8], digest: &Digest)
    ensures
        final(out)@ == old(out)@ + digest_line(keyword@, digest@),
{
    out.extend_from_slice(keyword);
    push_hex(out, digest.bytes.as_slice());
    out.push(10u8);
    assert(out@ =~= old(out)@ + digest_line(keyword@, digest@));
}

/// Reads the line under `keyword` that stands at `input[pos..]`, and says
/// where it ends.
pub fn read_digest_line(input: &[u8], pos: usize, keyword: &[u8]) -> (r: Option<(Digest, usize)>)
    requires
        pos <= input.len(),
    ensures
        match r {
            Some((d, next)) => {
                &&& matches_at(input@, pos as int, digest_line(keyword@, d@))
                &&& next == pos + keyword@.len() + 41
            },
            None => forall|d: Seq<u8>|
                d.len() == 20 ==> !matches_at(
                    input@,
                    pos as int,
                    #[trigger] digest_line(keyword@, d),
                ),
        },
{
    proof {
        assert forall|d: Seq<u8>| d.len() == 20 implies (matches_at(
            input@,
            pos as int,
            #[trigger] digest_line(keyword@, d),
        ) <==> {
            &&& matches_at(input@, pos as int, keyword@)
            &&& matches_at(input@, pos + keyword@.len(), hex_of(d))
            &&& matches_at(input@, pos + keyword@.len() + 40, seq![10u8])
        }) by {
            lemma_digest_line_parts(input@, pos as int, keyword@, d);
        }
    }
    if !starts_with_at(input, pos, keyword) {
        return None;
    }
    let start: usize = pos + keyword.len();
    let digest = match parse_hex(input, start) {
        Some(d) => d,
        None => {
            return None;
        },
    };
    if input.len() - start < 41 || input[start + 40] != 10u8 {
        proof {
            if input@.len() - start >= 41 {
                assert(input@.subrange(start + 40, start + 41)[0] == input@[start + 40]);
            }
        }
        return None;
    }
    proof {
        assert(input@.subrange(start + 40, start + 41) =~= seq![10u8]);
        lemma_digest_line_parts(input@, pos as int, keyword@, digest@);
    }
    Some((digest, start + 41))
}

} // verus!
