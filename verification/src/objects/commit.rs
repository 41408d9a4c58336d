//! Commits: a tree, the commits it follows, who made it, and a message.

use vstd::prelude::*;
use vstd::string::*;
use crate::bytes::{
    ascii, ascii_bytes, copy_range, lemma_matches_inside, lemma_take_extend, matches_at,
    starts_with_at,
};
use crate::digest::Digest;
use crate::error::Error;
use crate::objects::header::{
    digest_line, digest_views, lemma_digest_line_parts, lemma_digest_line_unique,
    push_digest_line, read_digest_line,
};
use crate::objects::object::{GitObject, ObjectType};
use crate::objects::signature::{
    lemma_signature_unique, signature_record, valid_signature, Signature, SignatureView,
};

verus! {

/// A snapshot and its place in history.
#[derive(Debug, Clone, PartialEq, Eq)]
pub struct Commit {
    /// The tree of the snapshot.
    pub tree: Digest,
    /// The commits this one follows: none for a root, two or more for a
    /// merge.
    pub parents: Vec<Digest>,
    /// Who wrote the change.
    pub author: Signature,
    /// Who committed it.
    pub committer: Signature,
    /// The message.
    pub message: Vec<u8>,
}

/// A commit as a mathematical value.
pub struct CommitView {
    /// The digest of the tree.
    pub tree: Seq<u8>,
    /// The digests of the parents, in order.
    pub parents: Seq<Seq<u8>>,
    /// Who wrote the change.
    pub author: SignatureView,
    /// Who committed it.
    pub committer: SignatureView,
    /// The message.
    pub message: Seq<u8>,
}

impl View for Commit {
    type V = CommitView;

    open spec fn view(&self) -> CommitView {
        CommitView {
            tree: self.tree@,
            parents: digest_views(self.parents@),
            author: self.author@,
            committer: self.committer@,
            message: self.message@,
        }
    }
}

/// The keyword of the line that names the tree.
pub open spec fn tree_keyword() -> Seq<u8> {
    ascii("tree "@)
}

/// The keyword of a line that names a parent.
pub open spec fn parent_keyword() -> Seq<u8> {
    ascii("parent "@)
}

/// The keyword of the author's line.
pub open spec fn author_keyword() -> Seq<u8> {
    ascii("author "@)
}

/// The keyword of the committer's line.
pub open spec fn committer_keyword() -> Seq<u8> {
    ascii("committer "@)
}

/// Whether a commit has an encoding: its digests have twenty bytes and
/// its signatures are valid.
pub open spec fn valid_commit(c: CommitView) -> bool {
    &&& c.tree.len() == 20
    &&& forall|i: int| 0 <= i < c.parents.len() ==> (#[trigger] c.parents[i]).len() == 20
    &&& valid_signature(c.author)
    &&& valid_signature(c.committer)
}

/// The parent lines, one for each parent in order.
pub open spec fn encode_parents(parents: Seq<Seq<u8>>) -> Seq<u8>
    decreases parents.len(),
{
    if parents.len() == 0 {
        Seq::empty()
    } else {
        encode_parents(parents.drop_last()) + digest_line(parent_keyword(), parents.last())
    }
}

/// The encoding of a commit: the tree line, the parent lines, the
/// author's and the committer's line, an empty line, and the message.
pub open spec fn encode_commit(c: CommitView) -> Seq<u8> {
    digest_line(tree_keyword(), c.tree) + encode_parents(c.parents) + author_keyword()
        + signature_record(c.author) + committer_keyword() + signature_record(c.committer)
        + seq![10u8] + c.message
}

proof fn lemma_keywords()
    ensures
        is_ascii("tree "),
        is_ascii("parent "),
        is_ascii("author "),
        is_ascii("committer "),
        tree_keyword().len() == 5,
        parent_keyword().len() == 7,
        author_keyword().len() == 7,
        committer_keyword().len() == 10,
        parent_keyword()[0] == 112u8,
        author_keyword()[0] == 97u8,
{
    reveal_strlit("tree ");
    reveal_strlit("parent ");
    reveal_strlit("author ");
    reveal_strlit("committer ");
}

/// Where the parent lines lie in their encoding.
proof fn lemma_parents_layout(parents: Seq<Seq<u8>>, k: int)
    requires
        forall|i: int| 0 <= i < parents.len() ==> (#[trigger] parents[i]).len() == 20,
        0 <= k <= parents.len(),
    ensures
        encode_parents(parents).len() == 48 * parents.len(),
        k < parents.len() ==> matches_at(
            encode_parents(parents),
            48 * k,
            digest_line(parent_keyword(), parents[k]),
        ),
    decreases parents.len(),
{
    lemma_keywords();
    if parents.len() > 0 {
        let front = parents.drop_last();
        let line = digest_line(parent_keyword(), parents.last());
        lemma_digest_line_parts(Seq::empty(), 0, parent_keyword(), parents.last());
        assert(parents.last().len() == 20);
        if k < front.len() {
            lemma_parents_layout(front, k);
            assert(front[k] == parents[k]);
            lemma_matches_inside(
                Seq::empty(),
                encode_parents(front),
                line,
                48 * k,
                digest_line(parent_keyword(), parents[k]),
            );
            assert(Seq::<u8>::empty() + encode_parents(front) + line =~= encode_parents(parents));
        } else {
            lemma_parents_layout(front, front.len() as int);
            if k == front.len() {
                assert(line.subrange(0, line.len() as int) =~= line);
                lemma_matches_inside(encode_parents(front), line, Seq::empty(), 0, line);
                assert(encode_parents(front) + line + Seq::<u8>::empty() =~= encode_parents(
                    parents,
                ));
            }
        }
    }
}

/// Where the parts of a commit lie in its encoding: the tree line first,
/// the `k`-th parent line after it and `k` parent lines, and after the
/// last of them the author, the committer, the empty line and the message.
proof fn lemma_commit_layout(c: CommitView, k: int)
    requires
        valid_commit(c),
        0 <= k <= c.parents.len(),
    ensures
        ({
            let e = encode_commit(c);
            let at = 46 + 48 * k;
            let ra = signature_record(c.author).len() as int;
            let rc = signature_record(c.committer).len() as int;
            &&& matches_at(e, 0, digest_line(tree_keyword(), c.tree))
            &&& k < c.parents.len() ==> matches_at(
                e,
                at,
                digest_line(parent_keyword(), c.parents[k]),
            )
            &&& k == c.parents.len() ==> {
                &&& matches_at(e, at, author_keyword())
                &&& matches_at(e, at + 7, signature_record(c.author))
                &&& matches_at(e, at + 7 + ra, committer_keyword())
                &&& matches_at(e, at + 17 + ra, signature_record(c.committer))
                &&& e.len() == at + 18 + ra + rc + c.message.len()
                &&& e[at + 17 + ra + rc] == 10u8
                &&& e.subrange(at + 18 + ra + rc, e.len() as int) == c.message
            }
        }),
{
    lemma_keywords();
    let e = encode_commit(c);
    let head = digest_line(tree_keyword(), c.tree);
    let lines = encode_parents(c.parents);
    let a = signature_record(c.author);
    let m = signature_record(c.committer);
    let nl = seq![10u8];
    lemma_digest_line_parts(Seq::empty(), 0, tree_keyword(), c.tree);
    lemma_parents_layout(c.parents, k);
    let tail = author_keyword() + a + committer_keyword() + m + nl + c.message;
    assert(e =~= head + lines + tail);
    assert(head.subrange(0, head.len() as int) =~= head);
    lemma_matches_inside(Seq::empty(), head, lines + tail, 0, head);
    assert(Seq::<u8>::empty() + head + (lines + tail) =~= e);
    if k < c.parents.len() {
        lemma_matches_inside(
            head,
            lines,
            tail,
            48 * k,
            digest_line(parent_keyword(), c.parents[k]),
        );
    } else {
        let at = 46 + 48 * k;
        let pre = head + lines;
        let ak = author_keyword();
        let ck = committer_keyword();
        assert(ak.subrange(0, 7) =~= ak);
        lemma_matches_inside(pre, ak, a + ck + m + nl + c.message, 0, ak);
        assert(pre + ak + (a + ck + m + nl + c.message) =~= e);
        assert(a.subrange(0, a.len() as int) =~= a);
        lemma_matches_inside(pre + ak, a, ck + m + nl + c.message, 0, a);
        assert(pre + ak + a + (ck + m + nl + c.message) =~= e);
        assert(ck.subrange(0, 10) =~= ck);
        lemma_matches_inside(pre + ak + a, ck, m + nl + c.message, 0, ck);
        assert(pre + ak + a + ck + (m + nl + c.message) =~= e);
        assert(m.subrange(0, m.len() as int) =~= m);
        lemma_matches_inside(pre + ak + a + ck, m, nl + c.message, 0, m);
        assert(pre + ak + a + ck + m + (nl + c.message) =~= e);
        assert(e.subrange(at + 18 + a.len() + m.len(), e.len() as int) =~= c.message);
    }
}

/// Commits with the same encoding agree on their first `k` parents.
proof fn lemma_parents_agree(a: CommitView, b: CommitView, k: int)
    requires
        valid_commit(a),
        valid_commit(b),
        encode_commit(a) == encode_commit(b),
        0 <= k <= a.parents.len(),
    ensures
        k <= b.parents.len(),
        a.parents.take(k) == b.parents.take(k),
    decreases k,
{
    if k == 0 {
        assert(a.parents.take(0) =~= b.parents.take(0));
    } else {
        lemma_parents_agree(a, b, k - 1);
        lemma_keywords();
        lemma_commit_layout(a, k - 1);
        lemma_commit_layout(b, k - 1);
        let e = encode_commit(a);
        let at = 46 + 48 * (k - 1);
        lemma_digest_line_parts(e, at, parent_keyword(), a.parents[k - 1]);
        if b.parents.len() == k - 1 {
            assert(e.subrange(at, at + 7)[0] == parent_keyword()[0]);
            assert(e.subrange(at, at + 7)[0] == author_keyword()[0]);
        }
        lemma_digest_line_unique(e, at, parent_keyword(), a.parents[k - 1], b.parents[k - 1]);
        assert(a.parents.take(k) =~= a.parents.take(k - 1).push(a.parents[k - 1]));
        assert(b.parents.take(k) =~= b.parents.take(k - 1).push(b.parents[k - 1]));
    }
}

/// Commits with the same encoding are the same commit.
pub proof fn lemma_commit_injective(a: CommitView, b: CommitView)
    requires
        valid_commit(a),
        valid_commit(b),
        encode_commit(a) == encode_commit(b),
    ensures
        a == b,
{
    let e = encode_commit(a);
    let n = a.parents.len() as int;
    lemma_parents_agree(a, b, n);
    lemma_parents_agree(b, a, b.parents.len() as int);
    assert(a.parents.take(n) =~= a.parents);
    assert(b.parents.take(n) =~= b.parents);
    lemma_commit_layout(a, n);
    lemma_commit_layout(b, n);
    lemma_digest_line_unique(e, 0, tree_keyword(), a.tree, b.tree);
    let at = 46 + 48 * n;
    lemma_signature_unique(e, at + 7, a.author, b.author);
    let ra = signature_record(a.author).len() as int;
    lemma_signature_unique(e, at + 17 + ra, a.committer, b.committer);
}

impl Commit {
    /// Decodes a commit's payload. Succeeds exactly on the encodings of
    /// valid commits; everything else (a missing or misplaced header line,
    /// a digest that is not forty hexadecimal digits, a signature that is
    /// not well formed, no empty line before the message) is
    /// `MalformedObject`.
    pub fn parse(payload: &[u8]) -> (r: Result<Commit, Error>)
        ensures
            match r {
                Ok(c) => valid_commit(c@) && encode_commit(c@) == payload@,
                Err(e) => {
                    &&& e == Error::MalformedObject
                    &&& forall|v: CommitView|
                        valid_commit(v) ==> #[trigger] encode_commit(v) != payload@
                },
            },
    {
        proof {
            lemma_keywords();
        }
        let total: usize = payload.len();
        let first = read_digest_line(payload, 0, ascii_bytes("tree "));
        proof {
            assert forall|v: CommitView|
                valid_commit(v) && #[trigger] encode_commit(v) == payload@ implies matches_at(
                payload@,
                0,
                digest_line(tree_keyword(), v.tree),
            ) by {
                lemma_commit_layout(v, 0);
            }
        }
        let (tree, start) = match first {
            Some(found) => found,
            None => {
                return Err(Error::MalformedObject);
            },
        };
        proof {
            assert forall|v: CommitView|
                valid_commit(v) && #[trigger] encode_commit(v) == payload@ implies v.tree
                == tree@ by {
                lemma_digest_line_unique(payload@, 0, tree_keyword(), v.tree, tree@);
            }
            lemma_take_extend(payload@, 0, digest_line(tree_keyword(), tree@));
            assert(payload@.take(0) =~= Seq::<u8>::empty());
        }
        let parent_kw = ascii_bytes("parent ");
        let mut parents: Vec<Digest> = Vec::new();
        let mut pos: usize = start;
        assert(payload@.take(pos as int) =~= digest_line(tree_keyword(), tree@) + encode_parents(
            digest_views(parents@),
        ));
        assert(forall|v: CommitView| (#[trigger] v.parents.take(0)) =~= digest_views(parents@));
        while starts_with_at(payload, pos, parent_kw)
            invariant
                pos <= total,
                total == payload.len(),
                parent_kw@ == parent_keyword(),
                pos == 46 + 48 * parents@.len(),
                payload@.take(pos as int) == digest_line(tree_keyword(), tree@) + encode_parents(
                    digest_views(parents@),
                ),
                forall|v: CommitView|
                    valid_commit(v) && #[trigger] encode_commit(v) == payload@ ==> {
                        &&& v.tree == tree@
                        &&& parents@.len() <= v.parents.len()
                        &&& v.parents.take(parents@.len() as int) == digest_views(parents@)
                    },
            decreases total - pos,
        {
            let ghost k = parents@.len() as int;
            let ghost seen = digest_views(parents@);
            let step = read_digest_line(payload, pos, parent_kw);
            proof {
                lemma_keywords();
                assert forall|v: CommitView|
                    valid_commit(v) && #[trigger] encode_commit(v) == payload@ implies {
                    &&& k < v.parents.len()
                    &&& matches_at(
                        payload@,
                        pos as int,
                        digest_line(parent_keyword(), v.parents[k]),
                    )
                } by {
                    lemma_commit_layout(v, k);
                    if k == v.parents.len() {
                        assert(payload@.subrange(pos as int, pos + 7)[0] == parent_keyword()[0]);
                        assert(payload@.subrange(pos as int, pos + 7)[0] == author_keyword()[0]);
                    }
                }
            }
            let (digest, next) = match step {
                Some(found) => found,
                None => {
                    return Err(Error::MalformedObject);
                },
            };
            proof {
                let line = digest_line(parent_keyword(), digest@);
                lemma_digest_line_parts(payload@, pos as int, parent_keyword(), digest@);
                lemma_take_extend(payload@, pos as int, line);
                let after = seen.push(digest@);
                assert(digest_views(parents@.push(digest)) =~= after);
                assert(after.drop_last() =~= seen);
                assert(payload@.take(next as int) =~= digest_line(tree_keyword(), tree@)
                    + encode_parents(after));
                assert forall|v: CommitView|
                    valid_commit(v) && #[trigger] encode_commit(v) == payload@ implies v.parents.take(
                    k + 1,
                ) == after by {
                    lemma_digest_line_unique(
                        payload@,
                        pos as int,
                        parent_keyword(),
                        v.parents[k],
                        digest@,
                    );
                    assert(v.parents.take(k + 1) =~= v.parents.take(k).push(v.parents[k]));
                }
            }
            parents.push(digest);
            pos = next;
        }
        let ghost k = parents@.len() as int;
        let ghost seen = digest_views(parents@);
        proof {
            lemma_keywords();
            assert forall|v: CommitView|
                valid_commit(v) && #[trigger] encode_commit(v) == payload@ implies {
                &&& v.parents == seen
                &&& matches_at(payload@, pos as int, author_keyword())
                &&& matches_at(payload@, pos + 7, signature_record(v.author))
            } by {
                lemma_commit_layout(v, k);
                if k < v.parents.len() {
                    lemma_digest_line_parts(
                        payload@,
                        pos as int,
                        parent_keyword(),
                        v.parents[k],
                    );
                }
                assert(v.parents.take(k) =~= v.parents);
            }
        }
        if !starts_with_at(payload, pos, ascii_bytes("author ")) {
            return Err(Error::MalformedObject);
        }
        let (author, author_end) = match Signature::read_record(payload, pos + 7) {
            Some(found) => found,
            None => {
                return Err(Error::MalformedObject);
            },
        };
        proof {
            assert forall|v: CommitView|
                valid_commit(v) && #[trigger] encode_commit(v) == payload@ implies {
                &&& v.author == author@
                &&& matches_at(payload@, author_end as int, committer_keyword())
                &&& matches_at(payload@, author_end + 10, signature_record(v.committer))
            } by {
                lemma_commit_layout(v, k);
                lemma_signature_unique(payload@, pos + 7, v.author, author@);
            }
        }
        if !starts_with_at(payload, author_end, ascii_bytes("committer ")) {
            return Err(Error::MalformedObject);
        }
        let (committer, committer_end) = match Signature::read_record(payload, author_end + 10) {
            Some(found) => found,
            None => {
                return Err(Error::MalformedObject);
            },
        };
        proof {
            assert forall|v: CommitView|
                valid_commit(v) && #[trigger] encode_commit(v) == payload@ implies {
                &&& v.committer == committer@
                &&& committer_end < total
                &&& payload@[committer_end as int] == 10u8
            } by {
                lemma_commit_layout(v, k);
                lemma_signature_unique(payload@, author_end + 10, v.committer, committer@);
            }
        }
        if committer_end >= total || payload[committer_end] != 10u8 {
            return Err(Error::MalformedObject);
        }
        let message = copy_range(payload, committer_end + 1, total);
        let commit = Commit { tree, parents, author, committer, message };
        proof {
            lemma_take_extend(payload@, pos as int, author_keyword());
            lemma_take_extend(payload@, pos + 7, signature_record(author@));
            lemma_take_extend(payload@, author_end as int, committer_keyword());
            lemma_take_extend(payload@, author_end + 10, signature_record(committer@));
            assert(payload@ =~= payload@.take(committer_end as int) + seq![10u8] + message@);
            assert(encode_commit(commit@) =~= payload@);
        }
        Ok(commit)
    }
}

impl GitObject for Commit {
    open spec fn well_formed(&self) -> bool {
        valid_commit(self@)
    }

    open spec fn kind(&self) -> ObjectType {
        ObjectType::Commit
    }

    open spec fn payload(&self) -> Seq<u8> {
        encode_commit(self@)
    }

    fn object_type(&self) -> ObjectType {
        ObjectType::Commit
    }

    fn serialize(&self) -> (r: Result<Vec<u8>, Error>) {
        proof {
            lemma_keywords();
        }
        if !self.author.is_valid() || !self.committer.is_valid() {
            return Err(Error::MalformedObject);
        }
        let mut out: Vec<u8> = Vec::new();
        push_digest_line(&mut out, ascii_bytes("tree "), &self.tree);
        let parent_kw = ascii_bytes("parent ");
        let ghost head = out@;
        let ghost all = digest_views(self.parents@);
        let mut i: usize = 0;
        assert(all.take(0) =~= Seq::<Seq<u8>>::empty());
        assert(out@ =~= head + encode_parents(all.take(0)));
        while i < self.parents.len()
            invariant
                i <= self.parents.len(),
                parent_kw@ == parent_keyword(),
                all == digest_views(self.parents@),
                out@ == head + encode_parents(all.take(i as int)),
            decreases self.parents.len() - i,
        {
            push_digest_line(&mut out, parent_kw, &self.parents[i]);
            proof {
                let next = all.take(i + 1);
                assert(next.drop_last() =~= all.take(i as int));
                assert(next.last() == self.parents@[i as int]@);
                assert(out@ =~= head + encode_parents(next));
            }
            i = i + 1;
        }
        assert(all.take(i as int) =~= all);
        out.extend_from_slice(ascii_bytes("author "));
        self.author.push_record(&mut out);
        out.extend_from_slice(ascii_bytes("committer "));
        self.committer.push_record(&mut out);
        out.push(10u8);
        out.extend_from_slice(self.message.as_slice());
        assert(out@ =~= encode_commit(self@));
        Ok(out)
    }
}

} // verus!
