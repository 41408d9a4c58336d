//! Trees: directory listings, encoded with their entries in the order of
//! their names.

use vstd::prelude::*;
use crate::bytes::{
    copy_range, equal, find_byte, first_at, lemma_field_end, lemma_first_unique,
    lemma_lex_irreflexive, lemma_lex_total, lemma_lex_transitive, lemma_matches_concat,
    less_than, lex_less, matches_at,
};
use crate::digest::Digest;
use crate::error::Error;
use crate::numeral::{
    decode_numeral, lemma_numeral_canonical, lemma_numeral_injective, lemma_numeral_of_value,
    numeral, parse_numeral, push_numeral, Radix,
};
use crate::objects::object::{GitObject, ObjectType};

verus! {

/// One entry of a tree: a name in the directory, the mode bits of what it
/// names, and the digest of the blob or tree that holds it.
#[derive(Debug, Clone, PartialEq, Eq)]
pub struct TreeEntry {
    /// File type and permission bits.
    pub mode: u32,
    /// The path component.
    pub name: Vec<u8>,
    /// The digest of the object named.
    pub digest: Digest,
}

/// A tree entry as a mathematical value.
pub struct EntryView {
    /// File type and permission bits.
    pub mode: u32,
    /// The path component.
    pub name: Seq<u8>,
    /// The twenty bytes of the digest.
    pub digest: Seq<u8>,
}

impl View for TreeEntry {
    type V = EntryView;

    open spec fn view(&self) -> EntryView {
        EntryView { mode: self.mode, name: self.name@, digest: self.digest@ }
    }
}

/// The views of a run of entries.
pub open spec fn entry_views(entries: Seq<TreeEntry>) -> Seq<EntryView> {
    Seq::new(entries.len(), |i: int| entries[i]@)
}

/// Whether `name` can name an entry: it is not empty and holds neither a
/// zero byte nor a `/`.
pub open spec fn valid_name(name: Seq<u8>) -> bool {
    &&& name.len() > 0
    &&& forall|i: int| 0 <= i < name.len() ==> name[i] != 0u8 && name[i] != 47u8
}

/// Whether an entry can stand in a tree.
pub open spec fn valid_entry(e: EntryView) -> bool {
    valid_name(e.name) && e.digest.len() == 20
}

/// Whether the names of `es` strictly increase.
pub open spec fn sorted_by_name(es: Seq<EntryView>) -> bool {
    forall|i: int, j: int| 0 <= i < j < es.len() ==> lex_less(es[i].name, es[j].name)
}

/// Whether `es` is the entry list of a tree: valid entries in the order of
/// their names, no name twice.
pub open spec fn valid_entries(es: Seq<EntryView>) -> bool {
    &&& forall|i: int| 0 <= i < es.len() ==> valid_entry(#[trigger] es[i])
    &&& sorted_by_name(es)
}

/// Whether `es` holds an entry named `name`.
pub open spec fn has_name(es: Seq<EntryView>, name: Seq<u8>) -> bool {
    exists|i: int| 0 <= i < es.len() && (#[trigger] es[i]).name == name
}

/// The encoding of one entry: the mode in octal, a space, the name, a zero
/// byte, and the twenty raw bytes of the digest.
pub open spec fn encode_entry(e: EntryView) -> Seq<u8> {
    numeral(e.mode as nat, Radix::Octal) + seq![32u8] + e.name + seq![0u8] + e.digest
}

/// The encoding of a run of entries: one after the other.
pub open spec fn encode_entries(es: Seq<EntryView>) -> Seq<u8>
    decreases es.len(),
{
    if es.len() == 0 {
        Seq::empty()
    } else {
        encode_entries(es.drop_last()) + encode_entry(es.last())
    }
}

/// Where the parts of an entry lie when its encoding stands at `pos`.
proof fn lemma_entry_layout(input: Seq<u8>, pos: int, e: EntryView)
    requires
        valid_entry(e),
        matches_at(input, pos, encode_entry(e)),
    ensures
        ({
            let m = numeral(e.mode as nat, Radix::Octal);
            let space = pos + m.len();
            let nul = space + 1 + e.name.len();
            &&& first_at(input, pos, 32u8, space)
            &&& first_at(input, space + 1, 0u8, nul)
            &&& input.subrange(pos, space) == m
            &&& input.subrange(space + 1, nul) == e.name
            &&& nul + 21 <= input.len()
            &&& input.subrange(nul + 1, nul + 21) == e.digest
            &&& encode_entry(e).len() == m.len() + e.name.len() + 22
        }),
{
    let m = numeral(e.mode as nat, Radix::Octal);
    lemma_numeral_canonical(e.mode as nat, Radix::Octal);
    let head = m.push(32u8);
    let tail = e.name.push(0u8) + e.digest;
    assert(encode_entry(e) =~= head + tail);
    lemma_matches_concat(input, pos, head, tail);
    assert forall|j: int| 0 <= j < m.len() implies m[j] != 32u8 by {
        assert(Radix::Octal.is_digit(m[j]));
    }
    lemma_field_end(input, pos, m, 32u8);
    lemma_matches_concat(input, pos + head.len(), e.name.push(0u8), e.digest);
    lemma_field_end(input, pos + head.len(), e.name, 0u8);
}

/// At most one valid entry has its encoding at a given place: the
/// encoding of an entry is never the start of another's.
pub proof fn lemma_entry_unique(input: Seq<u8>, pos: int, a: EntryView, b: EntryView)
    requires
        valid_entry(a),
        valid_entry(b),
        matches_at(input, pos, encode_entry(a)),
        matches_at(input, pos, encode_entry(b)),
    ensures
        a == b,
{
    lemma_entry_layout(input, pos, a);
    lemma_entry_layout(input, pos, b);
    let ma = numeral(a.mode as nat, Radix::Octal);
    let mb = numeral(b.mode as nat, Radix::Octal);
    lemma_first_unique(input, pos, 32u8, pos + ma.len(), pos + mb.len());
    lemma_numeral_injective(a.mode as nat, b.mode as nat, Radix::Octal);
    lemma_first_unique(
        input,
        pos + ma.len() + 1,
        0u8,
        pos + ma.len() + 1 + a.name.len(),
        pos + ma.len() + 1 + b.name.len(),
    );
}

/// Bytes that read as a mode, a space, a valid name, a zero byte and
/// twenty more bytes are the encoding of that entry.
proof fn lemma_entry_built(input: Seq<u8>, pos: int, space: int, nul: int, e: EntryView)
    requires
        0 <= pos <= space < nul,
        nul + 21 <= input.len(),
        input[space] == 32u8,
        input[nul] == 0u8,
        decode_numeral(input.subrange(pos, space), Radix::Octal) == Some(e.mode as u64),
        e.name == input.subrange(space + 1, nul),
        e.digest == input.subrange(nul + 1, nul + 21),
    ensures
        matches_at(input, pos, encode_entry(e)),
        encode_entry(e).len() == nul + 21 - pos,
{
    let digits = input.subrange(pos, space);
    lemma_numeral_of_value(digits, Radix::Octal);
    assert(numeral(e.mode as nat, Radix::Octal) == digits);
    let enc = encode_entry(e);
    assert(enc.len() == nul + 21 - pos);
    let window = input.subrange(pos, pos + enc.len());
    assert forall|j: int| 0 <= j < enc.len() implies window[j] == enc[j] by {
        if j < space - pos {
            assert(digits[j] == input[pos + j]);
        } else if space - pos < j < nul - pos {
            assert(e.name[j - (space - pos) - 1] == input[pos + j]);
        } else if j > nul - pos {
            assert(e.digest[j - (nul - pos) - 1] == input[pos + j]);
        }
    }
    assert(window =~= enc);
}

/// The encoding of the first `k` entries is the start of the encoding of
/// all of them, and the next entry's encoding follows it.
proof fn lemma_entries_prefix(es: Seq<EntryView>, k: int)
    requires
        0 <= k <= es.len(),
    ensures
        encode_entries(es.take(k)).len() <= encode_entries(es).len(),
        encode_entries(es).take(encode_entries(es.take(k)).len() as int) == encode_entries(
            es.take(k),
        ),
        k < es.len() ==> matches_at(
            encode_entries(es),
            encode_entries(es.take(k)).len() as int,
            encode_entry(es[k]),
        ),
    decreases es.len() - k,
{
    let whole = encode_entries(es);
    let head = encode_entries(es.take(k));
    if k == es.len() {
        assert(es.take(k) =~= es);
        assert(whole.take(whole.len() as int) =~= whole);
    } else {
        lemma_entries_prefix(es, k + 1);
        let next = encode_entries(es.take(k + 1));
        assert(es.take(k + 1).drop_last() =~= es.take(k));
        assert(es.take(k + 1).last() == es[k]);
        assert(next == head + encode_entry(es[k]));
        assert(whole.take(head.len() as int) =~= head) by {
            assert(whole.take(next.len() as int) == next);
            assert forall|j: int| 0 <= j < head.len() implies whole[j] == head[j] by {
                assert(whole.take(next.len() as int)[j] == next[j]);
            }
        }
        assert(whole.subrange(head.len() as int, next.len() as int) =~= encode_entry(es[k])) by {
            assert forall|j: int| 0 <= j < encode_entry(es[k]).len() implies whole[head.len()
                + j] == encode_entry(es[k])[j] by {
                assert(whole.take(next.len() as int)[head.len() + j] == next[head.len() + j]);
            }
        }
    }
}

/// Entry lists with the same encoding agree on their first `k` entries.
proof fn lemma_entries_agree(a: Seq<EntryView>, b: Seq<EntryView>, k: int)
    requires
        forall|i: int| 0 <= i < a.len() ==> valid_entry(#[trigger] a[i]),
        forall|i: int| 0 <= i < b.len() ==> valid_entry(#[trigger] b[i]),
        encode_entries(a) == encode_entries(b),
        0 <= k <= a.len(),
    ensures
        k <= b.len(),
        a.take(k) == b.take(k),
    decreases k,
{
    if k == 0 {
        assert(a.take(0) =~= b.take(0));
    } else {
        lemma_entries_agree(a, b, k - 1);
        lemma_entries_prefix(a, k - 1);
        lemma_entries_prefix(b, k - 1);
        lemma_numeral_canonical(a[k - 1].mode as nat, Radix::Octal);
        if b.len() == k - 1 {
            assert(b.take(k - 1) =~= b);
        }
        lemma_entry_unique(
            encode_entries(a),
            encode_entries(a.take(k - 1)).len() as int,
            a[k - 1],
            b[k - 1],
        );
        assert(a.take(k) =~= a.take(k - 1).push(a[k - 1]));
        assert(b.take(k) =~= b.take(k - 1).push(b[k - 1]));
    }
}

/// Entry lists with the same encoding are the same list: no two trees
/// share an encoding.
pub proof fn lemma_entries_injective(a: Seq<EntryView>, b: Seq<EntryView>)
    requires
        forall|i: int| 0 <= i < a.len() ==> valid_entry(#[trigger] a[i]),
        forall|i: int| 0 <= i < b.len() ==> valid_entry(#[trigger] b[i]),
        encode_entries(a) == encode_entries(b),
    ensures
        a == b,
{
    lemma_entries_agree(a, b, a.len() as int);
    lemma_entries_agree(b, a, b.len() as int);
    assert(a.take(a.len() as int) =~= a);
    assert(b.take(b.len() as int) =~= b);
}

/// A list of valid entries with strictly increasing names is determined
/// by the entries it holds: two trees that hold the same entries, in
/// whatever order they were put in, have the same entry list and so the
/// same encoding and the same digest.
pub proof fn lemma_entries_canonical(a: Seq<EntryView>, b: Seq<EntryView>)
    requires
        sorted_by_name(a),
        sorted_by_name(b),
        forall|e: EntryView| a.contains(e) <==> b.contains(e),
    ensures
        a == b,
        encode_entries(a) == encode_entries(b),
    decreases a.len(),
{
    if a.len() == 0 {
        if b.len() > 0 {
            assert(b.contains(b[0]));
        }
        assert(a =~= b);
    } else {
        let x = a.last();
        assert(a.contains(x));
        let j = choose|j: int| 0 <= j < b.len() && b[j] == x;
        let y = b.last();
        assert(b.contains(y));
        let i = choose|i: int| 0 <= i < a.len() && a[i] == y;
        lemma_lex_irreflexive(x.name);
        if j < b.len() - 1 {
            if i < a.len() - 1 {
                lemma_lex_transitive(x.name, y.name, x.name);
            }
        }
        assert(x == y);
        let a1 = a.drop_last();
        let b1 = b.drop_last();
        assert forall|e: EntryView| a1.contains(e) <==> b1.contains(e) by {
            lemma_lex_irreflexive(e.name);
            if a1.contains(e) {
                let k = choose|k: int| 0 <= k < a1.len() && a1[k] == e;
                assert(a[k] == e);
                assert(a.contains(e));
                let m = choose|m: int| 0 <= m < b.len() && b[m] == e;
                assert(lex_less(a[k].name, a[a.len() - 1].name));
                assert(b1[m] == e);
            }
            if b1.contains(e) {
                let k = choose|k: int| 0 <= k < b1.len() && b1[k] == e;
                assert(b[k] == e);
                assert(b.contains(e));
                let m = choose|m: int| 0 <= m < a.len() && a[m] == e;
                assert(lex_less(b[k].name, b[b.len() - 1].name));
                assert(a1[m] == e);
            }
        }
        assert(sorted_by_name(a1)) by {
            assert forall|p: int, q: int| 0 <= p < q < a1.len() implies lex_less(
                a1[p].name,
                a1[q].name,
            ) by {
                assert(a1[p] == a[p] && a1[q] == a[q]);
            }
        }
        assert(sorted_by_name(b1)) by {
            assert forall|p: int, q: int| 0 <= p < q < b1.len() implies lex_less(
                b1[p].name,
                b1[q].name,
            ) by {
                assert(b1[p] == b[p] && b1[q] == b[q]);
            }
        }
        lemma_entries_canonical(a1, b1);
        assert(a =~= a1.push(x));
        assert(b =~= b1.push(y));
    }
}

fn check_name(name: &[u8]) -> (r: bool)
    ensures
        r == valid_name(name@),
{
    if name.len() == 0 {
        return false;
    }
    let mut i: usize = 0;
    while i < name.len()
        invariant
            i <= name.len(),
            forall|j: int| 0 <= j < i ==> name@[j] != 0u8 && name@[j] != 47u8,
        decreases name.len() - i,
    {
        if name[i] == 0u8 || name[i] == 47u8 {
            return false;
        }
        i = i + 1;
    }
    true
}

fn push_entry(out: &mut Vec<u8>, entry: &TreeEntry)
    ensures
        final(out)@ == old(out)@ + encode_entry(entry@),
{
    push_numeral(out, entry.mode as u64, Radix::Octal);
    out.push(32u8);
    out.extend_from_slice(entry.name.as_slice());
    out.push(0u8);
    out.extend_from_slice(entry.digest.bytes.as_slice());
    assert(out@ =~= old(out)@ + encode_entry(entry@));
}

/// Reads the entry whose encoding stands at `input[pos..]`, and says where
/// it ends.
fn read_entry(input: &[u8], pos: usize) -> (r: Option<(TreeEntry, usize)>)
    requires
        pos <= input.len(),
    ensures
        match r {
            Some((e, next)) => {
                &&& valid_entry(e@)
                &&& matches_at(input@, pos as int, encode_entry(e@))
                &&& next == pos + encode_entry(e@).len()
            },
            None => forall|v: EntryView|
                valid_entry(v) ==> !matches_at(input@, pos as int, #[trigger] encode_entry(v)),
        },
{
    let total: usize = input.len();
    let space = match find_byte(input, pos, 32u8) {
        Some(i) => i,
        None => {
            proof {
                assert forall|v: EntryView| valid_entry(v) implies !matches_at(
                    input@,
                    pos as int,
                    #[trigger] encode_entry(v),
                ) by {
                    if matches_at(input@, pos as int, encode_entry(v)) {
                        lemma_entry_layout(input@, pos as int, v);
                    }
                }
            }
            return None;
        },
    };
    let nul = match find_byte(input, space + 1, 0u8) {
        Some(i) => i,
        None => {
            proof {
                assert forall|v: EntryView| valid_entry(v) implies !matches_at(
                    input@,
                    pos as int,
                    #[trigger] encode_entry(v),
                ) by {
                    if matches_at(input@, pos as int, encode_entry(v)) {
                        lemma_entry_layout(input@, pos as int, v);
                        lemma_first_unique(
                            input@,
                            pos as int,
                            32u8,
                            space as int,
                            pos + numeral(v.mode as nat, Radix::Octal).len(),
                        );
                    }
                }
            }
            return None;
        },
    };
    let mode = parse_numeral(input, pos, space, Radix::Octal);
    let name = copy_range(input, space + 1, nul);
    let name_ok = check_name(name.as_slice());
    proof {
        assert forall|v: EntryView|
            valid_entry(v) && matches_at(input@, pos as int, #[trigger] encode_entry(v)) implies {
            &&& mode == Some(v.mode as u64)
            &&& name_ok
            &&& nul + 21 <= total
        } by {
            lemma_entry_layout(input@, pos as int, v);
            let m = numeral(v.mode as nat, Radix::Octal);
            lemma_first_unique(input@, pos as int, 32u8, space as int, pos + m.len());
            lemma_first_unique(
                input@,
                space as int + 1,
                0u8,
                nul as int,
                space + 1 + v.name.len(),
            );
            lemma_numeral_canonical(v.mode as nat, Radix::Octal);
        }
    }
    let value: u64 = match mode {
        Some(v) => v,
        None => {
            return None;
        },
    };
    if value > u32::MAX as u64 || !name_ok || total - nul < 21 {
        return None;
    }
    let entry = TreeEntry {
        mode: value as u32,
        name,
        digest: Digest::from_bytes(input, nul + 1),
    };
    proof {
        lemma_entry_built(input@, pos as int, space as int, nul as int, entry@);
    }
    Some((entry, nul + 21))
}

/// A directory listing: entries with distinct names, kept in the order of
/// their names, so that the same entries always give the same encoding.
#[derive(Debug, PartialEq, Eq)]
pub struct Tree {
    entries: Vec<TreeEntry>,
}

impl View for Tree {
    type V = Seq<EntryView>;

    closed spec fn view(&self) -> Seq<EntryView> {
        entry_views(self.entries@)
    }
}

impl Tree {
    #[verifier::type_invariant]
    spec fn ordered(&self) -> bool {
        valid_entries(entry_views(self.entries@))
    }

    /// The empty tree.
    pub fn new() -> (tree: Tree)
        ensures
            tree@ == Seq::<EntryView>::empty(),
            tree.well_formed(),
    {
        let tree = Tree { entries: Vec::new() };
        assert(tree@ =~= Seq::<EntryView>::empty());
        tree
    }

    /// The entries, in the order of their names.
    pub fn entries(&self) -> (entries: &Vec<TreeEntry>)
        ensures
            entry_views(entries@) == self@,
            self.well_formed(),
    {
        proof {
            use_type_invariant(self);
        }
        &self.entries
    }

    /// Adds an entry at the place its name gives it. An entry that is not
    /// valid, or whose name the tree already holds, is rejected with
    /// `MalformedObject` and the tree stays as it was.
    pub fn insert(&mut self, entry: TreeEntry) -> (r: Result<(), Error>)
        ensures
            final(self).well_formed(),
            match r {
                Ok(_) => {
                    &&& valid_entry(entry@)
                    &&& !has_name(old(self)@, entry@.name)
                    &&& exists|at: int|
                        0 <= at <= old(self)@.len() && final(self)@ == #[trigger] old(self)@.insert(
                            at,
                            entry@,
                        )
                    &&& forall|e: EntryView|
                        final(self)@.contains(e) <==> old(self)@.contains(e) || e == entry@
                },
                Err(e) => {
                    &&& e == Error::MalformedObject
                    &&& final(self)@ == old(self)@
                    &&& !valid_entry(entry@) || has_name(old(self)@, entry@.name)
                },
            },
    {
        proof {
            use_type_invariant(&*self);
        }
        if !check_name(entry.name.as_slice()) {
            return Err(Error::MalformedObject);
        }
        let ghost es = self@;
        let mut at: usize = 0;
        while at < self.entries.len() && less_than(
            self.entries[at].name.as_slice(),
            entry.name.as_slice(),
        )
            invariant
                at <= self.entries.len(),
                es == entry_views(self.entries@),
                forall|j: int| 0 <= j < at ==> lex_less(es[j].name, entry@.name),
            decreases self.entries.len() - at,
        {
            at = at + 1;
        }
        if at < self.entries.len() && equal(
            self.entries[at].name.as_slice(),
            entry.name.as_slice(),
        ) {
            assert(es[at as int].name == entry@.name);
            return Err(Error::MalformedObject);
        }
        proof {
            assert forall|j: int| at <= j < es.len() implies lex_less(entry@.name, es[j].name) by {
                lemma_lex_total(es[at as int].name, entry@.name);
                if j > at {
                    lemma_lex_transitive(entry@.name, es[at as int].name, es[j].name);
                }
            }
            assert(!has_name(es, entry@.name)) by {
                if has_name(es, entry@.name) {
                    let k = choose|k: int| 0 <= k < es.len() && (#[trigger] es[k]).name
                        == entry@.name;
                    lemma_lex_irreflexive(entry@.name);
                }
            }
            let after = es.insert(at as int, entry@);
            assert(valid_entries(after)) by {
                assert forall|i: int| 0 <= i < after.len() implies valid_entry(
                    #[trigger] after[i],
                ) by {
                    if i < at {
                        assert(after[i] == es[i]);
                    } else if i > at {
                        assert(after[i] == es[i - 1]);
                    }
                }
                assert forall|i: int, j: int| 0 <= i < j < after.len() implies lex_less(
                    after[i].name,
                    after[j].name,
                ) by {
                    let oi = if i < at { i } else { i - 1 };
                    let oj = if j < at { j } else { j - 1 };
                    if i != at && j != at {
                        assert(after[i] == es[oi] && after[j] == es[oj]);
                    } else if i == at {
                        assert(after[j] == es[oj]);
                    } else {
                        assert(after[i] == es[oi]);
                    }
                }
            }
            assert(entry_views(self.entries@.insert(at as int, entry)) =~= after);
            assert forall|e: EntryView| after.contains(e) <==> es.contains(e) || e
                == entry@ by {
                if after.contains(e) {
                    let k = choose|k: int| 0 <= k < after.len() && after[k] == e;
                    if k < at {
                        assert(es[k] == e);
                    } else if k > at {
                        assert(es[k - 1] == e);
                    }
                }
                if es.contains(e) {
                    let k = choose|k: int| 0 <= k < es.len() && es[k] == e;
                    if k < at {
                        assert(after[k] == e);
                    } else {
                        assert(after[k + 1] == e);
                    }
                }
                assert(after[at as int] == entry@);
            }
        }
        let mut entries: Vec<TreeEntry> = Vec::new();
        assert(valid_entries(entry_views(entries@)));
        core::mem::swap(&mut self.entries, &mut entries);
        entries.insert(at, entry);
        self.entries = entries;
        Ok(())
    }

    /// The tree that holds exactly `entries`, in whatever order they come.
    /// Fails with `MalformedObject` where an entry is not valid or two
    /// entries share a name.
    pub fn from_entries(entries: Vec<TreeEntry>) -> (r: Result<Tree, Error>)
        ensures
            match r {
                Ok(tree) => {
                    &&& tree.well_formed()
                    &&& forall|e: EntryView| tree@.contains(e) <==> entry_views(entries@).contains(e)
                    &&& tree@.len() == entries@.len()
                },
                Err(e) => {
                    &&& e == Error::MalformedObject
                    &&& exists|i: int, j: int|
                        0 <= i <= j < entries@.len() && (!valid_entry(
                            #[trigger] entries@[i]@,
                        ) || (i < j && entries@[i]@.name == (#[trigger] entries@[j]@).name))
                },
            },
    {
        let mut tree = Tree::new();
        let mut rest = entries;
        let ghost all = entry_views(entries@);
        assert(entry_views(rest@) =~= all.take(rest@.len() as int));
        while rest.len() > 0
            invariant
                all == entry_views(entries@),
                rest@.len() <= all.len(),
                entry_views(rest@) == all.take(rest@.len() as int),
                tree.well_formed(),
                tree@.len() == all.len() - rest@.len(),
                forall|e: EntryView|
                    tree@.contains(e) <==> all.skip(rest@.len() as int).contains(e),
            decreases rest.len(),
        {
            let ghost n = rest@.len() as int;
            let ghost before = tree@;
            let ghost held = entry_views(rest@);
            let entry = rest.pop().unwrap();
            assert(entry@ == all[n - 1]) by {
                assert(held[n - 1] == all.take(n)[n - 1]);
            }
            assert(entry_views(rest@) =~= all.take(n - 1));
            let ghost tail = all.skip(n);
            let ghost wider = all.skip(n - 1);
            match tree.insert(entry) {
                Ok(_) => {
                    proof {
                        assert forall|e: EntryView| wider.contains(e) <==> tail.contains(e) || e
                            == all[n - 1] by {
                            if wider.contains(e) {
                                let m = choose|m: int| 0 <= m < wider.len() && wider[m] == e;
                                if m > 0 {
                                    assert(tail[m - 1] == e);
                                }
                            }
                            if tail.contains(e) {
                                let m = choose|m: int| 0 <= m < tail.len() && tail[m] == e;
                                assert(wider[m + 1] == e);
                            }
                            assert(wider[0] == all[n - 1]);
                        }
                    }
                },
                Err(e) => {
                    proof {
                        assert(entries@[n - 1]@ == all[n - 1]);
                        if valid_entry(all[n - 1]) {
                            let k = choose|k: int|
                                0 <= k < before.len() && (#[trigger] before[k]).name == all[n
                                    - 1].name;
                            assert(before.contains(before[k]));
                            let m = choose|m: int| 0 <= m < tail.len() && tail[m] == before[k];
                            assert(entries@[n + m]@ == all[n + m]);
                        }
                    }
                    return Err(e);
                },
            }
        }
        proof {
            assert(all.skip(0) =~= all);
        }
        Ok(tree)
    }

    /// Decodes a tree's payload. Succeeds exactly on the encodings of
    /// valid entry lists; everything else (a mode that is not a canonical
    /// octal numeral of 32 bits, a missing separator, an invalid name, a
    /// digest cut short, names out of order or repeated) is
    /// `MalformedObject`.
    pub fn parse(payload: &[u8]) -> (r: Result<Tree, Error>)
        ensures
            match r {
                Ok(tree) => tree.well_formed() && encode_entries(tree@) == payload@,
                Err(e) => {
                    &&& e == Error::MalformedObject
                    &&& forall|es: Seq<EntryView>|
                        valid_entries(es) ==> #[trigger] encode_entries(es) != payload@
                },
            },
    {
        let mut entries: Vec<TreeEntry> = Vec::new();
        let mut pos: usize = 0;
        assert(payload@.take(0) =~= encode_entries(entry_views(entries@)));
        assert(forall|es: Seq<EntryView>| es.take(0) =~= entry_views(entries@));
        while pos < payload.len()
            invariant
                pos <= payload.len(),
                valid_entries(entry_views(entries@)),
                payload@.take(pos as int) == encode_entries(entry_views(entries@)),
                forall|es: Seq<EntryView>|
                    valid_entries(es) && #[trigger] encode_entries(es) == payload@ ==> {
                        &&& entries@.len() <= es.len()
                        &&& es.take(entries@.len() as int) == entry_views(entries@)
                    },
            decreases payload.len() - pos,
        {
            let ghost acc = entry_views(entries@);
            let ghost k = entries@.len() as int;
            let step = read_entry(payload, pos);
            proof {
                assert forall|es: Seq<EntryView>|
                    valid_entries(es) && #[trigger] encode_entries(es) == payload@ implies {
                    &&& k < es.len()
                    &&& valid_entry(es[k])
                    &&& matches_at(payload@, pos as int, encode_entry(es[k]))
                } by {
                    lemma_entries_prefix(es, k);
                    assert(encode_entries(acc).len() == pos) by {
                        assert(payload@.take(pos as int).len() == pos);
                    }
                    if k == es.len() {
                        assert(es.take(k) =~= es);
                    }
                }
            }
            let (entry, next) = match step {
                Some(found) => found,
                None => {
                    return Err(Error::MalformedObject);
                },
            };
            proof {
                assert forall|es: Seq<EntryView>|
                    valid_entries(es) && #[trigger] encode_entries(es) == payload@ implies es[k]
                    == entry@ by {
                    lemma_entry_unique(payload@, pos as int, es[k], entry@);
                }
            }
            if entries.len() > 0 && !less_than(
                entries[entries.len() - 1].name.as_slice(),
                entry.name.as_slice(),
            ) {
                proof {
                    assert forall|es: Seq<EntryView>| valid_entries(es) implies #[trigger] encode_entries(
                        es,
                    ) != payload@ by {
                        if encode_entries(es) == payload@ {
                            assert(es.take(k)[k - 1] == acc[k - 1]);
                            assert(lex_less(es[k - 1].name, es[k].name));
                        }
                    }
                }
                return Err(Error::MalformedObject);
            }
            proof {
                let after = acc.push(entry@);
                assert(entry_views(entries@.push(entry)) =~= after);
                assert(after.drop_last() =~= acc);
                assert(payload@.take(next as int) =~= payload@.take(pos as int)
                    + payload@.subrange(pos as int, next as int));
                assert(valid_entries(after)) by {
                    assert forall|i: int| 0 <= i < after.len() implies valid_entry(
                        #[trigger] after[i],
                    ) by {
                        if i < k {
                            assert(after[i] == acc[i]);
                        }
                    }
                    assert forall|i: int, j: int| 0 <= i < j < after.len() implies lex_less(
                        after[i].name,
                        after[j].name,
                    ) by {
                        if j < k {
                            assert(after[i] == acc[i] && after[j] == acc[j]);
                        } else {
                            assert(after[i] == acc[i]);
                            if i < k - 1 {
                                lemma_lex_transitive(acc[i].name, acc[k - 1].name, entry@.name);
                            }
                        }
                    }
                }
                assert forall|es: Seq<EntryView>|
                    valid_entries(es) && #[trigger] encode_entries(es) == payload@ implies es.take(
                    k + 1,
                ) == after by {
                    assert(es.take(k + 1) =~= es.take(k).push(es[k]));
                }
            }
            entries.push(entry);
            pos = next;
        }
        proof {
            assert(payload@.take(pos as int) =~= payload@);
        }
        Ok(Tree { entries })
    }
}

impl Clone for Tree {
    fn clone(&self) -> (copy: Tree)
        ensures
            copy@ == self@,
    {
        proof {
            use_type_invariant(self);
        }
        let mut entries: Vec<TreeEntry> = Vec::new();
        let mut i: usize = 0;
        while i < self.entries.len()
            invariant
                i <= self.entries.len(),
                entry_views(entries@) == self@.take(i as int),
            decreases self.entries.len() - i,
        {
            let entry = &self.entries[i];
            let copy = TreeEntry {
                mode: entry.mode,
                name: copy_range(entry.name.as_slice(), 0, entry.name.len()),
                digest: entry.digest,
            };
            proof {
                assert(entry.name@.subrange(0, entry.name@.len() as int) =~= entry.name@);
                assert(copy@ == self@[i as int]);
                assert(self@.take(i + 1) =~= self@.take(i as int).push(self@[i as int]));
                assert(entry_views(entries@.push(copy)) =~= entry_views(entries@).push(copy@));
            }
            entries.push(copy);
            i = i + 1;
        }
        assert(self@.take(i as int) =~= self@);
        Tree { entries }
    }
}

impl GitObject for Tree {
    open spec fn well_formed(&self) -> bool {
        valid_entries(self@)
    }

    open spec fn kind(&self) -> ObjectType {
        ObjectType::Tree
    }

    open spec fn payload(&self) -> Seq<u8> {
        encode_entries(self@)
    }

    fn object_type(&self) -> ObjectType {
        ObjectType::Tree
    }

    fn serialize(&self) -> (r: Result<Vec<u8>, Error>) {
        proof {
            use_type_invariant(self);
        }
        let mut out: Vec<u8> = Vec::new();
        let mut i: usize = 0;
        assert(self@.take(0) =~= Seq::<EntryView>::empty());
        while i < self.entries.len()
            invariant
                i <= self.entries.len(),
                out@ == encode_entries(self@.take(i as int)),
            decreases self.entries.len() - i,
        {
            push_entry(&mut out, &self.entries[i]);
            proof {
                let next = self@.take(i + 1);
                assert(next.drop_last() =~= self@.take(i as int));
                assert(next.last() == self.entries@[i as int]@);
            }
            i = i + 1;
        }
        assert(self@.take(i as int) =~= self@);
        Ok(out)
    }
}

} // verus!
