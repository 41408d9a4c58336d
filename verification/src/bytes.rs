//! Small operations on byte strings that the decoders share.

use vstd::prelude::*;
use vstd::slice::slice_subrange;
use vstd::string::*;

verus! {

/// Whether `pattern` stands in `input` at index `pos`.
pub open spec fn matches_at(input: Seq<u8>, pos: int, pattern: Seq<u8>) -> bool {
    &&& 0 <= pos
    &&& pos + pattern.len() <= input.len()
    &&& input.subrange(pos, pos + pattern.len()) == pattern
}

/// Whether `i` is the first index at or after `start` at which `input`
/// holds the byte `b`.
pub open spec fn first_at(input: Seq<u8>, start: int, b: u8, i: int) -> bool {
    &&& start <= i < input.len()
    &&& input[i] == b
    &&& forall|j: int| start <= j < i ==> input[j] != b
}

/// The bytes of a text of ASCII characters.
pub open spec fn ascii(text: Seq<char>) -> Seq<u8> {
    Seq::new(text.len(), |i: int| text[i] as u8)
}

/// The bytes of an ASCII string.
pub fn ascii_bytes(text: &'static str) -> (bytes: &'static [u8])
    requires
        is_ascii(text),
    ensures
        bytes@ == ascii(text@),
{
    proof {
        is_ascii_spec_bytes(text);
    }
    text.as_bytes()
}

/// If `x` stands at `pos`, the input up to the end of `x` is the input up
/// to `pos` followed by `x`.
pub proof fn lemma_take_extend(input: Seq<u8>, pos: int, x: Seq<u8>)
    requires
        matches_at(input, pos, x),
    ensures
        input.take(pos + x.len()) == input.take(pos) + x,
{
    assert forall|j: int| 0 <= j < pos + x.len() implies input.take(pos + x.len())[j] == (
    input.take(pos) + x)[j] by {
        if j >= pos {
            assert(input.subrange(pos, pos + x.len())[j - pos] == x[j - pos]);
        }
    }
    assert(input.take(pos + x.len()) =~= input.take(pos) + x);
}

/// Tests whether `pattern` stands in `input` at index `pos`.
pub fn starts_with_at(input: &[u8], pos: usize, pattern: &[u8]) -> (r: bool)
    requires
        pos <= input.len(),
    ensures
        r == matches_at(input@, pos as int, pattern@),
{
    if pattern.len() > input.len() - pos {
        return false;
    }
    let ghost window = input@.subrange(pos as int, pos + pattern.len());
    let mut i: usize = 0;
    while i < pattern.len()
        invariant
            i <= pattern.len(),
            pos + pattern.len() <= input.len(),
            window == input@.subrange(pos as int, pos + pattern.len()),
            forall|j: int| 0 <= j < i ==> window[j] == pattern[j],
        decreases pattern.len() - i,
    {
        if input[pos + i] != pattern[i] {
            assert(window[i as int] != pattern[i as int]);
            return false;
        }
        i = i + 1;
    }
    assert(window =~= pattern@);
    true
}

/// Finds the first occurrence of `b` in `input` at or after `start`.
pub fn find_byte(input: &[u8], start: usize, b: u8) -> (r: Option<usize>)
    requires
        start <= input.len(),
    ensures
        match r {
            Some(i) => first_at(input@, start as int, b, i as int),
            None => forall|j: int| start <= j < input.len() ==> input[j] != b,
        },
{
    let mut i: usize = start;
    while i < input.len()
        invariant
            start <= i <= input.len(),
            forall|j: int| start <= j < i ==> input[j] != b,
        decreases input.len() - i,
    {
        if input[i] == b {
            return Some(i);
        }
        i = i + 1;
    }
    None
}

/// Copies `input[from..to]` into a vector of its own.
pub fn copy_range(input: &[u8], from: usize, to: usize) -> (out: Vec<u8>)
    requires
        from <= to <= input.len(),
    ensures
        out@ == input@.subrange(from as int, to as int),
{
    let mut out: Vec<u8> = Vec::new();
    out.extend_from_slice(slice_subrange(input, from, to));
    out
}

/// Tests whether two byte strings are equal.
pub fn equal(a: &[u8], b: &[u8]) -> (r: bool)
    ensures
        r == (a@ == b@),
{
    if a.len() != b.len() {
        return false;
    }
    let r = starts_with_at(a, 0, b);
    assert(a@.subrange(0, a@.len() as int) =~= a@);
    r
}

/// If `a + b` stands at `pos`, then `a` stands at `pos` and `b` right
/// after it, and the other way round.
pub proof fn lemma_matches_concat(input: Seq<u8>, pos: int, a: Seq<u8>, b: Seq<u8>)
    ensures
        matches_at(input, pos, a + b) <==> matches_at(input, pos, a) && matches_at(
            input,
            pos + a.len(),
            b,
        ),
{
    let n = a.len() as int;
    let m = b.len() as int;
    if matches_at(input, pos, a + b) {
        assert forall|j: int| 0 <= j < n implies input.subrange(pos, pos + n)[j] == a[j] by {
            assert(input.subrange(pos, pos + n + m)[j] == (a + b)[j]);
        }
        assert(input.subrange(pos, pos + n) =~= a);
        assert forall|j: int| 0 <= j < m implies input.subrange(pos + n, pos + n + m)[j]
            == b[j] by {
            assert(input.subrange(pos, pos + n + m)[n + j] == (a + b)[n + j]);
        }
        assert(input.subrange(pos + n, pos + n + m) =~= b);
    }
    if matches_at(input, pos, a) && matches_at(input, pos + n, b) {
        assert forall|j: int| 0 <= j < n + m implies input.subrange(pos, pos + n + m)[j] == (a
            + b)[j] by {
            if j < n {
                assert(input.subrange(pos, pos + n)[j] == a[j]);
            } else {
                assert(input.subrange(pos + n, pos + n + m)[j - n] == b[j - n]);
            }
        }
        assert(input.subrange(pos, pos + n + m) =~= a + b);
    }
}

/// What stands at `off` in the middle part of a byte string stands in the
/// whole at `off` after the first part.
pub proof fn lemma_matches_inside(
    pre: Seq<u8>,
    mid: Seq<u8>,
    post: Seq<u8>,
    off: int,
    x: Seq<u8>,
)
    requires
        matches_at(mid, off, x),
    ensures
        matches_at(pre + mid + post, pre.len() + off, x),
{
    let whole = pre + mid + post;
    let at = pre.len() + off;
    assert forall|j: int| 0 <= j < x.len() implies whole.subrange(at, at + x.len())[j]
        == x[j] by {
        assert(mid.subrange(off, off + x.len())[j] == x[j]);
    }
    assert(whole.subrange(at, at + x.len()) =~= x);
}

/// A field that holds no `delim` and is followed by one ends at the first
/// `delim`.
pub proof fn lemma_field_end(input: Seq<u8>, pos: int, field: Seq<u8>, delim: u8)
    requires
        matches_at(input, pos, field.push(delim)),
        forall|j: int| 0 <= j < field.len() ==> field[j] != delim,
    ensures
        first_at(input, pos, delim, pos + field.len()),
        input.subrange(pos, pos + field.len()) == field,
{
    let t = field.push(delim);
    let n = field.len() as int;
    assert(input[pos + n] == delim) by {
        assert(input.subrange(pos, pos + n + 1)[n] == t[n]);
    }
    assert forall|j: int| pos <= j < pos + n implies input[j] != delim by {
        assert(input.subrange(pos, pos + n + 1)[j - pos] == t[j - pos]);
    }
    assert forall|j: int| 0 <= j < n implies input.subrange(pos, pos + n)[j] == field[j] by {
        assert(input.subrange(pos, pos + n + 1)[j] == t[j]);
    }
    assert(input.subrange(pos, pos + n) =~= field);
}

/// There is one first occurrence at most.
pub proof fn lemma_first_unique(input: Seq<u8>, start: int, b: u8, i: int, j: int)
    requires
        first_at(input, start, b, i),
        first_at(input, start, b, j),
    ensures
        i == j,
{
}

/// Whether `a` comes before `b` in the order of byte strings, compared
/// from index `i` on: at the first index where they differ the smaller
/// byte decides, and a string comes before its proper extensions.
pub open spec fn lex_less_from(a: Seq<u8>, b: Seq<u8>, i: int) -> bool
    decreases a.len() - i,
{
    if i < 0 || i >= b.len() {
        false
    } else if i >= a.len() {
        true
    } else if a[i] != b[i] {
        a[i] < b[i]
    } else {
        lex_less_from(a, b, i + 1)
    }
}

/// Whether `a` comes strictly before `b` in the lexicographic order of
/// byte strings.
pub open spec fn lex_less(a: Seq<u8>, b: Seq<u8>) -> bool {
    lex_less_from(a, b, 0)
}

proof fn lemma_lex_irreflexive_from(a: Seq<u8>, i: int)
    requires
        0 <= i,
    ensures
        !lex_less_from(a, a, i),
    decreases a.len() - i,
{
    if i < a.len() {
        lemma_lex_irreflexive_from(a, i + 1);
    }
}

proof fn lemma_lex_transitive_from(a: Seq<u8>, b: Seq<u8>, c: Seq<u8>, i: int)
    requires
        0 <= i,
        lex_less_from(a, b, i),
        lex_less_from(b, c, i),
    ensures
        lex_less_from(a, c, i),
    decreases a.len() - i,
{
    if i < a.len() && a[i] == b[i] && b[i] == c[i] {
        lemma_lex_transitive_from(a, b, c, i + 1);
    }
}

proof fn lemma_lex_total_from(a: Seq<u8>, b: Seq<u8>, i: int)
    requires
        0 <= i,
        i <= a.len(),
        i <= b.len(),
        forall|j: int| 0 <= j < i ==> a[j] == b[j],
        !lex_less_from(a, b, i),
        !lex_less_from(b, a, i),
    ensures
        a == b,
    decreases a.len() - i,
{
    if i < a.len() && i < b.len() {
        lemma_lex_total_from(a, b, i + 1);
    } else {
        assert(a =~= b);
    }
}

/// No byte string comes before itself.
pub proof fn lemma_lex_irreflexive(a: Seq<u8>)
    ensures
        !lex_less(a, a),
{
    lemma_lex_irreflexive_from(a, 0);
}

/// The order of byte strings is transitive.
pub proof fn lemma_lex_transitive(a: Seq<u8>, b: Seq<u8>, c: Seq<u8>)
    requires
        lex_less(a, b),
        lex_less(b, c),
    ensures
        lex_less(a, c),
{
    lemma_lex_transitive_from(a, b, c, 0);
}

/// Of two different byte strings one comes before the other.
pub proof fn lemma_lex_total(a: Seq<u8>, b: Seq<u8>)
    ensures
        a == b || lex_less(a, b) || lex_less(b, a),
{
    if !lex_less(a, b) && !lex_less(b, a) {
        lemma_lex_total_from(a, b, 0);
    }
}

/// Tests whether `a` comes strictly before `b` in lexicographic order.
pub fn less_than(a: &[u8], b: &[u8]) -> (r: bool)
    ensures
        r == lex_less(a@, b@),
{
    let mut i: usize = 0;
    while i < a.len() && i < b.len()
        invariant
            i <= a.len(),
            i <= b.len(),
            lex_less(a@, b@) == lex_less_from(a@, b@, i as int),
        decreases a.len() - i,
    {
        if a[i] != b[i] {
            return a[i] < b[i];
        }
        i = i + 1;
    }
    i < b.len()
}

} // verus!
