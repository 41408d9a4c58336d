//! Canonical ASCII numerals: the digits of a natural number in base eight
//! or ten, most significant first, without leading zeros.

use vstd::prelude::*;

verus! {

/// The bases in which the object encodings write numbers.
#[derive(Clone, Copy, Debug, PartialEq, Eq)]
pub enum Radix {
    /// Base eight: entry modes.
    Octal,
    /// Base ten: payload lengths and timestamps.
    Decimal,
}

impl Radix {
    /// The base as a number.
    pub open spec fn base(self) -> nat {
        match self {
            Radix::Octal => 8,
            Radix::Decimal => 10,
        }
    }

    /// `n` divided by the base.
    pub open spec fn quotient(self, n: nat) -> nat {
        match self {
            Radix::Octal => n / 8,
            Radix::Decimal => n / 10,
        }
    }

    /// The last digit of `n`.
    pub open spec fn remainder(self, n: nat) -> nat {
        match self {
            Radix::Octal => n % 8,
            Radix::Decimal => n % 10,
        }
    }

    /// `n` times the base.
    pub open spec fn scale(self, n: nat) -> nat {
        match self {
            Radix::Octal => 8 * n,
            Radix::Decimal => 10 * n,
        }
    }

    /// Whether `b` is the ASCII code of a digit of this base.
    pub open spec fn is_digit(self, b: u8) -> bool {
        48 <= b < 48 + self.base()
    }
}

/// The canonical numeral of `n`: `"0"` for zero, otherwise the digits of
/// `n` with the most significant one, which is not zero, first.
pub open spec fn numeral(n: nat, radix: Radix) -> Seq<u8>
    decreases n,
{
    if n < radix.base() {
        seq![(48 + n) as u8]
    } else {
        numeral(radix.quotient(n), radix).push((48 + radix.remainder(n)) as u8)
    }
}

/// Whether `s` is a canonical numeral: at least one digit, digits only, and
/// no leading zero before another digit.
pub open spec fn is_numeral(s: Seq<u8>, radix: Radix) -> bool {
    &&& s.len() >= 1
    &&& forall|i: int| 0 <= i < s.len() ==> radix.is_digit(#[trigger] s[i])
    &&& (s.len() > 1 ==> s[0] != 48)
}

/// The number that a string of digits denotes.
pub open spec fn numeral_value(s: Seq<u8>, radix: Radix) -> nat
    decreases s.len(),
{
    if s.len() == 0 {
        0
    } else {
        radix.scale(numeral_value(s.drop_last(), radix)) + (s.last() - 48) as nat
    }
}

/// What reading `s` as a numeral yields: its value where `s` is canonical
/// and the value fits in 64 bits.
pub open spec fn decode_numeral(s: Seq<u8>, radix: Radix) -> Option<u64> {
    if is_numeral(s, radix) && numeral_value(s, radix) <= u64::MAX {
        Some(numeral_value(s, radix) as u64)
    } else {
        None
    }
}

/// A numeral is canonical and denotes the number it was made from.
pub proof fn lemma_numeral_canonical(n: nat, radix: Radix)
    ensures
        is_numeral(numeral(n, radix), radix),
        numeral_value(numeral(n, radix), radix) == n,
        n >= 1 ==> numeral(n, radix)[0] != 48,
    decreases n,
{
    let s = numeral(n, radix);
    if n < radix.base() {
        assert(s.drop_last() =~= Seq::<u8>::empty());
        assert(numeral_value(s.drop_last(), radix) == 0);
    } else {
        let q = radix.quotient(n);
        let p = numeral(q, radix);
        lemma_numeral_canonical(q, radix);
        assert(s.drop_last() =~= p);
        assert(s[0] == p[0]);
        assert forall|i: int| 0 <= i < s.len() implies radix.is_digit(#[trigger] s[i]) by {
            if i < p.len() {
                assert(s[i] == p[i]);
            }
        }
    }
}

/// A string of digits that starts with a digit other than zero denotes a
/// positive number.
proof fn lemma_value_positive(s: Seq<u8>, radix: Radix)
    requires
        s.len() >= 1,
        forall|i: int| 0 <= i < s.len() ==> radix.is_digit(#[trigger] s[i]),
        s[0] != 48,
    ensures
        numeral_value(s, radix) >= 1,
    decreases s.len(),
{
    if s.len() == 1 {
        assert(s.drop_last() =~= Seq::<u8>::empty());
        assert(numeral_value(s.drop_last(), radix) == 0);
        assert(radix.is_digit(s[0]));
    } else {
        let p = s.drop_last();
        assert forall|i: int| 0 <= i < p.len() implies radix.is_digit(#[trigger] p[i]) by {
            assert(p[i] == s[i]);
        }
        lemma_value_positive(p, radix);
        assert(radix.is_digit(s[s.len() - 1]));
    }
}

/// A canonical numeral is the numeral of the number it denotes.
pub proof fn lemma_numeral_of_value(s: Seq<u8>, radix: Radix)
    requires
        is_numeral(s, radix),
    ensures
        numeral(numeral_value(s, radix), radix) == s,
    decreases s.len(),
{
    let p = s.drop_last();
    let d = (s.last() - 48) as nat;
    assert(radix.is_digit(s[s.len() - 1]));
    if s.len() == 1 {
        assert(p =~= Seq::<u8>::empty());
        assert(numeral_value(p, radix) == 0);
        assert(numeral(d, radix) =~= s);
    } else {
        assert forall|i: int| 0 <= i < p.len() implies radix.is_digit(#[trigger] p[i]) by {
            assert(p[i] == s[i]);
        }
        assert(p[0] == s[0]);
        lemma_numeral_of_value(p, radix);
        lemma_value_positive(p, radix);
        let v = numeral_value(s, radix);
        assert(radix.quotient(v) == numeral_value(p, radix));
        assert(radix.remainder(v) == d);
        assert(numeral(v, radix) =~= s);
    }
}

/// Two numbers with the same numeral are the same number.
pub proof fn lemma_numeral_injective(a: nat, b: nat, radix: Radix)
    requires
        numeral(a, radix) == numeral(b, radix),
    ensures
        a == b,
{
    lemma_numeral_canonical(a, radix);
    lemma_numeral_canonical(b, radix);
}

/// A prefix of a string of digits denotes no more than the whole.
proof fn lemma_value_prefix(s: Seq<u8>, k: int, radix: Radix)
    requires
        0 <= k <= s.len(),
        forall|i: int| 0 <= i < s.len() ==> radix.is_digit(#[trigger] s[i]),
    ensures
        numeral_value(s.take(k), radix) <= numeral_value(s, radix),
    decreases s.len() - k,
{
    if k == s.len() {
        assert(s.take(k) =~= s);
    } else {
        lemma_value_prefix(s, k + 1, radix);
        let t = s.take(k + 1);
        assert(t.drop_last() =~= s.take(k));
        assert(t.last() == s[k]);
        assert(radix.is_digit(s[k]));
    }
}

/// Appends the canonical numeral of `n` to `out`.
pub fn push_numeral(out: &mut Vec<u8>, n: u64, radix: Radix)
    ensures
        final(out)@ == old(out)@ + numeral(n as nat, radix),
    decreases n,
{
    let (q, d): (u64, u64) = match radix {
        Radix::Octal => (n / 8, n % 8),
        Radix::Decimal => (n / 10, n % 10),
    };
    if q == 0 {
        out.push(48u8 + d as u8);
        assert(final(out)@ =~= old(out)@ + numeral(n as nat, radix));
    } else {
        push_numeral(out, q, radix);
        out.push(48u8 + d as u8);
        assert(out@ =~= old(out)@ + numeral(n as nat, radix));
    }
}

/// Reads `input[from..to]` as a canonical numeral.
pub fn parse_numeral(input: &[u8], from: usize, to: usize, radix: Radix) -> (r: Option<u64>)
    requires
        from <= to <= input.len(),
    ensures
        r == decode_numeral(input@.subrange(from as int, to as int), radix),
{
    let ghost s = input@.subrange(from as int, to as int);
    if from == to {
        return None;
    }
    if input[from] == 48u8 && to - from > 1 {
        assert(s[0] == 48);
        return None;
    }
    let base: u64 = match radix {
        Radix::Octal => 8,
        Radix::Decimal => 10,
    };
    let mut acc: u64 = 0;
    let mut i: usize = from;
    assert(s.take(0) =~= Seq::<u8>::empty());
    while i < to
        invariant
            from <= i <= to <= input.len(),
            s == input@.subrange(from as int, to as int),
            base == radix.base(),
            acc == numeral_value(s.take(i - from), radix),
            forall|j: int| 0 <= j < i - from ==> radix.is_digit(#[trigger] s[j]),
        decreases to - i,
    {
        let c: u8 = input[i];
        assert(s[i - from] == c);
        if c < 48u8 || c as u64 >= 48u64 + base {
            assert(!radix.is_digit(s[i - from]));
            return None;
        }
        let d: u64 = (c - 48u8) as u64;
        let ghost t = s.take(i - from + 1);
        assert(t.drop_last() =~= s.take(i - from));
        assert(t.last() == c);
        if acc > (u64::MAX - d) / base {
            proof {
                assert(numeral_value(t, radix) > u64::MAX);
                if is_numeral(s, radix) {
                    lemma_value_prefix(s, i - from + 1, radix);
                }
            }
            return None;
        }
        acc = match radix {
            Radix::Octal => 8 * acc + d,
            Radix::Decimal => 10 * acc + d,
        };
        i = i + 1;
    }
    assert(s.take(to - from) =~= s);
    Some(acc)
}

} // verus!
