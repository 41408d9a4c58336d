//! Object identities: twenty-byte digests and their hexadecimal text.

use vstd::prelude::*;
use vstd::string::*;
use crate::bytes::matches_at;

verus! {

/// The identity of an object: the twenty bytes of a SHA-1 digest.
#[derive(Clone, Copy, Debug, PartialEq, Eq)]
pub struct Digest {
    /// The raw digest.
    pub bytes: [u8; 20],
}

impl View for Digest {
    type V = Seq<u8>;

    open spec fn view(&self) -> Seq<u8> {
        self.bytes@
    }
}

/// The lowercase hexadecimal digit of a value below sixteen, in ASCII.
pub open spec fn hex_digit(n: nat) -> u8 {
    if n < 10 {
        (48 + n) as u8
    } else {
        (87 + n) as u8
    }
}

/// Whether `b` is a lowercase hexadecimal digit in ASCII.
pub open spec fn is_hex_digit(b: u8) -> bool {
    48 <= b <= 57 || 97 <= b <= 102
}

/// The value of a lowercase hexadecimal digit.
pub open spec fn hex_value(b: u8) -> nat {
    if b <= 57 {
        (b - 48) as nat
    } else {
        (b - 87) as nat
    }
}

/// The lowercase hexadecimal encoding of `bytes`: two ASCII digits for each
/// byte, the high half first.
pub open spec fn hex_of(bytes: Seq<u8>) -> Seq<u8> {
    Seq::new(
        2 * bytes.len(),
        |i: int|
            if i % 2 == 0 {
                hex_digit((bytes[i / 2] / 16) as nat)
            } else {
                hex_digit((bytes[i / 2] % 16) as nat)
            },
    )
}

/// The hexadecimal encoding of `bytes` as text.
pub open spec fn hex_text(bytes: Seq<u8>) -> Seq<char> {
    Seq::new(2 * bytes.len(), |i: int| hex_of(bytes)[i] as char)
}

/// Whether `s` is an even number of lowercase hexadecimal digits.
pub open spec fn is_hex(s: Seq<u8>) -> bool {
    &&& s.len() % 2 == 0
    &&& forall|i: int| 0 <= i < s.len() ==> is_hex_digit(#[trigger] s[i])
}

/// The bytes that a hexadecimal string encodes.
pub open spec fn unhex(s: Seq<u8>) -> Seq<u8> {
    Seq::new(
        s.len() / 2,
        |i: int| (16 * hex_value(s[2 * i]) + hex_value(s[2 * i + 1])) as u8,
    )
}

/// Whether `s` is the text of a digest: forty lowercase hexadecimal digits.
pub open spec fn is_digest_text(s: Seq<char>) -> bool {
    &&& s.len() == 40
    &&& forall|i: int|
        0 <= i < s.len() ==> ('0' <= #[trigger] s[i] <= '9' || 'a' <= s[i] <= 'f')
}

/// Decoding the hexadecimal encoding of a byte string gives it back.
pub proof fn lemma_unhex_hex(bytes: Seq<u8>)
    ensures
        is_hex(hex_of(bytes)),
        unhex(hex_of(bytes)) == bytes,
{
    let h = hex_of(bytes);
    assert forall|i: int| 0 <= i < h.len() implies is_hex_digit(#[trigger] h[i]) by {
        let b = bytes[i / 2];
        assert(b / 16 < 16 && b % 16 < 16);
    }
    assert forall|i: int| 0 <= i < bytes.len() implies unhex(h)[i] == bytes[i] by {
        let b = bytes[i];
        assert(h[2 * i] == hex_digit((b / 16) as nat));
        assert(h[2 * i + 1] == hex_digit((b % 16) as nat));
    }
    assert(unhex(h) =~= bytes);
}

/// Encoding what a hexadecimal string decodes to gives the string back.
pub proof fn lemma_hex_unhex(s: Seq<u8>)
    requires
        is_hex(s),
    ensures
        hex_of(unhex(s)) == s,
{
    let b = unhex(s);
    assert forall|i: int| 0 <= i < s.len() implies hex_of(b)[i] == s[i] by {
        let k = i / 2;
        assert(is_hex_digit(s[2 * k]));
        assert(is_hex_digit(s[2 * k + 1]));
    }
    assert(hex_of(b) =~= s);
}

/// The text of a digest is forty lowercase hexadecimal digits.
pub proof fn lemma_hex_text_is_digest_text(bytes: Seq<u8>)
    requires
        bytes.len() == 20,
    ensures
        is_digest_text(hex_text(bytes)),
{
    lemma_unhex_hex(bytes);
    let h = hex_of(bytes);
    assert forall|i: int| 0 <= i < 40 implies ('0' <= #[trigger] hex_text(bytes)[i] <= '9' || 'a'
        <= hex_text(bytes)[i] <= 'f') by {
        assert(is_hex_digit(h[i]));
    }
}

fn hex_digit_byte(n: u8) -> (b: u8)
    requires
        n < 16,
    ensures
        b == hex_digit(n as nat),
{
    if n < 10 {
        48u8 + n
    } else {
        87u8 + n
    }
}

fn hex_digit_str(n: u8) -> (s: &'static str)
    requires
        n < 16,
    ensures
        s@ == seq![hex_digit(n as nat) as char],
{
    proof {
        reveal_strlit("0");
        reveal_strlit("1");
        reveal_strlit("2");
        reveal_strlit("3");
        reveal_strlit("4");
        reveal_strlit("5");
        reveal_strlit("6");
        reveal_strlit("7");
        reveal_strlit("8");
        reveal_strlit("9");
        reveal_strlit("a");
        reveal_strlit("b");
        reveal_strlit("c");
        reveal_strlit("d");
        reveal_strlit("e");
        reveal_strlit("f");
    }
    let s = match n {
        0 => "0",
        1 => "1",
        2 => "2",
        3 => "3",
        4 => "4",
        5 => "5",
        6 => "6",
        7 => "7",
        8 => "8",
        9 => "9",
        10 => "a",
        11 => "b",
        12 => "c",
        13 => "d",
        14 => "e",
        _ => "f",
    };
    assert(s@ =~= seq![hex_digit(n as nat) as char]);
    s
}

fn hex_digit_value(b: u8) -> (r: Option<u8>)
    ensures
        match r {
            Some(v) => is_hex_digit(b) && v == hex_value(b),
            None => !is_hex_digit(b),
        },
{
    if 48 <= b && b <= 57 {
        Some(b - 48)
    } else if 97 <= b && b <= 102 {
        Some(b - 87)
    } else {
        None
    }
}

/// Appends the hexadecimal encoding of `bytes` to `out`.
pub fn push_hex(out: &mut Vec<u8>, bytes: &[u8])
    ensures
        final(out)@ == old(out)@ + hex_of(bytes@),
{
    let mut i: usize = 0;
    while i < bytes.len()
        invariant
            i <= bytes.len(),
            out@.len() == old(out)@.len() + 2 * i,
            forall|j: int| 0 <= j < old(out)@.len() ==> out@[j] == old(out)@[j],
            forall|j: int| 0 <= j < 2 * i ==> out@[old(out)@.len() + j] == hex_of(bytes@)[j],
        decreases bytes.len() - i,
    {
        let b: u8 = bytes[i];
        out.push(hex_digit_byte(b / 16));
        out.push(hex_digit_byte(b % 16));
        i = i + 1;
    }
    assert(out@ =~= old(out)@ + hex_of(bytes@));
}

/// Reads the forty hexadecimal digits at `input[from..]` as a digest.
pub fn parse_hex(input: &[u8], from: usize) -> (r: Option<Digest>)
    requires
        from <= input.len(),
    ensures
        match r {
            Some(d) => matches_at(input@, from as int, hex_of(d@)),
            None => forall|d: Seq<u8>|
                d.len() == 20 ==> !matches_at(input@, from as int, #[trigger] hex_of(d)),
        },
{
    if input.len() - from < 40 {
        return None;
    }
    let ghost s = input@.subrange(from as int, from + 40);
    let mut bytes: [u8; 20] = [0u8; 20];
    let mut i: usize = 0;
    while i < 20
        invariant
            i <= 20,
            from + 40 <= input.len(),
            s == input@.subrange(from as int, from + 40),
            forall|j: int| 0 <= j < 2 * i ==> is_hex_digit(#[trigger] s[j]),
            forall|j: int| 0 <= j < i ==> bytes@[j] == unhex(s)[j],
        decreases 20 - i,
    {
        let hi = hex_digit_value(input[from + 2 * i]);
        let lo = hex_digit_value(input[from + 2 * i + 1]);
        match (hi, lo) {
            (Some(h), Some(l)) => {
                assert(s[2 * i as int] == input@[from + 2 * i]);
                assert(s[2 * i as int + 1] == input@[from + 2 * i + 1]);
                bytes[i] = 16 * h + l;
            },
            _ => {
                proof {
                    assert(s[2 * i as int] == input@[from + 2 * i]);
                    assert(s[2 * i as int + 1] == input@[from + 2 * i + 1]);
                    assert forall|d: Seq<u8>| d.len() == 20 implies !matches_at(
                        input@,
                        from as int,
                        #[trigger] hex_of(d),
                    ) by {
                        if matches_at(input@, from as int, hex_of(d)) {
                            lemma_unhex_hex(d);
                            assert(is_hex_digit(hex_of(d)[2 * i as int]));
                            assert(is_hex_digit(hex_of(d)[2 * i as int + 1]));
                        }
                    }
                }
                return None;
            },
        }
        i = i + 1;
    }
    proof {
        assert(is_hex(s));
        lemma_hex_unhex(s);
        assert(bytes@ =~= unhex(s));
    }
    Some(Digest { bytes })
}

impl Digest {
    /// The digest whose bytes are `input[from..from + 20]`.
    pub fn from_bytes(input: &[u8], from: usize) -> (d: Digest)
        requires
            from + 20 <= input.len(),
        ensures
            d@ == input@.subrange(from as int, from + 20),
    {
        let mut bytes: [u8; 20] = [0u8; 20];
        let mut i: usize = 0;
        while i < 20
            invariant
                i <= 20,
                from + 20 <= input.len(),
                forall|j: int| 0 <= j < i ==> bytes@[j] == input@[from + j],
            decreases 20 - i,
        {
            bytes[i] = input[from + i];
            i = i + 1;
        }
        assert(bytes@ =~= input@.subrange(from as int, from + 20));
        Digest { bytes }
    }

    /// The digest as forty lowercase hexadecimal characters.
    pub fn to_hex(&self) -> (s: String)
        ensures
            s@ == hex_text(self@),
            is_digest_text(s@),
    {
        let mut s = String::new();
        let mut i: usize = 0;
        while i < 20
            invariant
                i <= 20,
                s@.len() == 2 * i,
                forall|j: int| 0 <= j < 2 * i ==> s@[j] == hex_text(self@)[j],
            decreases 20 - i,
        {
            let b: u8 = self.bytes[i];
            s.append(hex_digit_str(b / 16));
            s.append(hex_digit_str(b % 16));
            i = i + 1;
        }
        proof {
            assert(s@ =~= hex_text(self@));
            lemma_hex_text_is_digest_text(self@);
        }
        s
    }

    /// Reads forty lowercase hexadecimal characters as a digest.
    pub fn from_hex(s: &str) -> (r: Option<Digest>)
        ensures
            match r {
                Some(d) => s@ == hex_text(d@) && is_digest_text(s@),
                None => !is_digest_text(s@),
            },
    {
        if !s.is_ascii() {
            return None;
        }
        let bytes = s.as_bytes();
        proof {
            is_ascii_spec_bytes(s);
            assert(bytes@.len() == s@.len());
        }
        if bytes.len() != 40 {
            return None;
        }
        match parse_hex(bytes, 0) {
            Some(d) => {
                proof {
                    assert(bytes@.subrange(0, 40) =~= bytes@);
                    assert forall|i: int| 0 <= i < 40 implies s@[i] == hex_text(d@)[i] by {
                        assert(bytes@[i] == s@[i] as u8);
                        assert('\0' <= s@[i] <= '\u{7f}');
                    }
                    assert(s@ =~= hex_text(d@));
                    lemma_hex_text_is_digest_text(d@);
                }
                Some(d)
            },
            None => {
                proof {
                    if is_digest_text(s@) {
                        assert forall|i: int| 0 <= i < 40 implies is_hex_digit(
                            #[trigger] bytes@[i],
                        ) by {
                            assert(bytes@[i] == s@[i] as u8);
                            assert('0' <= s@[i] <= '9' || 'a' <= s@[i] <= 'f');
                        }
                        assert(is_hex(bytes@));
                        lemma_hex_unhex(bytes@);
                        let d = unhex(bytes@);
                        assert(bytes@.subrange(0, 40) =~= bytes@);
                        assert(matches_at(bytes@, 0, hex_of(d)));
                    }
                }
                None
            },
        }
    }
}

} // verus!
