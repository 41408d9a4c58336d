//! Who did something and when: the author and committer of a commit, the
//! tagger of a tag.

use vstd::prelude::*;
use vstd::string::*;
use crate::bytes::{
    ascii, ascii_bytes, copy_range, find_byte, first_at, lemma_field_end, lemma_first_unique,
    lemma_matches_concat, matches_at, starts_with_at,
};
use crate::numeral::{
    decode_numeral, lemma_numeral_canonical, lemma_numeral_injective, lemma_numeral_of_value,
    numeral, parse_numeral, push_numeral, Radix,
};

verus! {

/// A person and a moment: name, e-mail address and seconds since the
/// epoch.
#[derive(Debug, Clone, PartialEq, Eq)]
pub struct Signature {
    /// The person's name.
    pub name: Vec<u8>,
    /// The person's e-mail address.
    pub email: Vec<u8>,
    /// Seconds since the epoch.
    pub timestamp: u64,
}

/// A signature as a mathematical value.
pub struct SignatureView {
    /// The person's name.
    pub name: Seq<u8>,
    /// The person's e-mail address.
    pub email: Seq<u8>,
    /// Seconds since the epoch.
    pub timestamp: u64,
}

impl View for Signature {
    type V = SignatureView;

    open spec fn view(&self) -> SignatureView {
        SignatureView { name: self.name@, email: self.email@, timestamp: self.timestamp }
    }
}

/// Whether `text` can be a name or an address: it holds no `<`, no `>` and
/// no line end.
pub open spec fn valid_ident(text: Seq<u8>) -> bool {
    forall|i: int|
        0 <= i < text.len() ==> text[i] != 60u8 && text[i] != 62u8 && text[i] != 10u8
}

/// Whether a signature has an encoding.
pub open spec fn valid_signature(s: SignatureView) -> bool {
    valid_ident(s.name) && valid_ident(s.email)
}

/// The time zone every signature is written with.
pub open spec fn zone() -> Seq<u8> {
    ascii("+0000"@)
}

/// The encoding of a signature: the name, the address in angle brackets,
/// the timestamp in decimal and the time zone, with single spaces between.
pub open spec fn encode_signature(s: SignatureView) -> Seq<u8> {
    s.name + seq![32u8, 60u8] + s.email + seq![62u8, 32u8] + numeral(
        s.timestamp as nat,
        Radix::Decimal,
    ) + seq![32u8] + zone()
}

/// A signature as it ends a header line: its encoding and a line end.
pub open spec fn signature_record(s: SignatureView) -> Seq<u8> {
    encode_signature(s).push(10u8)
}

proof fn lemma_zone()
    ensures
        zone() == seq![43u8, 48u8, 48u8, 48u8, 48u8],
        is_ascii("+0000"),
{
    reveal_strlit("+0000");
    assert(zone() =~= seq![43u8, 48u8, 48u8, 48u8, 48u8]);
}

/// Where the parts of a signature lie when its record stands at `pos`.
proof fn lemma_signature_layout(input: Seq<u8>, pos: int, s: SignatureView)
    requires
        valid_signature(s),
        matches_at(input, pos, signature_record(s)),
    ensures
        ({
            let stamp = numeral(s.timestamp as nat, Radix::Decimal);
            let lt = pos + s.name.len() + 1;
            let gt = lt + 1 + s.email.len();
            let space = gt + 2 + stamp.len();
            &&& first_at(input, pos, 60u8, lt)
            &&& input[lt - 1] == 32u8
            &&& input.subrange(pos, lt - 1) == s.name
            &&& first_at(input, lt + 1, 62u8, gt)
            &&& input.subrange(lt + 1, gt) == s.email
            &&& input[gt + 1] == 32u8
            &&& first_at(input, gt + 2, 32u8, space)
            &&& input.subrange(gt + 2, space) == stamp
            &&& matches_at(input, space + 1, zone().push(10u8))
            &&& signature_record(s).len() == s.name.len() + s.email.len() + stamp.len() + 11
        }),
{
    lemma_zone();
    let stamp = numeral(s.timestamp as nat, Radix::Decimal);
    lemma_numeral_canonical(s.timestamp as nat, Radix::Decimal);
    let who = s.name.push(32u8);
    let p1 = who.push(60u8);
    let p2 = s.email.push(62u8);
    let p3 = seq![32u8];
    let p4 = stamp.push(32u8);
    let p5 = zone().push(10u8);
    let r2 = p2 + (p3 + (p4 + p5));
    assert(signature_record(s) =~= p1 + r2);
    lemma_matches_concat(input, pos, p1, r2);
    lemma_field_end(input, pos, who, 60u8);
    assert(input[pos + s.name.len()] == 32u8) by {
        assert(input.subrange(pos, pos + who.len())[s.name.len() as int] == who[s.name.len() as int]);
    }
    assert(input.subrange(pos, pos + s.name.len()) =~= s.name) by {
        assert forall|j: int| 0 <= j < s.name.len() implies input[pos + j] == s.name[j] by {
            assert(input.subrange(pos, pos + who.len())[j] == who[j]);
        }
    }
    let lt = pos + s.name.len() + 1;
    lemma_matches_concat(input, lt + 1, p2, p3 + (p4 + p5));
    lemma_field_end(input, lt + 1, s.email, 62u8);
    let gt = lt + 1 + s.email.len();
    lemma_matches_concat(input, gt + 1, p3, p4 + p5);
    assert(input[gt + 1] == 32u8) by {
        assert(input.subrange(gt + 1, gt + 2)[0] == p3[0]);
    }
    lemma_matches_concat(input, gt + 2, p4, p5);
    assert forall|j: int| 0 <= j < stamp.len() implies stamp[j] != 32u8 by {
        assert(Radix::Decimal.is_digit(stamp[j]));
    }
    lemma_field_end(input, gt + 2, stamp, 32u8);
}

/// At most one valid signature has its record at a given place.
pub proof fn lemma_signature_unique(input: Seq<u8>, pos: int, a: SignatureView, b: SignatureView)
    requires
        valid_signature(a),
        valid_signature(b),
        matches_at(input, pos, signature_record(a)),
        matches_at(input, pos, signature_record(b)),
    ensures
        a == b,
{
    lemma_signature_layout(input, pos, a);
    lemma_signature_layout(input, pos, b);
    let lt = pos + a.name.len() + 1;
    lemma_first_unique(input, pos, 60u8, lt, pos + b.name.len() + 1);
    lemma_first_unique(input, lt + 1, 62u8, lt + 1 + a.email.len(), lt + 1 + b.email.len());
    let gt = lt + 1 + a.email.len();
    lemma_first_unique(
        input,
        gt + 2,
        32u8,
        gt + 2 + numeral(a.timestamp as nat, Radix::Decimal).len(),
        gt + 2 + numeral(b.timestamp as nat, Radix::Decimal).len(),
    );
    lemma_numeral_injective(a.timestamp as nat, b.timestamp as nat, Radix::Decimal);
}

/// Bytes that read as the parts of a signature are its record.
proof fn lemma_signature_built(
    input: Seq<u8>,
    pos: int,
    lt: int,
    gt: int,
    space: int,
    s: SignatureView,
)
    requires
        0 <= pos < lt < gt,
        gt + 2 <= space,
        input[lt - 1] == 32u8,
        input[lt] == 60u8,
        input[gt] == 62u8,
        input[gt + 1] == 32u8,
        input[space] == 32u8,
        matches_at(input, space + 1, zone().push(10u8)),
        s.name == input.subrange(pos, lt - 1),
        s.email == input.subrange(lt + 1, gt),
        decode_numeral(input.subrange(gt + 2, space), Radix::Decimal) == Some(s.timestamp),
    ensures
        matches_at(input, pos, signature_record(s)),
        signature_record(s).len() == space + 7 - pos,
{
    lemma_zone();
    let digits = input.subrange(gt + 2, space);
    lemma_numeral_of_value(digits, Radix::Decimal);
    assert(numeral(s.timestamp as nat, Radix::Decimal) == digits);
    let rec = signature_record(s);
    assert(rec.len() == space + 7 - pos);
    let window = input.subrange(pos, pos + rec.len());
    let tail = zone().push(10u8);
    assert forall|j: int| 0 <= j < rec.len() implies window[j] == rec[j] by {
        if j < lt - 1 - pos {
            assert(s.name[j] == input[pos + j]);
        } else if lt - pos < j < gt - pos {
            assert(s.email[j - (lt - pos) - 1] == input[pos + j]);
        } else if gt + 1 - pos < j < space - pos {
            assert(digits[j - (gt + 2 - pos)] == input[pos + j]);
        } else if j > space - pos {
            assert(input.subrange(space + 1, space + 7)[j - (space + 1 - pos)] == tail[j - (space
                + 1 - pos)]);
        }
    }
    assert(window =~= rec);
}

fn check_ident(text: &[u8]) -> (r: bool)
    ensures
        r == valid_ident(text@),
{
    let mut i: usize = 0;
    while i < text.len()
        invariant
            i <= text.len(),
            forall|j: int|
                0 <= j < i ==> text@[j] != 60u8 && text@[j] != 62u8 && text@[j] != 10u8,
        decreases text.len() - i,
    {
        if text[i] == 60u8 || text[i] == 62u8 || text[i] == 10u8 {
            return false;
        }
        i = i + 1;
    }
    true
}

impl Signature {
    /// Tests whether the signature has an encoding.
    pub fn is_valid(&self) -> (r: bool)
        ensures
            r == valid_signature(self@),
    {
        check_ident(self.name.as_slice()) && check_ident(self.email.as_slice())
    }

    /// Appends the signature's record to `out`.
    pub fn push_record(&self, out: &mut Vec<u8>)
        ensures
            final(out)@ == old(out)@ + signature_record(self@),
    {
        proof {
            lemma_zone();
        }
        out.extend_from_slice(self.name.as_slice());
        out.push(32u8);
        out.push(60u8);
        out.extend_from_slice(self.email.as_slice());
        out.push(62u8);
        out.push(32u8);
        push_numeral(out, self.timestamp, Radix::Decimal);
        out.push(32u8);
        out.extend_from_slice(ascii_bytes("+0000"));
        out.push(10u8);
        assert(out@ =~= old(out)@ + signature_record(self@));
    }

    /// Reads the signature whose record stands at `input[pos..]`, and says
    /// where the record ends.
    pub fn read_record(input: &[u8], pos: usize) -> (r: Option<(Signature, usize)>)
        requires
            pos <= input.len(),
        ensures
            match r {
                Some((s, next)) => {
                    &&& valid_signature(s@)
                    &&& matches_at(input@, pos as int, signature_record(s@))
                    &&& next == pos + signature_record(s@).len()
                },
                None => forall|v: SignatureView|
                    valid_signature(v) ==> !matches_at(
                        input@,
                        pos as int,
                        #[trigger] signature_record(v),
                    ),
            },
    {
        let total: usize = input.len();
        proof {
            lemma_zone();
        }
        let lt = match find_byte(input, pos, 60u8) {
            Some(i) => i,
            None => {
                proof {
                    assert forall|v: SignatureView| valid_signature(v) implies !matches_at(
                        input@,
                        pos as int,
                        #[trigger] signature_record(v),
                    ) by {
                        if matches_at(input@, pos as int, signature_record(v)) {
                            lemma_signature_layout(input@, pos as int, v);
                        }
                    }
                }
                return None;
            },
        };
        let gt = match find_byte(input, lt + 1, 62u8) {
            Some(i) => i,
            None => {
                proof {
                    assert forall|v: SignatureView| valid_signature(v) implies !matches_at(
                        input@,
                        pos as int,
                        #[trigger] signature_record(v),
                    ) by {
                        if matches_at(input@, pos as int, signature_record(v)) {
                            lemma_signature_layout(input@, pos as int, v);
                            lemma_first_unique(
                                input@,
                                pos as int,
                                60u8,
                                lt as int,
                                pos + v.name.len() + 1,
                            );
                        }
                    }
                }
                return None;
            },
        };
        if total - gt < 2 {
            proof {
                assert forall|v: SignatureView| valid_signature(v) implies !matches_at(
                    input@,
                    pos as int,
                    #[trigger] signature_record(v),
                ) by {
                    if matches_at(input@, pos as int, signature_record(v)) {
                        lemma_signature_layout(input@, pos as int, v);
                        lemma_first_unique(
                            input@,
                            pos as int,
                            60u8,
                            lt as int,
                            pos + v.name.len() + 1,
                        );
                        lemma_first_unique(
                            input@,
                            lt as int + 1,
                            62u8,
                            gt as int,
                            lt + 1 + v.email.len(),
                        );
                    }
                }
            }
            return None;
        }
        let space = match find_byte(input, gt + 2, 32u8) {
            Some(i) => i,
            None => {
                proof {
                    assert forall|v: SignatureView| valid_signature(v) implies !matches_at(
                        input@,
                        pos as int,
                        #[trigger] signature_record(v),
                    ) by {
                        if matches_at(input@, pos as int, signature_record(v)) {
                            lemma_signature_layout(input@, pos as int, v);
                            lemma_first_unique(
                                input@,
                                pos as int,
                                60u8,
                                lt as int,
                                pos + v.name.len() + 1,
                            );
                            lemma_first_unique(
                                input@,
                                lt as int + 1,
                                62u8,
                                gt as int,
                                lt + 1 + v.email.len(),
                            );
                        }
                    }
                }
                return None;
            },
        };
        let stamp = parse_numeral(input, gt + 2, space, Radix::Decimal);
        let zone_ok = starts_with_at(input, space + 1, ascii_bytes("+0000")) && total - space > 6
            && input[space + 6] == 10u8;
        let lead_ok = lt > pos && input[lt - 1] == 32u8 && input[gt + 1] == 32u8;
        proof {
            assert(zone_ok ==> matches_at(input@, space + 1, zone().push(10u8))) by {
                if zone_ok {
                    assert(input@.subrange(space + 1, space + 7) =~= input@.subrange(
                        space + 1,
                        space + 6,
                    ).push(10u8));
                }
            }
            assert forall|v: SignatureView|
                valid_signature(v) && matches_at(
                    input@,
                    pos as int,
                    #[trigger] signature_record(v),
                ) implies {
                &&& lead_ok
                &&& zone_ok
                &&& stamp == Some(v.timestamp)
                &&& v.name == input@.subrange(pos as int, lt - 1)
                &&& v.email == input@.subrange(lt + 1, gt as int)
            } by {
                lemma_signature_layout(input@, pos as int, v);
                lemma_first_unique(input@, pos as int, 60u8, lt as int, pos + v.name.len() + 1);
                lemma_first_unique(
                    input@,
                    lt as int + 1,
                    62u8,
                    gt as int,
                    lt + 1 + v.email.len(),
                );
                let digits = numeral(v.timestamp as nat, Radix::Decimal);
                lemma_first_unique(
                    input@,
                    gt as int + 2,
                    32u8,
                    space as int,
                    gt + 2 + digits.len(),
                );
                lemma_numeral_canonical(v.timestamp as nat, Radix::Decimal);
                assert(zone().push(10u8) =~= zone() + seq![10u8]);
                lemma_matches_concat(input@, space + 1, zone(), seq![10u8]);
                assert(input@[space + 6] == 10u8) by {
                    assert(input@.subrange(space + 6, space + 7)[0] == seq![10u8][0]);
                }
            }
        }
        if !lead_ok || !zone_ok {
            return None;
        }
        let timestamp: u64 = match stamp {
            Some(t) => t,
            None => {
                return None;
            },
        };
        let name = copy_range(input, pos, lt - 1);
        let email = copy_range(input, lt + 1, gt);
        let signature = Signature { name, email, timestamp };
        if !signature.is_valid() {
            return None;
        }
        proof {
            lemma_signature_built(
                input@,
                pos as int,
                lt as int,
                gt as int,
                space as int,
                signature@,
            );
        }
        Some((signature, space + 7))
    }
}

} // verus!
