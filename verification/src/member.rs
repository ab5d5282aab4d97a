//! The canonical member record produced by the roster parsers, and the
//! amateur-radio callsign grammar every record's callsign satisfies:
//! one or two letters, one digit, then one to four letters, uppercase.

use vstd::prelude::*;
use vstd::string::StrSliceExecFns;
use vstd::utf8::encode_utf8;

use crate::text::{is_digit_byte, is_upper_byte};

verus! {

/// One member of an organization's roster: a validated uppercase callsign,
/// the organization's member number (an opaque non-empty string), and an
/// optional nickname filled in by the enrichment step.
#[derive(Debug, Clone)]
pub struct Member {
    pub callsign: String,
    pub member_id: String,
    pub nickname: Option<String>,
}

/// A byte string split at position `p` into letters, one digit, letters,
/// with one or two leading letters and one to four trailing ones.
pub open spec fn callsign_split(s: Seq<u8>, p: int) -> bool {
    &&& 1 <= p <= 2
    &&& p + 2 <= s.len() <= p + 5
    &&& forall|i: int| 0 <= i < p ==> is_upper_byte(#[trigger] s[i])
    &&& is_digit_byte(s[p])
    &&& forall|i: int| p < i < s.len() ==> is_upper_byte(#[trigger] s[i])
}

/// The callsign grammar: `[A-Z]{1,2}[0-9][A-Z]{1,4}`, anchored at both
/// ends, over the UTF-8 bytes of the string.
pub open spec fn valid_callsign(s: Seq<u8>) -> bool {
    exists|p: int| callsign_split(s, p)
}

/// The bytes of a string's UTF-8 encoding; contracts about callsigns and
/// rendered text are stated over these.
pub open spec fn str_bytes(s: Seq<char>) -> Seq<u8> {
    encode_utf8(s)
}

/// The mathematical value of a [`Member`]: the UTF-8 bytes of its fields.
pub ghost struct MemberView {
    pub callsign: Seq<u8>,
    pub member_id: Seq<u8>,
    pub nickname: Option<Seq<u8>>,
}

impl Member {
    /// The value of this member, with every field as its UTF-8 bytes.
    pub open spec fn v(self) -> MemberView {
        MemberView {
            callsign: str_bytes(self.callsign@),
            member_id: str_bytes(self.member_id@),
            nickname: match self.nickname {
                Some(n) => Some(str_bytes(n@)),
                None => None,
            },
        }
    }
}

/// Decide the callsign grammar on a byte string.
pub fn valid_callsign_bytes(v: &Vec<u8>) -> (r: bool)
    ensures
        r == valid_callsign(v@),
{
    // The leading-letter count determines the only possible split position.
    let mut p: usize = 0;
    while p < v.len() && crate::text::upper_byte_test(v[p])
        invariant
            0 <= p <= v@.len(),
            forall|i: int| 0 <= i < p ==> is_upper_byte(#[trigger] v@[i]),
        decreases v@.len() - p,
    {
        p = p + 1;
    }
    assert(p == v@.len() || !is_upper_byte(v@[p as int]));
    if p < 1 || p > 2 {
        proof {
            assert forall|q: int| !callsign_split(v@, q) by {
                if 1 <= q <= 2 && q + 2 <= v@.len() {
                    if p == 0 {
                        assert(!is_upper_byte(v@[0]));
                    } else if p > 2 {
                        // positions 1 and 2 hold letters, never the digit
                        assert(is_upper_byte(v@[q]));
                    }
                }
            }
        }
        return false;
    }
    if p >= v.len() {
        proof {
            assert forall|q: int| !callsign_split(v@, q) by {
                if 1 <= q < p {
                    assert(is_upper_byte(v@[q]));
                }
            }
        }
        return false;
    }
    let d = v[p];
    if !(48 <= d && d <= 57) {
        proof {
            assert forall|q: int| !callsign_split(v@, q) by {
                if 1 <= q <= 2 && q + 2 <= v@.len() {
                    if q < p {
                        assert(is_upper_byte(v@[q]));
                    } else if q == p {
                        assert(!is_digit_byte(v@[q]));
                    } else {
                        // q > p: position p would have to hold a letter
                        assert(!is_upper_byte(v@[p as int]));
                    }
                }
            }
        }
        return false;
    }
    if v.len() < p + 2 || v.len() > p + 5 {
        proof {
            assert forall|q: int| !callsign_split(v@, q) by {
                if 1 <= q <= 2 && q + 2 <= v@.len() <= q + 5 {
                    if q < p {
                        assert(is_upper_byte(v@[q]));
                    } else if q > p {
                        assert(!is_upper_byte(v@[p as int]));
                    }
                }
            }
        }
        return false;
    }
    let mut j: usize = p + 1;
    while j < v.len() && crate::text::upper_byte_test(v[j])
        invariant
            p + 1 <= j <= v@.len(),
            forall|i: int| p < i < j ==> is_upper_byte(#[trigger] v@[i]),
        decreases v@.len() - j,
    {
        j = j + 1;
    }
    if j < v.len() {
        proof {
            assert(!is_upper_byte(v@[j as int]));
            assert forall|q: int| !callsign_split(v@, q) by {
                if 1 <= q <= 2 && q + 2 <= v@.len() <= q + 5 {
                    if q < p {
                        assert(is_upper_byte(v@[q]));
                    } else if q > p {
                        assert(!is_upper_byte(v@[p as int]));
                    } else {
                        assert(j != q);
                        assert(!is_upper_byte(v@[j as int]));
                    }
                }
            }
        }
        return false;
    }
    proof {
        assert(callsign_split(v@, p as int));
    }
    true
}

/// A grammatical callsign consists of ASCII letters and digits only.
pub proof fn lemma_valid_callsign_ascii(s: Seq<u8>)
    requires
        valid_callsign(s),
    ensures
        crate::text::all_ascii(s),
        s.len() > 0,
{
    let p = choose|p: int| callsign_split(s, p);
    assert forall|i: int| 0 <= i < s.len() implies vstd::utf8::is_leading_byte_width_1(
        #[trigger] s[i],
    ) by {
        if i < p {
            assert(is_upper_byte(s[i]));
        } else if i == p {
            assert(is_digit_byte(s[i]));
        } else {
            assert(is_upper_byte(s[i]));
        }
    }
}

/// Decide the callsign grammar on a string slice.
pub fn is_valid_callsign_str(s: &str) -> (r: bool)
    ensures
        r == valid_callsign(str_bytes(s@)),
{
    let b = s.as_bytes_vec();
    valid_callsign_bytes(&b)
}

} // verus!
