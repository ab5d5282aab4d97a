//! Text helpers shared by the parsers, the renderer and the cache:
//! ASCII byte classification and case mapping, character-level whitespace
//! trimming, lexicographic ordering and decimal conversion, each proved
//! against a small spec function.

use vstd::prelude::*;
use vstd::string::StrSliceExecFns;
use vstd::string::StringExecFns;
use vstd::utf8::{
    decode_utf8, valid_utf8, is_leading_byte_width_1, partial_valid_utf8,
    partial_valid_utf8_extend_ascii_block,
};

verus! {

/// ASCII uppercase letter.
pub open spec fn is_upper_byte(b: u8) -> bool {
    65 <= b && b <= 90
}

/// ASCII lowercase letter.
pub open spec fn is_lower_byte(b: u8) -> bool {
    97 <= b && b <= 122
}

/// ASCII decimal digit.
pub open spec fn is_digit_byte(b: u8) -> bool {
    48 <= b && b <= 57
}

/// ASCII whitespace: space, tab, line feed, carriage return (the bytes
/// stripped from transport-wrapped base64 content).
pub open spec fn is_space_byte(b: u8) -> bool {
    b == 32 || b == 9 || b == 10 || b == 13
}

/// ASCII case folding of one byte, upward.
pub open spec fn upper_byte(b: u8) -> u8 {
    if is_lower_byte(b) {
        (b - 32) as u8
    } else {
        b
    }
}

/// ASCII case folding of one byte, downward.
pub open spec fn lower_byte(b: u8) -> u8 {
    if is_upper_byte(b) {
        (b + 32) as u8
    } else {
        b
    }
}

/// ASCII-uppercased copy of a byte string.
pub open spec fn upper_bytes(s: Seq<u8>) -> Seq<u8> {
    s.map_values(|b: u8| upper_byte(b))
}

/// ASCII-lowercased copy of a byte string.
pub open spec fn lower_bytes(s: Seq<u8>) -> Seq<u8> {
    s.map_values(|b: u8| lower_byte(b))
}

/// Strict lexicographic (byte-ordinal) order on byte strings; this is the
/// order of Rust's `str` comparison.
pub open spec fn lex_lt(a: Seq<u8>, b: Seq<u8>) -> bool
    decreases a.len(),
{
    if b.len() == 0 {
        false
    } else if a.len() == 0 {
        true
    } else if a[0] < b[0] {
        true
    } else if a[0] > b[0] {
        false
    } else {
        lex_lt(a.drop_first(), b.drop_first())
    }
}

/// The numeric value of a decimal digit string (most significant first).
pub open spec fn dec_value(s: Seq<u8>) -> nat
    decreases s.len(),
{
    if s.len() == 0 {
        0
    } else {
        (dec_value(s.drop_last()) * 10 + (s.last() - 48)) as nat
    }
}

/// Every byte is a decimal digit and there is at least one.
pub open spec fn all_digits(s: Seq<u8>) -> bool {
    s.len() > 0 && forall|i: int| 0 <= i < s.len() ==> is_digit_byte(#[trigger] s[i])
}

/// The canonical decimal digit string of a number (no leading zeros,
/// except that zero itself is "0").
pub open spec fn dec_digits(n: nat) -> Seq<u8>
    decreases n,
{
    if n < 10 {
        seq![(48 + n) as u8]
    } else {
        dec_digits(n / 10).push((48 + (n % 10)) as u8)
    }
}

/// `str::parse::<u32>` accepts an optional leading plus sign before the
/// digits; this strips it.
pub open spec fn strip_plus(s: Seq<u8>) -> Seq<u8> {
    if s.len() > 0 && s[0] == 43 {
        s.drop_first()
    } else {
        s
    }
}

/// Whether a trimmed field parses as a `u32` member number.
pub open spec fn parses_as_u32(s: Seq<u8>) -> bool {
    all_digits(strip_plus(s)) && dec_value(strip_plus(s)) <= u32::MAX
}

/// The parsed value of a field for which `parses_as_u32` holds.
pub open spec fn parsed_u32(s: Seq<u8>) -> nat {
    dec_value(strip_plus(s))
}

/// Runtime test for [`is_space_byte`].
pub fn space_byte(b: u8) -> (r: bool)
    ensures
        r == is_space_byte(b),
{
    b == 32 || b == 9 || b == 10 || b == 13
}

/// Runtime test for [`is_upper_byte`].
pub fn upper_byte_test(b: u8) -> (r: bool)
    ensures
        r == is_upper_byte(b),
{
    65 <= b && b <= 90
}

/// ASCII-uppercase a byte string.
pub fn upper_vec(v: &Vec<u8>) -> (r: Vec<u8>)
    ensures
        r@ == upper_bytes(v@),
{
    let mut r: Vec<u8> = Vec::new();
    let mut i: usize = 0;
    while i < v.len()
        invariant
            0 <= i <= v@.len(),
            r@ == upper_bytes(v@.subrange(0, i as int)),
        decreases v@.len() - i,
    {
        let b = v[i];
        if 97 <= b && b <= 122 {
            r.push(b - 32);
        } else {
            r.push(b);
        }
        i = i + 1;
        assert(v@.subrange(0, i as int) == v@.subrange(0, i - 1).push(v@[i - 1]));
        assert(r@ == upper_bytes(v@.subrange(0, i as int)));
    }
    assert(v@.subrange(0, v@.len() as int) == v@);
    r
}

/// ASCII-lowercase a byte string.
pub fn lower_vec(v: &Vec<u8>) -> (r: Vec<u8>)
    ensures
        r@ == lower_bytes(v@),
{
    let mut r: Vec<u8> = Vec::new();
    let mut i: usize = 0;
    while i < v.len()
        invariant
            0 <= i <= v@.len(),
            r@ == lower_bytes(v@.subrange(0, i as int)),
        decreases v@.len() - i,
    {
        let b = v[i];
        if 65 <= b && b <= 90 {
            r.push(b + 32);
        } else {
            r.push(b);
        }
        i = i + 1;
        assert(v@.subrange(0, i as int) == v@.subrange(0, i - 1).push(v@[i - 1]));
        assert(r@ == lower_bytes(v@.subrange(0, i as int)));
    }
    assert(v@.subrange(0, v@.len() as int) == v@);
    r
}

/// Strict lexicographic order is irreflexive and connected: of two distinct
/// byte strings, exactly one precedes the other.
pub proof fn lemma_lex_connected(a: Seq<u8>, b: Seq<u8>)
    ensures
        a == b ==> !lex_lt(a, b),
        a != b ==> (lex_lt(a, b) <==> !lex_lt(b, a)),
    decreases a.len() + b.len(),
{
    if a.len() == 0 && b.len() == 0 {
        assert(a == b);
    } else if a.len() == 0 || b.len() == 0 {
        assert(a != b);
    } else {
        lemma_lex_connected(a.drop_first(), b.drop_first());
        if a[0] == b[0] {
            if a.drop_first() == b.drop_first() {
                assert(a.len() == b.len());
                assert forall|i: int| 0 <= i < a.len() implies a[i] == b[i] by {
                    if i > 0 {
                        assert(a[i] == a.drop_first()[i - 1]);
                        assert(b[i] == b.drop_first()[i - 1]);
                    }
                }
                assert(a =~= b);
            } else {
                assert(a.drop_first() != b.drop_first());
                assert(a != b) by {
                    if a == b {
                        assert(a.drop_first() =~= b.drop_first());
                    }
                }
            }
        } else {
            assert(a != b);
        }
    }
}

/// Strict lexicographic order is transitive.
pub proof fn lemma_lex_transitive(a: Seq<u8>, b: Seq<u8>, c: Seq<u8>)
    requires
        lex_lt(a, b),
        lex_lt(b, c),
    ensures
        lex_lt(a, c),
    decreases a.len() + b.len() + c.len(),
{
    if a.len() == 0 {
        assert(b.len() > 0);
        assert(c.len() > 0);
    } else {
        assert(b.len() > 0);
        assert(c.len() > 0);
        if a[0] == b[0] && b[0] == c[0] {
            lemma_lex_transitive(a.drop_first(), b.drop_first(), c.drop_first());
        }
    }
}

/// Compare two byte strings in lexicographic order.
pub fn bytes_lt(a: &Vec<u8>, b: &Vec<u8>) -> (r: bool)
    ensures
        r == lex_lt(a@, b@),
{
    let mut i: usize = 0;
    assert(a@.skip(0) == a@);
    assert(b@.skip(0) == b@);
    loop
        invariant
            0 <= i <= a@.len(),
            i <= b@.len(),
            forall|k: int| 0 <= k < i ==> a@[k] == #[trigger] b@[k],
            lex_lt(a@, b@) == lex_lt(a@.skip(i as int), b@.skip(i as int)),
        decreases a@.len() - i,
    {
        if i >= b.len() {
            assert(b@.skip(i as int).len() == 0);
            return false;
        }
        if i >= a.len() {
            assert(a@.skip(i as int).len() == 0);
            assert(b@.skip(i as int).len() > 0);
            return true;
        }
        let x = a[i];
        let y = b[i];
        assert(a@.skip(i as int)[0] == a@[i as int]);
        assert(b@.skip(i as int)[0] == b@[i as int]);
        if x < y {
            return true;
        }
        if x > y {
            return false;
        }
        assert(a@.skip(i as int).drop_first() == a@.skip(i + 1));
        assert(b@.skip(i as int).drop_first() == b@.skip(i + 1));
        i = i + 1;
    }
}

/// Equality of byte strings.
pub fn bytes_eq(a: &Vec<u8>, b: &Vec<u8>) -> (r: bool)
    ensures
        r == (a@ == b@),
{
    if a.len() != b.len() {
        return false;
    }
    let mut i: usize = 0;
    while i < a.len()
        invariant
            0 <= i <= a@.len(),
            a@.len() == b@.len(),
            forall|k: int| 0 <= k < i ==> a@[k] == #[trigger] b@[k],
        decreases a@.len() - i,
    {
        if a[i] != b[i] {
            return false;
        }
        i = i + 1;
    }
    proof {
        assert(a@ =~= b@);
    }
    true
}

proof fn lemma_dec_value_grows(s: Seq<u8>, i: int)
    requires
        0 <= i <= s.len(),
        forall|k: int| 0 <= k < s.len() ==> is_digit_byte(#[trigger] s[k]),
    ensures
        dec_value(s) >= dec_value(s.subrange(0, i)),
    decreases s.len() - i,
{
    if i == s.len() {
        assert(s.subrange(0, i) == s);
    } else {
        lemma_dec_value_grows(s, i + 1);
        let t = s.subrange(0, i + 1);
        assert(t.drop_last() =~= s.subrange(0, i));
        assert(is_digit_byte(t.last()));
        assert(dec_value(t) == (dec_value(s.subrange(0, i)) * 10 + (t.last() - 48)) as nat);
    }
}

/// Parse a (already trimmed) byte string as a `u32`, as `str::parse::<u32>`
/// does: an optional leading plus sign, then one or more decimal digits,
/// with the value in range.
pub fn parse_u32_bytes(v: &Vec<u8>) -> (r: Option<u32>)
    ensures
        parses_as_u32(v@) <==> r is Some,
        r matches Some(n) ==> n as nat == parsed_u32(v@),
{
    let start: usize = if v.len() > 0 && v[0] == 43 {
        1
    } else {
        0
    };
    let ghost d = strip_plus(v@);
    proof {
        assert(d =~= v@.skip(start as int));
    }
    if v.len() == start {
        return None;
    }
    let mut acc: u32 = 0;
    let mut i: usize = start;
    while i < v.len()
        invariant
            start <= i <= v@.len(),
            start < v@.len(),
            d == v@.skip(start as int),
            d == strip_plus(v@),
            forall|k: int| start <= k < i ==> is_digit_byte(#[trigger] v@[k]),
            acc as nat == dec_value(d.subrange(0, i - start)),
        decreases v@.len() - i,
    {
        let b = v[i];
        if !(48 <= b && b <= 57) {
            proof {
                assert(d[i - start] == v@[i as int]);
                assert(!all_digits(d));
            }
            return None;
        }
        let dig = b - 48;
        let next = match acc.checked_mul(10) {
            Some(m) => m.checked_add(dig as u32),
            None => None,
        };
        match next {
            Some(n) => {
                acc = n;
                i = i + 1;
                proof {
                    let t = d.subrange(0, i - start);
                    assert(t.drop_last() =~= d.subrange(0, i - 1 - start));
                    assert(t.last() == v@[i - 1]);
                    assert(is_digit_byte(t.last()));
                    assert(dec_value(t) == (dec_value(t.drop_last()) * 10 + (t.last() - 48)) as nat);
                }
            },
            None => {
                proof {
                    if all_digits(d) {
                        let t = d.subrange(0, i + 1 - start);
                        assert(t.drop_last() =~= d.subrange(0, i - start));
                        assert(t.last() == v@[i as int]);
                        assert(is_digit_byte(t.last()));
                        assert(dec_value(t) == (dec_value(t.drop_last()) * 10 + (t.last() - 48)) as nat);
                        assert(dec_value(t) > u32::MAX);
                        lemma_dec_value_grows(d, i + 1 - start);
                    }
                }
                return None;
            },
        }
    }
    proof {
        assert(d.subrange(0, v@.len() - start) == d);
        assert(all_digits(d));
    }
    Some(acc)
}

/// Whitespace at the character level, as `char::is_whitespace` and hence
/// `str::trim` recognize it: the characters with the Unicode White_Space
/// property.
pub open spec fn is_space_char(c: char) -> bool {
    let u = c as u32;
    ||| u == 9
    ||| u == 10
    ||| u == 11
    ||| u == 12
    ||| u == 13
    ||| u == 32
    ||| u == 0x85
    ||| u == 0xa0
    ||| u == 0x1680
    ||| (0x2000 <= u && u <= 0x200a)
    ||| u == 0x2028
    ||| u == 0x2029
    ||| u == 0x202f
    ||| u == 0x205f
    ||| u == 0x3000
}

/// A character string with its leading whitespace removed.
pub open spec fn trim_start_chars(s: Seq<char>) -> Seq<char>
    decreases s.len(),
{
    if s.len() > 0 && is_space_char(s[0]) {
        trim_start_chars(s.drop_first())
    } else {
        s
    }
}

/// A character string with its trailing whitespace removed.
pub open spec fn trim_end_chars(s: Seq<char>) -> Seq<char>
    decreases s.len(),
{
    if s.len() > 0 && is_space_char(s.last()) {
        trim_end_chars(s.drop_last())
    } else {
        s
    }
}

/// A character string with whitespace removed from both ends, as
/// `str::trim` does.
pub open spec fn trim_chars(s: Seq<char>) -> Seq<char> {
    trim_end_chars(trim_start_chars(s))
}

proof fn lemma_trim_start_chars_at(s: Seq<char>, i: int)
    requires
        0 <= i <= s.len(),
        forall|k: int| 0 <= k < i ==> is_space_char(#[trigger] s[k]),
        i == s.len() || !is_space_char(s[i]),
    ensures
        trim_start_chars(s) == s.subrange(i, s.len() as int),
    decreases i,
{
    if i == 0 {
        if s.len() > 0 && is_space_char(s[0]) {
            assert(false);
        }
        assert(s.subrange(0, s.len() as int) == s);
    } else {
        assert(is_space_char(s[0]));
        lemma_trim_start_chars_at(s.drop_first(), i - 1);
        assert(s.drop_first().subrange(i - 1, s.drop_first().len() as int) == s.subrange(
            i,
            s.len() as int,
        ));
    }
}

proof fn lemma_trim_end_chars_at(s: Seq<char>, j: int)
    requires
        0 <= j <= s.len(),
        forall|k: int| j <= k < s.len() ==> is_space_char(#[trigger] s[k]),
        j == 0 || !is_space_char(s[j - 1]),
    ensures
        trim_end_chars(s) == s.subrange(0, j),
    decreases s.len() - j,
{
    if j == s.len() {
        if s.len() > 0 && is_space_char(s.last()) {
            assert(false);
        }
        assert(s.subrange(0, s.len() as int) == s);
    } else {
        assert(is_space_char(s.last()));
        lemma_trim_end_chars_at(s.drop_last(), j);
        assert(s.drop_last().subrange(0, j) == s.subrange(0, j));
    }
}

/// Runtime test for [`is_space_char`].
pub fn space_char(c: char) -> (r: bool)
    ensures
        r == is_space_char(c),
{
    let u = c as u32;
    u == 9 || u == 10 || u == 11 || u == 12 || u == 13 || u == 32 || u == 0x85 || u == 0xa0
        || u == 0x1680 || (0x2000 <= u && u <= 0x200a) || u == 0x2028 || u == 0x2029 || u == 0x202f
        || u == 0x205f || u == 0x3000
}

/// Trim whitespace from both ends of a string, at the character level.
pub fn trim_str(s: &str) -> (r: String)
    ensures
        r@ == trim_chars(s@),
{
    let n = s.unicode_len();
    let mut start: usize = 0;
    while start < n && space_char(s.get_char(start))
        invariant
            0 <= start <= n == s@.len(),
            forall|k: int| 0 <= k < start ==> is_space_char(#[trigger] s@[k]),
        decreases n - start,
    {
        start = start + 1;
    }
    proof {
        lemma_trim_start_chars_at(s@, start as int);
    }
    let ghost t = trim_start_chars(s@);
    let mut end: usize = n;
    while end > start && space_char(s.get_char(end - 1))
        invariant
            start <= end <= n == s@.len(),
            forall|k: int| end <= k < s@.len() ==> is_space_char(#[trigger] s@[k]),
        decreases end,
    {
        end = end - 1;
    }
    proof {
        assert(t == s@.subrange(start as int, s@.len() as int));
        assert forall|k: int| end - start <= k < t.len() implies is_space_char(#[trigger] t[k]) by {
            assert(t[k] == s@[k + start]);
        }
        if end - start > 0 {
            assert(t[end - start - 1] == s@[end as int - 1]);
        }
        lemma_trim_end_chars_at(t, end - start);
        assert(t.subrange(0, end - start) == s@.subrange(start as int, end as int));
    }
    let sub = s.substring_char(start, end);
    String::from_str(sub)
}

/// Every byte is ASCII (a one-byte UTF-8 encoding).
pub open spec fn all_ascii(b: Seq<u8>) -> bool {
    forall|i: int| 0 <= i < b.len() ==> is_leading_byte_width_1(#[trigger] b[i])
}

/// A sequence of ASCII bytes is valid UTF-8 and decodes byte by byte.
pub proof fn lemma_ascii_valid_utf8(b: Seq<u8>)
    requires
        all_ascii(b),
    ensures
        valid_utf8(b),
        decode_utf8(b).len() == b.len(),
        forall|i: int| 0 <= i < b.len() ==> decode_utf8(b)[i] == (#[trigger] b[i]) as char,
    decreases b.len(),
{
    broadcast use vstd::utf8::char_u32_cast;

    if b.len() == 0 {
        partial_valid_utf8_extend_ascii_block(b, 0, 0);
        assert(b.subrange(0, 0) == b);
    } else {
        partial_valid_utf8_extend_ascii_block(b, 0, b.len() as int);
        assert(partial_valid_utf8(b, 0)) by {
            assert(b.subrange(0, 0) =~= Seq::<u8>::empty());
        }
        assert(b.subrange(0, b.len() as int) == b);
        assert(valid_utf8(b));
        let rest = vstd::utf8::pop_first_scalar(b);
        assert(rest =~= b.drop_first());
        assert(all_ascii(b.drop_first())) by {
            assert(forall|i: int|
                0 <= i < b.drop_first().len() ==> #[trigger] b.drop_first()[i] == b[i + 1]);
        }
        lemma_ascii_valid_utf8(b.drop_first());
        let b0 = b[0];
        assert((b0 & 0x7F) == b0) by (bit_vector)
            requires
                b0 <= 0x7f,
        ;
        assert(vstd::utf8::decode_first_scalar(b) == b0 as u32);
        assert(decode_utf8(b) == seq![(b0 as u32) as char] + decode_utf8(b.drop_first()));
        assert(decode_utf8(b).len() == b.len());
        assert forall|i: int| 0 <= i < b.len() implies decode_utf8(b)[i] == (#[trigger] b[i]) as char
            by {
            if i == 0 {
                assert(decode_utf8(b)[0] == (b0 as u32) as char);
                assert((b0 as u32) as char == b0 as char);
            } else {
                assert(decode_utf8(b)[i] == decode_utf8(b.drop_first())[i - 1]);
                assert(b.drop_first()[i - 1] == b[i]);
                assert(decode_utf8(b.drop_first())[i - 1] == b.drop_first()[i - 1] as char);
            }
        }
    }
}

/// Turn valid UTF-8 bytes into the string that decodes them.
pub fn string_from_bytes(v: Vec<u8>) -> (r: String)
    requires
        valid_utf8(v@),
    ensures
        r@ == decode_utf8(v@),
{
    match bytes_to_string(v) {
        Some(s) => s,
        None => vstd::pervasive::unreached(),
    }
}

/// A decimal digit string is non-empty and all digits.
pub proof fn lemma_dec_digits_props(n: nat)
    ensures
        dec_digits(n).len() > 0,
        forall|i: int| 0 <= i < dec_digits(n).len() ==> is_digit_byte(#[trigger] dec_digits(n)[i]),
    decreases n,
{
    if n < 10 {
    } else {
        lemma_dec_digits_props(n / 10);
        let d = dec_digits(n);
        let h = dec_digits(n / 10);
        assert(d == h.push((48 + (n % 10)) as u8));
        assert forall|i: int| 0 <= i < d.len() implies is_digit_byte(#[trigger] d[i]) by {
            if i < h.len() {
                assert(d[i] == h[i]);
            }
        }
    }
}

/// Render a number as its canonical decimal digit string.
pub fn u64_to_dec(n: u64) -> (r: Vec<u8>)
    ensures
        r@ == dec_digits(n as nat),
{
    let mut digits: Vec<u8> = Vec::new();
    if n < 10 {
        digits.push(48 + (n as u8));
        assert(digits@ =~= dec_digits(n as nat));
        return digits;
    }
    let mut m: u64 = n;
    while m >= 10
        invariant
            m >= 1,
            dec_digits(n as nat) == dec_digits(m as nat) + digits@,
        decreases m,
    {
        let dig = (m % 10) as u8;
        m = m / 10;
        digits.insert(0, 48 + dig);
        proof {
            assert(dec_digits((m * 10 + dig) as nat) == dec_digits(m as nat).push(
                (48 + dig) as u8,
            ));
            assert(dec_digits(m as nat).push((48 + dig) as u8) + digits@.drop_first()
                =~= dec_digits(m as nat) + digits@);
        }
    }
    digits.insert(0, 48 + (m as u8));
    proof {
        assert(dec_digits(m as nat) == seq![(48 + m) as u8]);
        assert(dec_digits(m as nat) + digits@.drop_first() =~= digits@);
    }
    digits
}

/// Whether a byte string starts with the given prefix.
pub open spec fn starts_with(s: Seq<u8>, pre: Seq<u8>) -> bool {
    s.len() >= pre.len() && s.subrange(0, pre.len() as int) == pre
}

/// Whether a byte string starts with the given prefix.
pub fn bytes_starts_with(v: &Vec<u8>, pre: &Vec<u8>) -> (r: bool)
    ensures
        r == starts_with(v@, pre@),
{
    if v.len() < pre.len() {
        return false;
    }
    let mut k: usize = 0;
    while k < pre.len()
        invariant
            0 <= k <= pre@.len(),
            pre@.len() <= v@.len(),
            forall|j: int| 0 <= j < k ==> v@[j] == #[trigger] pre@[j],
        decreases pre@.len() - k,
    {
        if v[k] != pre[k] {
            proof {
                let t = v@.subrange(0, pre@.len() as int);
                assert(t[k as int] == v@[k as int]);
                assert(t != pre@);
            }
            return false;
        }
        k = k + 1;
    }
    proof {
        let t = v@.subrange(0, pre@.len() as int);
        assert forall|j: int| 0 <= j < t.len() implies t[j] == pre@[j] by {
            assert(t[j] == v@[j]);
        }
        assert(t =~= pre@);
    }
    true
}

/// Append a string's bytes to a valid UTF-8 buffer; the result stays
/// valid.
pub fn push_piece(out: &mut Vec<u8>, s: &str)
    requires
        valid_utf8(old(out)@),
    ensures
        final(out)@ == old(out)@ + vstd::utf8::encode_utf8(s@),
        valid_utf8(final(out)@),
{
    let ghost pre = out@;
    out.extend_from_slice(s.as_bytes());
    proof {
        vstd::utf8::encode_utf8_valid_utf8(s@);
        vstd::utf8::valid_utf8_concat(pre, vstd::utf8::encode_utf8(s@));
    }
}

/// Append valid UTF-8 bytes to a valid UTF-8 buffer; the result stays
/// valid.
pub fn push_bytes(out: &mut Vec<u8>, v: &Vec<u8>)
    requires
        valid_utf8(old(out)@),
        valid_utf8(v@),
    ensures
        final(out)@ == old(out)@ + v@,
        valid_utf8(final(out)@),
{
    let ghost pre = out@;
    out.extend_from_slice(v.as_slice());
    proof {
        vstd::utf8::valid_utf8_concat(pre, v@);
    }
}

/// Relies on `String::from_utf8`: it succeeds exactly on valid UTF-8 and
/// returns the string whose characters are the decoding of the bytes.
#[verifier::external_body]
pub(crate) fn bytes_to_string(v: Vec<u8>) -> (r: Option<String>)
    ensures
        match r {
            Some(s) => valid_utf8(v@) && s@ == decode_utf8(v@),
            None => !valid_utf8(v@),
        },
{
    String::from_utf8(v).ok()
}

} // verus!
