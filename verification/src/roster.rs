//! Tabular roster parsing: CSV and HTML-table sources are turned into a
//! validated, deduplicated member list sorted ascending by callsign.
//!
//! Row validation and deduplication are specified by [`csv_row_member`],
//! [`html_row_member`] and the recursive [`kept_members`], which processes
//! row outcomes in order with a set of already-seen callsigns; the parsers
//! return exactly those members, in sorted order.

use vstd::prelude::*;
use vstd::string::StrSliceExecFns;

use crate::member::{valid_callsign, valid_callsign_bytes, str_bytes, Member, MemberView};
use crate::text::{
    lex_lt, trim_chars, trim_str, upper_bytes, lower_bytes, upper_vec, lower_vec, bytes_lt,
    bytes_eq, parses_as_u32, parsed_u32, dec_digits, parse_u32_bytes, u64_to_dec,
    lemma_lex_connected, lemma_lex_transitive,
};

verus! {

/// The prefix of a character string before its first slash; the whole
/// string if it has none.
pub open spec fn before_slash_chars(s: Seq<char>) -> Seq<char>
    decreases s.len(),
{
    if s.len() == 0 {
        s
    } else if s[0] == '/' {
        Seq::empty()
    } else {
        seq![s[0]] + before_slash_chars(s.drop_first())
    }
}

/// Whether a byte string ends with the given suffix.
pub open spec fn ends_with(s: Seq<u8>, suf: Seq<u8>) -> bool {
    s.len() >= suf.len() && s.subrange(s.len() - suf.len(), s.len() as int) == suf
}

proof fn lemma_before_slash_chars_at(s: Seq<char>, i: int)
    requires
        0 <= i <= s.len(),
        forall|k: int| 0 <= k < i ==> s[k] != '/',
        i == s.len() || s[i] == '/',
    ensures
        before_slash_chars(s) == s.subrange(0, i),
    decreases i,
{
    if i == 0 {
        if s.len() == 0 {
            assert(s.subrange(0, 0) =~= s);
        } else {
            assert(s[0] == '/');
            assert(s.subrange(0, 0) =~= Seq::<char>::empty());
        }
    } else {
        assert(s[0] != '/');
        lemma_before_slash_chars_at(s.drop_first(), i - 1);
        assert(s.drop_first().subrange(0, i - 1) =~= s.subrange(1, i));
        assert(seq![s[0]] + s.subrange(1, i) =~= s.subrange(0, i));
    }
}

/// The prefix of a string before its first slash, by character position.
fn str_before_slash(s: &str) -> (r: &str)
    ensures
        r@ == before_slash_chars(s@),
{
    let n = s.unicode_len();
    let mut i: usize = 0;
    while i < n && s.get_char(i) != '/'
        invariant
            0 <= i <= n == s@.len(),
            forall|k: int| 0 <= k < i ==> s@[k] != '/',
        decreases n - i,
    {
        i = i + 1;
    }
    proof {
        lemma_before_slash_chars_at(s@, i as int);
    }
    s.substring_char(0, i)
}

/// Whether a byte string ends with the given suffix.
pub fn bytes_ends_with(v: &Vec<u8>, suf: &Vec<u8>) -> (r: bool)
    ensures
        r == ends_with(v@, suf@),
{
    if v.len() < suf.len() {
        return false;
    }
    let off = v.len() - suf.len();
    let mut k: usize = 0;
    while k < suf.len()
        invariant
            0 <= k <= suf@.len(),
            suf@.len() <= v@.len(),
            v@.len() <= usize::MAX,
            off == v@.len() - suf@.len(),
            forall|j: int| 0 <= j < k ==> v@[off + j] == #[trigger] suf@[j],
        decreases suf@.len() - k,
    {
        if v[off + k] != suf[k] {
            proof {
                let t = v@.subrange(v@.len() - suf@.len(), v@.len() as int);
                assert(t[k as int] == v@[off + k]);
                assert(t != suf@);
            }
            return false;
        }
        k = k + 1;
    }
    proof {
        let t = v@.subrange(v@.len() - suf@.len(), v@.len() as int);
        assert forall|j: int| 0 <= j < t.len() implies t[j] == suf@[j] by {
            assert(t[j] == v@[off + j]);
        }
        assert(t =~= suf@);
    }
    true
}

/// The set of callsigns appearing in a list of member views.
pub open spec fn key_set(ms: Seq<MemberView>) -> Set<Seq<u8>> {
    Set::new(|cs: Seq<u8>| exists|j: int| 0 <= j < ms.len() && (#[trigger] ms[j]).callsign == cs)
}

/// Strictly sorted ascending by callsign (hence callsigns are unique).
pub open spec fn sorted_by_callsign(ms: Seq<MemberView>) -> bool {
    forall|i: int, j: int|
        0 <= i < j < ms.len() ==> lex_lt((#[trigger] ms[i]).callsign, (#[trigger] ms[j]).callsign)
}

/// The member views of a member list.
pub open spec fn views_of(ms: Seq<Member>) -> Seq<MemberView> {
    ms.map_values(|m: Member| m.v())
}

/// Whether a member's callsign strictly precedes the given key.
fn member_before_key(m: &Member, key: &Vec<u8>) -> (r: bool)
    ensures
        r == lex_lt(str_bytes(m.callsign@), key@),
{
    let c = m.callsign.as_str().as_bytes_vec();
    bytes_lt(&c, key)
}

/// Whether the given key strictly precedes a member's callsign.
pub(crate) fn key_before_member(key: &Vec<u8>, m: &Member) -> (r: bool)
    ensures
        r == lex_lt(key@, str_bytes(m.callsign@)),
{
    let c = m.callsign.as_str().as_bytes_vec();
    bytes_lt(key, &c)
}

/// Insert a member into a list kept strictly sorted by callsign; a member
/// whose callsign is already present is not inserted (first occurrence
/// wins).
fn insert_member(members: &mut Vec<Member>, m: Member) -> (inserted: bool)
    requires
        sorted_by_callsign(views_of(old(members)@)),
    ensures
        sorted_by_callsign(views_of(final(members)@)),
        inserted == !key_set(views_of(old(members)@)).contains(m.v().callsign),
        inserted ==> exists|p: int|
            0 <= p <= old(members)@.len() && final(members)@ =~= old(members)@.insert(p, m),
        !inserted ==> final(members)@ == old(members)@,
        inserted ==> key_set(views_of(final(members)@)) =~= key_set(
            views_of(old(members)@),
        ).insert(m.v().callsign),
        forall|x: MemberView|
            views_of(final(members)@).contains(x) <==> views_of(old(members)@).contains(x) || (
            inserted && x == m.v()),
{
    let ghost old_ms = members@;
    let ghost mv = m.v();
    let key = m.callsign.as_str().as_bytes_vec();
    assert(key@ == mv.callsign);
    let mut i: usize = 0;
    while i < members.len() && member_before_key(&members[i], &key)
        invariant
            0 <= i <= members@.len(),
            members@ == old_ms,
            key@ == mv.callsign,
            forall|k: int|
                0 <= k < i ==> lex_lt((#[trigger] views_of(members@)[k]).callsign, mv.callsign),
            sorted_by_callsign(views_of(members@)),
        decreases members@.len() - i,
    {
        proof {
            assert(views_of(members@)[i as int] == members@[i as int].v());
        }
        i = i + 1;
    }
    let ghost vs = views_of(old_ms);
    if i < members.len() {
        let c = members[i].callsign.as_str().as_bytes_vec();
        assert(c@ == vs[i as int].callsign);
        if bytes_eq(&c, &key) {
            proof {
                assert(vs[i as int].callsign == mv.callsign);
                assert(key_set(vs).contains(mv.callsign));
            }
            return false;
        }
        proof {
            lemma_lex_connected(vs[i as int].callsign, mv.callsign);
            assert(lex_lt(mv.callsign, vs[i as int].callsign));
        }
    }
    proof {
        // every member at or after position i is strictly greater
        assert forall|k: int| i <= k < vs.len() implies lex_lt(
            mv.callsign,
            (#[trigger] vs[k]).callsign,
        ) by {
            assert(lex_lt(mv.callsign, vs[i as int].callsign));
            if k > i {
                assert(lex_lt(vs[i as int].callsign, vs[k].callsign));
                lemma_lex_transitive(mv.callsign, vs[i as int].callsign, vs[k].callsign);
            }
        }
        // hence the callsign is not present
        assert forall|k: int| 0 <= k < vs.len() implies (#[trigger] vs[k]).callsign != mv.callsign
            by {
            if k < i {
                lemma_lex_connected(vs[k].callsign, mv.callsign);
            } else {
                lemma_lex_connected(mv.callsign, vs[k].callsign);
            }
        }
        assert(!key_set(vs).contains(mv.callsign));
    }
    members.insert(i, m);
    proof {
        let new_vs = views_of(members@);
        assert(members@ =~= old_ms.insert(i as int, m));
        assert(new_vs.len() == vs.len() + 1);
        assert forall|k: int| 0 <= k < new_vs.len() implies #[trigger] new_vs[k] == (if k < i {
            vs[k]
        } else if k == i {
            mv
        } else {
            vs[k - 1]
        }) by {
            assert(new_vs[k] == members@[k].v());
        }
        assert(sorted_by_callsign(new_vs));
        assert forall|x: MemberView| new_vs.contains(x) implies vs.contains(x) || x == mv by {
            let k = choose|k: int| 0 <= k < new_vs.len() && new_vs[k] == x;
            if k < i {
                assert(vs[k] == x);
            } else if k > i {
                assert(vs[k - 1] == x);
            }
        }
        assert forall|x: MemberView| vs.contains(x) implies new_vs.contains(x) by {
            let k = choose|k: int| 0 <= k < vs.len() && vs[k] == x;
            if k < i {
                assert(new_vs[k] == x);
            } else {
                assert(new_vs[k + 1] == x);
            }
        }
        assert(new_vs.contains(mv)) by {
            assert(new_vs[i as int] == mv);
        }
        assert forall|cs: Seq<u8>| #[trigger] key_set(new_vs).contains(cs) implies key_set(
            vs,
        ).insert(mv.callsign).contains(cs) by {
            let k = choose|k: int| 0 <= k < new_vs.len() && new_vs[k].callsign == cs;
            if k < i {
                assert(vs[k].callsign == cs);
            } else if k > i {
                assert(vs[k - 1].callsign == cs);
            }
        }
        assert forall|cs: Seq<u8>| key_set(vs).insert(mv.callsign).contains(cs) implies #[trigger]
        key_set(new_vs).contains(cs) by {
            if cs == mv.callsign {
                assert(new_vs[i as int].callsign == cs);
            } else {
                let k = choose|k: int| 0 <= k < vs.len() && vs[k].callsign == cs;
                if k < i {
                    assert(new_vs[k].callsign == cs);
                } else {
                    assert(new_vs[k + 1].callsign == cs);
                }
            }
        }
    }
    true
}

/// Row outcomes: `Some` holds the member a row yields before
/// deduplication; `None` is a skipped row.
///
/// The members kept from a row sequence, in row order: each `Some` row
/// whose callsign was not seen before contributes its member, and marks
/// the callsign as seen (first occurrence wins).
pub open spec fn kept_members(os: Seq<Option<MemberView>>, seen: Set<Seq<u8>>) -> Seq<MemberView>
    decreases os.len(),
{
    if os.len() == 0 {
        Seq::empty()
    } else {
        match os[0] {
            Some(m) => {
                let rest = kept_members(os.drop_first(), seen.insert(m.callsign));
                if seen.contains(m.callsign) {
                    rest
                } else {
                    seq![m] + rest
                }
            },
            None => kept_members(os.drop_first(), seen),
        }
    }
}

/// The seen-callsign set after processing a row sequence.
pub open spec fn seen_after(os: Seq<Option<MemberView>>, seen: Set<Seq<u8>>) -> Set<Seq<u8>>
    decreases os.len(),
{
    if os.len() == 0 {
        seen
    } else {
        match os[0] {
            Some(m) => seen_after(os.drop_first(), seen.insert(m.callsign)),
            None => seen_after(os.drop_first(), seen),
        }
    }
}

/// Processing one more row appends its contribution, and extends the seen
/// set by its callsign if it yields a member.
pub proof fn lemma_kept_snoc(os: Seq<Option<MemberView>>, o: Option<MemberView>, seen: Set<Seq<u8>>)
    ensures
        kept_members(os.push(o), seen) == kept_members(os, seen) + (match o {
            Some(m) => if seen_after(os, seen).contains(m.callsign) {
                Seq::<MemberView>::empty()
            } else {
                seq![m]
            },
            None => Seq::<MemberView>::empty(),
        }),
        seen_after(os.push(o), seen) == (match o {
            Some(m) => seen_after(os, seen).insert(m.callsign),
            None => seen_after(os, seen),
        }),
    decreases os.len(),
{
    if os.len() == 0 {
        let single = os.push(o);
        let nil = Seq::<Option<MemberView>>::empty();
        assert(single.len() == 1);
        assert(single[0] == o);
        assert(single.drop_first() =~= nil);
        assert(kept_members(os, seen) == Seq::<MemberView>::empty());
        assert(seen_after(os, seen) == seen);
        match o {
            Some(m) => {
                assert(kept_members(nil, seen.insert(m.callsign)) == Seq::<MemberView>::empty());
                assert(seen_after(nil, seen.insert(m.callsign)) == seen.insert(m.callsign));
                if seen.contains(m.callsign) {
                    assert(kept_members(single, seen) == kept_members(
                        nil,
                        seen.insert(m.callsign),
                    ));
                    assert(kept_members(os, seen) + Seq::<MemberView>::empty()
                        =~= Seq::<MemberView>::empty());
                } else {
                    assert(kept_members(single, seen) == seq![m] + kept_members(
                        nil,
                        seen.insert(m.callsign),
                    ));
                    assert(seq![m] + Seq::<MemberView>::empty() =~= seq![m]);
                    assert(kept_members(os, seen) + seq![m] =~= seq![m]);
                }
                assert(seen_after(single, seen) == seen_after(nil, seen.insert(m.callsign)));
            },
            None => {
                assert(kept_members(single, seen) == kept_members(nil, seen));
                assert(kept_members(nil, seen) == Seq::<MemberView>::empty());
                assert(kept_members(os, seen) + Seq::<MemberView>::empty()
                    =~= Seq::<MemberView>::empty());
                assert(seen_after(single, seen) == seen_after(nil, seen));
            },
        }
    } else {
        let ext = os.push(o);
        assert(ext[0] == os[0]);
        assert(ext.drop_first() =~= os.drop_first().push(o));
        match os[0] {
            Some(m) => {
                let seen1 = seen.insert(m.callsign);
                lemma_kept_snoc(os.drop_first(), o, seen1);
                assert(seen_after(os, seen) == seen_after(os.drop_first(), seen1));
                let tail = kept_members(os.drop_first(), seen1);
                let extra = match o {
                    Some(m2) => if seen_after(os.drop_first(), seen1).contains(m2.callsign) {
                        Seq::<MemberView>::empty()
                    } else {
                        seq![m2]
                    },
                    None => Seq::<MemberView>::empty(),
                };
                assert(kept_members(os.drop_first().push(o), seen1) == tail + extra);
                if seen.contains(m.callsign) {
                    assert(kept_members(ext, seen) == tail + extra);
                    assert(kept_members(os, seen) == tail);
                } else {
                    assert(kept_members(ext, seen) == seq![m] + (tail + extra));
                    assert(kept_members(os, seen) == seq![m] + tail);
                    assert(seq![m] + (tail + extra) =~= (seq![m] + tail) + extra);
                }
            },
            None => {
                lemma_kept_snoc(os.drop_first(), o, seen);
                assert(kept_members(ext, seen) == kept_members(os.drop_first().push(o), seen));
                assert(seen_after(ext, seen) == seen_after(os.drop_first().push(o), seen));
            },
        }
    }
}

/// A list extended at the end contains an element exactly when the list
/// contains it or it is the new last element.
proof fn lemma_snoc_contains(s: Seq<MemberView>, m: MemberView, x: MemberView)
    ensures
        (s + seq![m]).contains(x) <==> s.contains(x) || x == m,
{
    let w = s + seq![m];
    if s.contains(x) {
        let j = choose|j: int| 0 <= j < s.len() && s[j] == x;
        assert(w[j] == x);
    }
    if x == m {
        assert(w[s.len() as int] == x);
    }
    if w.contains(x) {
        let j = choose|j: int| 0 <= j < w.len() && w[j] == x;
        if j < s.len() {
            assert(s[j] == x);
        } else {
            assert(w[j] == m);
        }
    }
}

/// The member a CSV data row yields, before deduplication: the callsign
/// cell trimmed and uppercased must be a non-empty grammatical callsign,
/// and the number cell must parse as a `u32`, which becomes the member
/// number in canonical decimal form.
pub open spec fn csv_row_member(row: Seq<Seq<char>>, c: int, q: int) -> Option<MemberView> {
    if row.len() <= c {
        None
    } else {
        let cs = upper_bytes(str_bytes(trim_chars(row[c])));
        if cs.len() == 0 {
            None
        } else if !valid_callsign(cs) {
            None
        } else if row.len() <= q {
            None
        } else {
            let t = str_bytes(trim_chars(row[q]));
            if parses_as_u32(t) {
                Some(
                    MemberView {
                        callsign: cs,
                        member_id: dec_digits(parsed_u32(t)),
                        nickname: None,
                    },
                )
            } else {
                None
            }
        }
    }
}

/// The member an HTML table row yields, before deduplication: rows without
/// cells (header rows) and rows with too few cells are skipped; a trimmed,
/// uppercased callsign cell ending in the Silent Key marker `/SK` drops
/// the row; otherwise everything after a first slash is stripped, the
/// remainder must be a grammatical callsign, and the member number is the
/// trimmed, non-empty text of the number cell.
pub open spec fn html_row_member(row: Seq<Seq<char>>, ci: int, ni: int) -> Option<MemberView> {
    if row.len() == 0 {
        None
    } else if row.len() <= ci || row.len() <= ni {
        None
    } else {
        let up = upper_bytes(str_bytes(trim_chars(row[ci])));
        if ends_with(up, str_bytes("/SK"@)) {
            None
        } else {
            let cs = upper_bytes(str_bytes(trim_chars(before_slash_chars(trim_chars(row[ci])))));
            if cs.len() == 0 {
                None
            } else if !valid_callsign(cs) {
                None
            } else {
                let id = str_bytes(trim_chars(row[ni]));
                if id.len() == 0 {
                    None
                } else {
                    Some(MemberView { callsign: cs, member_id: id, nickname: None })
                }
            }
        }
    }
}

/// A header cell naming the callsign column, compared case-insensitively
/// after trimming.
pub open spec fn callsign_header(h: Seq<char>) -> bool {
    let t = lower_bytes(str_bytes(trim_chars(h)));
    t == str_bytes("call"@) || t == str_bytes("callsign"@) || t == str_bytes("call sign"@)
}

/// A header cell naming the member-number column, compared
/// case-insensitively after trimming.
pub open spec fn number_header(h: Seq<char>) -> bool {
    let t = lower_bytes(str_bytes(trim_chars(h)));
    t == str_bytes("qc #"@) || t == str_bytes("qc#"@) || t == str_bytes("qc number"@) || t
        == str_bytes("number"@) || t == str_bytes("#"@)
}

/// The first index whose header cell names the callsign column.
pub open spec fn first_callsign_idx(hs: Seq<Seq<char>>) -> Option<int>
    decreases hs.len(),
{
    if hs.len() == 0 {
        None
    } else if callsign_header(hs[0]) {
        Some(0)
    } else {
        match first_callsign_idx(hs.drop_first()) {
            Some(i) => Some(i + 1),
            None => None,
        }
    }
}

/// The first index whose header cell names the member-number column.
pub open spec fn first_number_idx(hs: Seq<Seq<char>>) -> Option<int>
    decreases hs.len(),
{
    if hs.len() == 0 {
        None
    } else if number_header(hs[0]) {
        Some(0)
    } else {
        match first_number_idx(hs.drop_first()) {
            Some(i) => Some(i + 1),
            None => None,
        }
    }
}

proof fn lemma_first_callsign_idx_at(hs: Seq<Seq<char>>, i: int)
    requires
        0 <= i <= hs.len(),
        forall|k: int| 0 <= k < i ==> !callsign_header(#[trigger] hs[k]),
        i == hs.len() || callsign_header(hs[i]),
    ensures
        first_callsign_idx(hs) == (if i == hs.len() {
            Option::<int>::None
        } else {
            Option::<int>::Some(i)
        }),
    decreases hs.len(),
{
    if hs.len() == 0 {
    } else if i == 0 {
    } else {
        assert(!callsign_header(hs[0]));
        lemma_first_callsign_idx_at(hs.drop_first(), i - 1);
    }
}

proof fn lemma_first_number_idx_at(hs: Seq<Seq<char>>, i: int)
    requires
        0 <= i <= hs.len(),
        forall|k: int| 0 <= k < i ==> !number_header(#[trigger] hs[k]),
        i == hs.len() || number_header(hs[i]),
    ensures
        first_number_idx(hs) == (if i == hs.len() {
            Option::<int>::None
        } else {
            Option::<int>::Some(i)
        }),
    decreases hs.len(),
{
    if hs.len() == 0 {
    } else if i == 0 {
    } else {
        assert(!number_header(hs[0]));
        lemma_first_number_idx_at(hs.drop_first(), i - 1);
    }
}

/// The resolved callsign column: the first header cell matching a
/// recognized name; resolution fails when none matches.
pub open spec fn find_callsign_col(hs: Seq<Seq<char>>) -> Option<int> {
    first_callsign_idx(hs)
}

/// The resolved member-number column: the first matching header by name.
pub open spec fn find_qc_col(hs: Seq<Seq<char>>) -> Option<int> {
    first_number_idx(hs)
}

/// The character view of an optional string.
pub open spec fn opt_view(s: Option<String>) -> Option<Seq<char>> {
    match s {
        Some(x) => Some(x@),
        None => None,
    }
}

/// The key a configured column selector matches under: its trimmed,
/// lowercased bytes.
pub open spec fn sel_key(n: Seq<char>) -> Seq<u8> {
    lower_bytes(str_bytes(trim_chars(n)))
}

/// A header cell matching a configured selector, compared
/// case-insensitively after trimming.
pub open spec fn named_header(h: Seq<char>, key: Seq<u8>) -> bool {
    lower_bytes(str_bytes(trim_chars(h))) == key
}

/// The first index whose header cell matches the configured selector.
pub open spec fn first_named_idx(hs: Seq<Seq<char>>, key: Seq<u8>) -> Option<int>
    decreases hs.len(),
{
    if hs.len() == 0 {
        None
    } else if named_header(hs[0], key) {
        Some(0)
    } else {
        match first_named_idx(hs.drop_first(), key) {
            Some(i) => Some(i + 1),
            None => None,
        }
    }
}

proof fn lemma_first_named_idx_at(hs: Seq<Seq<char>>, key: Seq<u8>, i: int)
    requires
        0 <= i <= hs.len(),
        forall|k: int| 0 <= k < i ==> !named_header(#[trigger] hs[k], key),
        i == hs.len() || named_header(hs[i], key),
    ensures
        first_named_idx(hs, key) == (if i == hs.len() {
            Option::<int>::None
        } else {
            Option::<int>::Some(i)
        }),
    decreases hs.len(),
{
    if hs.len() == 0 {
    } else if i == 0 {
    } else {
        assert(!named_header(hs[0], key));
        lemma_first_named_idx_at(hs.drop_first(), key, i - 1);
    }
}

/// The resolved callsign column: the configured selector where one is
/// set, the recognized names otherwise.
pub open spec fn csv_cs_col(hs: Seq<Seq<char>>, sel: Option<Seq<char>>) -> Option<int> {
    match sel {
        Some(n) => first_named_idx(hs, sel_key(n)),
        None => find_callsign_col(hs),
    }
}

/// The resolved member-number column: the configured selector where one
/// is set, the recognized names otherwise.
pub open spec fn csv_num_col(hs: Seq<Seq<char>>, sel: Option<Seq<char>>) -> Option<int> {
    match sel {
        Some(n) => first_named_idx(hs, sel_key(n)),
        None => find_qc_col(hs),
    }
}

/// Why a CSV roster cannot be parsed; each case is fatal for the
/// organization's pass only.
#[derive(Debug, PartialEq, Eq, Structural, Clone, Copy)]
pub enum ParseError {
    /// Fewer rows than the configured number of metadata rows to skip.
    MissingHeader,
    /// No callsign column matches any of the recognized names or the
    /// configured selector.
    MissingCallsignColumn,
    /// No member-number column matches any of the recognized names.
    MissingNumberColumn,
}

/// Runtime test for [`callsign_header`].
fn is_callsign_header(h: &String) -> (r: bool)
    ensures
        r == callsign_header(h@),
{
    let t = lower_vec(&trim_str(h.as_str()).as_str().as_bytes_vec());
    bytes_eq(&t, &"call".as_bytes_vec()) || bytes_eq(&t, &"callsign".as_bytes_vec()) || bytes_eq(
        &t,
        &"call sign".as_bytes_vec(),
    )
}

/// Runtime test for [`number_header`].
fn is_number_header(h: &String) -> (r: bool)
    ensures
        r == number_header(h@),
{
    let t = lower_vec(&trim_str(h.as_str()).as_str().as_bytes_vec());
    bytes_eq(&t, &"qc #".as_bytes_vec()) || bytes_eq(&t, &"qc#".as_bytes_vec()) || bytes_eq(
        &t,
        &"qc number".as_bytes_vec(),
    ) || bytes_eq(&t, &"number".as_bytes_vec()) || bytes_eq(&t, &"#".as_bytes_vec())
}

/// What holds of every member a parser emits: a grammatical callsign, a
/// non-empty member number, and no nickname yet.
pub open spec fn parsed_view_ok(x: MemberView) -> bool {
    &&& valid_callsign(x.callsign)
    &&& x.member_id.len() > 0
    &&& x.nickname is None
}

/// Turn one CSV data record into a member, or `None` for a skipped row.
fn csv_row_to_member(rec: &Vec<String>, c: usize, q: usize) -> (r: Option<Member>)
    ensures
        match r {
            Some(m) => csv_row_member(rec.deep_view(), c as int, q as int) == Some(m.v())
                && parsed_view_ok(m.v()),
            None => csv_row_member(rec.deep_view(), c as int, q as int) is None,
        },
{
    let ghost row = rec.deep_view();
    proof {
        assert(row.len() == rec@.len());
    }
    if c >= rec.len() {
        return None;
    }
    proof {
        assert(row[c as int] == rec@[c as int]@);
    }
    let cs_vec = upper_vec(&trim_str(rec[c].as_str()).as_str().as_bytes_vec());
    assert(cs_vec@ == upper_bytes(str_bytes(trim_chars(row[c as int]))));
    if cs_vec.len() == 0 {
        return None;
    }
    if !valid_callsign_bytes(&cs_vec) {
        return None;
    }
    if q >= rec.len() {
        return None;
    }
    proof {
        assert(row[q as int] == rec@[q as int]@);
    }
    let t = trim_str(rec[q].as_str()).as_str().as_bytes_vec();
    assert(t@ == str_bytes(trim_chars(row[q as int])));
    let n = match parse_u32_bytes(&t) {
        Some(n) => n,
        None => {
            return None;
        },
    };
    let id_vec = u64_to_dec(n as u64);
    let ghost csb = cs_vec@;
    let ghost idb = id_vec@;
    proof {
        crate::member::lemma_valid_callsign_ascii(csb);
        crate::text::lemma_ascii_valid_utf8(csb);
        crate::text::lemma_dec_digits_props(n as nat);
        assert(crate::text::all_ascii(idb));
        crate::text::lemma_ascii_valid_utf8(idb);
    }
    let callsign = crate::text::string_from_bytes(cs_vec);
    let member_id = crate::text::string_from_bytes(id_vec);
    proof {
        vstd::utf8::decode_utf8_encode_utf8(csb);
        vstd::utf8::decode_utf8_encode_utf8(idb);
    }
    let m = Member { callsign, member_id, nickname: None };
    proof {
        assert(m.v().callsign == csb);
        assert(m.v().member_id == idb);
        assert(idb == dec_digits(parsed_u32(t@)));
    }
    Some(m)
}

/// Turn one HTML table row into a member, or `None` for a skipped row.
fn html_row_to_member(rec: &Vec<String>, ci: usize, ni: usize) -> (r: Option<Member>)
    ensures
        match r {
            Some(m) => html_row_member(rec.deep_view(), ci as int, ni as int) == Some(m.v())
                && parsed_view_ok(m.v()),
            None => html_row_member(rec.deep_view(), ci as int, ni as int) is None,
        },
{
    let ghost row = rec.deep_view();
    proof {
        assert(row.len() == rec@.len());
    }
    if rec.len() == 0 {
        return None;
    }
    if ci >= rec.len() || ni >= rec.len() {
        return None;
    }
    proof {
        assert(row[ci as int] == rec@[ci as int]@);
        assert(row[ni as int] == rec@[ni as int]@);
    }
    let cell = trim_str(rec[ci].as_str());
    assert(cell@ == trim_chars(row[ci as int]));
    let up = upper_vec(&cell.as_str().as_bytes_vec());
    assert(up@ == upper_bytes(str_bytes(trim_chars(row[ci as int]))));
    if bytes_ends_with(&up, &"/SK".as_bytes_vec()) {
        return None;
    }
    let prefix = trim_str(str_before_slash(cell.as_str()));
    let cs_vec = upper_vec(&prefix.as_str().as_bytes_vec());
    assert(cs_vec@ == upper_bytes(
        str_bytes(trim_chars(before_slash_chars(trim_chars(row[ci as int])))),
    ));
    if cs_vec.len() == 0 {
        return None;
    }
    if !valid_callsign_bytes(&cs_vec) {
        return None;
    }
    let member_id = crate::text::trim_str(rec[ni].as_str());
    assert(member_id@ == trim_chars(row[ni as int]));
    let id_bytes = member_id.as_str().as_bytes_vec();
    assert(id_bytes@ == str_bytes(trim_chars(row[ni as int])));
    if id_bytes.len() == 0 {
        return None;
    }
    let ghost csb = cs_vec@;
    proof {
        crate::member::lemma_valid_callsign_ascii(csb);
        crate::text::lemma_ascii_valid_utf8(csb);
    }
    let callsign = crate::text::string_from_bytes(cs_vec);
    proof {
        vstd::utf8::decode_utf8_encode_utf8(csb);
    }
    let m = Member { callsign, member_id, nickname: None };
    proof {
        assert(m.v().callsign == csb);
    }
    Some(m)
}

/// The row outcomes of the CSV data rows (everything after the header).
pub open spec fn csv_outcomes(rs: Seq<Seq<Seq<char>>>, skip: int, c: int, q: int) -> Seq<
    Option<MemberView>,
> {
    rs.skip(skip + 1).map_values(|row: Seq<Seq<char>>| csv_row_member(row, c, q))
}

/// The row outcomes of the HTML table rows.
pub open spec fn html_outcomes(rs: Seq<Seq<Seq<char>>>, ci: int, ni: int) -> Seq<
    Option<MemberView>,
> {
    rs.map_values(|row: Seq<Seq<char>>| html_row_member(row, ci, ni))
}

/// The error a CSV record list yields, if any: the header row must exist
/// past the skipped metadata rows, and both columns must resolve.
pub open spec fn csv_error(
    rs: Seq<Seq<Seq<char>>>,
    skip: int,
    cs_sel: Option<Seq<char>>,
    num_sel: Option<Seq<char>>,
) -> Option<ParseError> {
    if rs.len() <= skip {
        Some(ParseError::MissingHeader)
    } else if csv_cs_col(rs[skip], cs_sel) is None {
        Some(ParseError::MissingCallsignColumn)
    } else if csv_num_col(rs[skip], num_sel) is None {
        Some(ParseError::MissingNumberColumn)
    } else {
        None
    }
}

/// A correctly parsed roster: strictly sorted by callsign (hence free of
/// duplicate callsigns), every member well formed, and containing exactly
/// the members that row-by-row validation and first-wins deduplication
/// keep.
pub open spec fn parse_ok(ms: Seq<MemberView>, os: Seq<Option<MemberView>>) -> bool {
    &&& sorted_by_callsign(ms)
    &&& forall|i: int, j: int| 0 <= i < j < ms.len() ==> (#[trigger] ms[i]).callsign != (
    #[trigger] ms[j]).callsign
    &&& forall|i: int| 0 <= i < ms.len() ==> parsed_view_ok(#[trigger] ms[i])
    &&& forall|x: MemberView| ms.contains(x) <==> kept_members(os, Set::empty()).contains(x)
}

/// Parse CSV records: skip the configured metadata rows, resolve both
/// columns against the header row, then validate, deduplicate and sort
/// the data rows.
pub fn csv_members_from_records(
    records: &Vec<Vec<String>>,
    skip_rows: usize,
    callsign_column: &Option<String>,
    number_column: &Option<String>,
) -> (r: Result<Vec<Member>, ParseError>)
    ensures
        ({
            let rs = records.deep_view();
            let cs_sel = opt_view(*callsign_column);
            let num_sel = opt_view(*number_column);
            match r {
                Err(e) => csv_error(rs, skip_rows as int, cs_sel, num_sel) == Some(e),
                Ok(ms) => {
                    let hdr = rs[skip_rows as int];
                    let c = csv_cs_col(hdr, cs_sel)->0;
                    let q = csv_num_col(hdr, num_sel)->0;
                    &&& csv_error(rs, skip_rows as int, cs_sel, num_sel) is None
                    &&& parse_ok(views_of(ms@), csv_outcomes(rs, skip_rows as int, c, q))
                },
            }
        }),
{
    let ghost rs = records.deep_view();
    proof {
        assert(rs.len() == records@.len());
    }
    if records.len() <= skip_rows {
        return Err(ParseError::MissingHeader);
    }
    let header = &records[skip_rows];
    proof {
        assert(header.deep_view() == rs[skip_rows as int]);
    }
    let c_opt = match callsign_column {
        Some(name) => find_named_column_in(header, name),
        None => find_callsign_column_in(header),
    };
    let c = match c_opt {
        Some(c) => c,
        None => {
            return Err(ParseError::MissingCallsignColumn);
        },
    };
    let q_opt = match number_column {
        Some(name) => find_named_column_in(header, name),
        None => find_qc_number_column_in(header),
    };
    let q = match q_opt {
        Some(q) => q,
        None => {
            return Err(ParseError::MissingNumberColumn);
        },
    };
    let ghost os = csv_outcomes(rs, skip_rows as int, c as int, q as int);
    proof {
        assert(os.len() == rs.len() - (skip_rows + 1));
    }
    let ds = skip_rows + 1;
    let mut members: Vec<Member> = Vec::new();
    let mut idx: usize = ds;
    proof {
        assert(os.subrange(0, 0) =~= Seq::<Option<MemberView>>::empty());
        assert(views_of(members@) =~= Seq::<MemberView>::empty());
        assert(key_set(views_of(members@)) =~= Set::<Seq<u8>>::empty());
    }
    while idx < records.len()
        invariant
            ds == skip_rows + 1,
            ds <= idx <= records@.len(),
            rs == records.deep_view(),
            rs.len() == records@.len(),
            os == csv_outcomes(rs, skip_rows as int, c as int, q as int),
            os.len() == rs.len() - ds,
            sorted_by_callsign(views_of(members@)),
            forall|x: MemberView|
                views_of(members@).contains(x) <==> kept_members(
                    os.subrange(0, idx - ds),
                    Set::empty(),
                ).contains(x),
            key_set(views_of(members@)) == seen_after(os.subrange(0, idx - ds), Set::empty()),
            forall|x: MemberView| views_of(members@).contains(x) ==> parsed_view_ok(x),
        decreases records@.len() - idx,
    {
        let ghost k = idx - ds;
        let ghost prev = os.subrange(0, k as int);
        proof {
            assert(rs.skip(skip_rows + 1)[k as int] == rs[idx as int]);
            assert(os[k as int] == csv_row_member(rs[idx as int], c as int, q as int));
            assert(os.subrange(0, k + 1) =~= prev.push(os[k as int]));
        }
        let rec = &records[idx];
        proof {
            assert(rec.deep_view() == rs[idx as int]);
        }
        let outcome = csv_row_to_member(rec, c, q);
        proof {
            lemma_kept_snoc(prev, os[k as int], Set::empty());
        }
        match outcome {
            Some(m) => {
                let ghost mv = m.v();
                let ghost oldvs = views_of(members@);
                let ghost keptk = kept_members(prev, Set::empty());
                let ghost seenk = seen_after(prev, Set::empty());
                let ins = insert_member(&mut members, m);
                proof {
                    let newvs = views_of(members@);
                    let keptn = kept_members(os.subrange(0, k + 1), Set::empty());
                    let seenn = seen_after(os.subrange(0, k + 1), Set::empty());
                    assert(seenn == seenk.insert(mv.callsign));
                    assert(ins == !seenk.contains(mv.callsign));
                    if ins {
                        assert(keptn == keptk + seq![mv]);
                        assert forall|x: MemberView| newvs.contains(x) <==> keptn.contains(x) by {
                            lemma_snoc_contains(keptk, mv, x);
                        }
                        assert(key_set(newvs) =~= seenn);
                    } else {
                        assert(keptn == keptk + Seq::<MemberView>::empty());
                        assert(keptk + Seq::<MemberView>::empty() =~= keptk);
                        assert(seenk.insert(mv.callsign) =~= seenk);
                        assert(key_set(newvs) =~= seenn);
                    }
                    assert forall|x: MemberView| newvs.contains(x) implies parsed_view_ok(x) by {
                        if !(oldvs.contains(x)) {
                            assert(x == mv);
                        }
                    }
                }
            },
            None => {
                proof {
                    let keptn = kept_members(os.subrange(0, k + 1), Set::empty());
                    assert(keptn == kept_members(prev, Set::empty()) + Seq::<MemberView>::empty());
                    assert(kept_members(prev, Set::empty()) + Seq::<MemberView>::empty()
                        =~= kept_members(prev, Set::empty()));
                    assert(seen_after(os.subrange(0, k + 1), Set::empty()) == seen_after(
                        prev,
                        Set::empty(),
                    ));
                }
            },
        }
        idx = idx + 1;
    }
    proof {
        assert(os.subrange(0, os.len() as int) =~= os);
        let vs = views_of(members@);
        assert forall|i: int, j: int| 0 <= i < j < vs.len() implies (#[trigger] vs[i]).callsign
            != (#[trigger] vs[j]).callsign by {
            lemma_lex_connected(vs[i].callsign, vs[j].callsign);
        }
        assert forall|i: int| 0 <= i < vs.len() implies parsed_view_ok(#[trigger] vs[i]) by {
            assert(vs.contains(vs[i]));
        }
    }
    Ok(members)
}

/// Parse HTML table rows: validate, deduplicate and sort every row's
/// member, skipping header rows and rows with too few cells.
pub fn html_members_from_rows(rows: &Vec<Vec<String>>, ci: usize, ni: usize) -> (r: Vec<Member>)
    ensures
        parse_ok(views_of(r@), html_outcomes(rows.deep_view(), ci as int, ni as int)),
{
    let ghost rs = rows.deep_view();
    proof {
        assert(rs.len() == rows@.len());
    }
    let ghost os = html_outcomes(rs, ci as int, ni as int);
    let mut members: Vec<Member> = Vec::new();
    let mut idx: usize = 0;
    proof {
        assert(os.subrange(0, 0) =~= Seq::<Option<MemberView>>::empty());
        assert(views_of(members@) =~= Seq::<MemberView>::empty());
        assert(key_set(views_of(members@)) =~= Set::<Seq<u8>>::empty());
    }
    while idx < rows.len()
        invariant
            0 <= idx <= rows@.len(),
            rs == rows.deep_view(),
            rs.len() == rows@.len(),
            os == html_outcomes(rs, ci as int, ni as int),
            os.len() == rs.len(),
            sorted_by_callsign(views_of(members@)),
            forall|x: MemberView|
                views_of(members@).contains(x) <==> kept_members(
                    os.subrange(0, idx as int),
                    Set::empty(),
                ).contains(x),
            key_set(views_of(members@)) == seen_after(os.subrange(0, idx as int), Set::empty()),
            forall|x: MemberView| views_of(members@).contains(x) ==> parsed_view_ok(x),
        decreases rows@.len() - idx,
    {
        let ghost k = idx as int;
        let ghost prev = os.subrange(0, k);
        proof {
            assert(os[k] == html_row_member(rs[k], ci as int, ni as int));
            assert(os.subrange(0, k + 1) =~= prev.push(os[k]));
        }
        let rec = &rows[idx];
        proof {
            assert(rec.deep_view() == rs[k]);
        }
        let outcome = html_row_to_member(rec, ci, ni);
        proof {
            lemma_kept_snoc(prev, os[k], Set::empty());
        }
        match outcome {
            Some(m) => {
                let ghost mv = m.v();
                let ghost oldvs = views_of(members@);
                let ghost keptk = kept_members(prev, Set::empty());
                let ghost seenk = seen_after(prev, Set::empty());
                let ins = insert_member(&mut members, m);
                proof {
                    let newvs = views_of(members@);
                    let keptn = kept_members(os.subrange(0, k + 1), Set::empty());
                    let seenn = seen_after(os.subrange(0, k + 1), Set::empty());
                    assert(seenn == seenk.insert(mv.callsign));
                    assert(ins == !seenk.contains(mv.callsign));
                    if ins {
                        assert(keptn == keptk + seq![mv]);
                        assert forall|x: MemberView| newvs.contains(x) <==> keptn.contains(x) by {
                            lemma_snoc_contains(keptk, mv, x);
                        }
                        assert(key_set(newvs) =~= seenn);
                    } else {
                        assert(keptn == keptk + Seq::<MemberView>::empty());
                        assert(keptk + Seq::<MemberView>::empty() =~= keptk);
                        assert(seenk.insert(mv.callsign) =~= seenk);
                        assert(key_set(newvs) =~= seenn);
                    }
                    assert forall|x: MemberView| newvs.contains(x) implies parsed_view_ok(x) by {
                        if !(oldvs.contains(x)) {
                            assert(x == mv);
                        }
                    }
                }
            },
            None => {
                proof {
                    let keptn = kept_members(os.subrange(0, k + 1), Set::empty());
                    assert(keptn == kept_members(prev, Set::empty()) + Seq::<MemberView>::empty());
                    assert(kept_members(prev, Set::empty()) + Seq::<MemberView>::empty()
                        =~= kept_members(prev, Set::empty()));
                    assert(seen_after(os.subrange(0, k + 1), Set::empty()) == seen_after(
                        prev,
                        Set::empty(),
                    ));
                }
            },
        }
        idx = idx + 1;
    }
    proof {
        assert(os.subrange(0, os.len() as int) =~= os);
        let vs = views_of(members@);
        assert forall|i: int, j: int| 0 <= i < j < vs.len() implies (#[trigger] vs[i]).callsign
            != (#[trigger] vs[j]).callsign by {
            lemma_lex_connected(vs[i].callsign, vs[j].callsign);
        }
        assert forall|i: int| 0 <= i < vs.len() implies parsed_view_ok(#[trigger] vs[i]) by {
            assert(vs.contains(vs[i]));
        }
    }
    members
}

/// Find the callsign column in a header row: the first cell matching a
/// recognized name.
pub fn find_callsign_column_in(header: &Vec<String>) -> (r: Option<usize>)
    ensures
        match r {
            Some(i) => find_callsign_col(header.deep_view()) == Some(i as int),
            None => find_callsign_col(header.deep_view()) is None,
        },
{
    let ghost hs = header.deep_view();
    let mut i: usize = 0;
    while i < header.len()
        invariant
            0 <= i <= header@.len(),
            hs == header.deep_view(),
            hs.len() == header@.len(),
            forall|k: int| 0 <= k < i ==> !callsign_header(#[trigger] hs[k]),
        decreases header@.len() - i,
    {
        proof {
            assert(hs[i as int] == header@[i as int]@);
        }
        if is_callsign_header(&header[i]) {
            proof {
                lemma_first_callsign_idx_at(hs, i as int);
            }
            return Some(i);
        }
        i = i + 1;
    }
    proof {
        lemma_first_callsign_idx_at(hs, hs.len() as int);
    }
    None
}

/// Find the column matching a configured selector name, compared
/// case-insensitively after trimming.
pub fn find_named_column_in(header: &Vec<String>, name: &String) -> (r: Option<usize>)
    ensures
        match r {
            Some(i) => first_named_idx(header.deep_view(), sel_key(name@)) == Some(i as int),
            None => first_named_idx(header.deep_view(), sel_key(name@)) is None,
        },
{
    let key = lower_vec(&trim_str(name.as_str()).as_str().as_bytes_vec());
    assert(key@ == sel_key(name@));
    let ghost hs = header.deep_view();
    let mut i: usize = 0;
    while i < header.len()
        invariant
            0 <= i <= header@.len(),
            hs == header.deep_view(),
            hs.len() == header@.len(),
            key@ == sel_key(name@),
            forall|k: int| 0 <= k < i ==> !named_header(#[trigger] hs[k], key@),
        decreases header@.len() - i,
    {
        proof {
            assert(hs[i as int] == header@[i as int]@);
        }
        let cell = lower_vec(&trim_str(header[i].as_str()).as_str().as_bytes_vec());
        if bytes_eq(&cell, &key) {
            proof {
                lemma_first_named_idx_at(hs, key@, i as int);
            }
            return Some(i);
        }
        i = i + 1;
    }
    proof {
        lemma_first_named_idx_at(hs, key@, hs.len() as int);
    }
    None
}

/// Find the member-number column in a header row: the first cell matching
/// a recognized name.
pub fn find_qc_number_column_in(header: &Vec<String>) -> (r: Option<usize>)
    ensures
        match r {
            Some(i) => find_qc_col(header.deep_view()) == Some(i as int),
            None => find_qc_col(header.deep_view()) is None,
        },
{
    let ghost hs = header.deep_view();
    let mut i: usize = 0;
    while i < header.len()
        invariant
            0 <= i <= header@.len(),
            hs == header.deep_view(),
            hs.len() == header@.len(),
            forall|k: int| 0 <= k < i ==> !number_header(#[trigger] hs[k]),
        decreases header@.len() - i,
    {
        proof {
            assert(hs[i as int] == header@[i as int]@);
        }
        if is_number_header(&header[i]) {
            proof {
                lemma_first_number_idx_at(hs, i as int);
            }
            return Some(i);
        }
        i = i + 1;
    }
    proof {
        lemma_first_number_idx_at(hs, hs.len() as int);
    }
    None
}

/// The records the `csv` crate parses from a text, in order; a function
/// of the text alone.
pub uninterp spec fn csv_records_of(text: Seq<char>) -> Seq<Seq<Seq<char>>>;

/// Relies on `csv::ReaderBuilder` and `StringRecordsIter`: reading without
/// a header row yields the text's records in order; records that fail to
/// parse are dropped.
#[verifier::external_body]
fn csv_records(text: &str) -> (r: Vec<Vec<String>>)
    ensures
        r.deep_view() == csv_records_of(text@),
{
    let mut reader = csv::ReaderBuilder::new().has_headers(false).from_reader(text.as_bytes());
    let mut out: Vec<Vec<String>> = Vec::new();
    for record in reader.records() {
        if let Ok(record) = record {
            out.push(record.iter().map(|field| field.to_string()).collect());
        }
    }
    out
}

/// The text of each data cell of each roster-table row of an HTML
/// document, in document order; a function of the document alone.
pub uninterp spec fn table_rows_of(html: Seq<char>) -> Seq<Seq<Seq<char>>>;

/// Relies on `scraper::Html` and `scraper::Selector`: selecting
/// `table.skcc_table tr` and then `td` yields each row's cell texts in
/// document order (header rows using `th` yield no cells).
#[verifier::external_body]
fn table_rows(html: &str) -> (r: Vec<Vec<String>>)
    ensures
        r.deep_view() == table_rows_of(html@),
{
    let document = scraper::Html::parse_document(html);
    let row_selector = scraper::Selector::parse("table.skcc_table tr").unwrap();
    let cell_selector = scraper::Selector::parse("td").unwrap();
    let mut out: Vec<Vec<String>> = Vec::new();
    for row in document.select(&row_selector) {
        out.push(row.select(&cell_selector).map(|cell| cell.text().collect::<String>()).collect());
    }
    out
}

/// A CSV roster source: the endpoint, how many metadata rows precede the
/// header row, and optional configured column selectors that override the
/// recognized header names.
pub struct CsvFetcher {
    pub url: String,
    pub skip_rows: usize,
    pub callsign_column: Option<String>,
    pub number_column: Option<String>,
}

impl CsvFetcher {
    /// A fetcher for a CSV roster whose header row comes first, with the
    /// columns resolved by the recognized header names.
    pub fn new(url: String) -> (r: Self)
        ensures
            r.url == url,
            r.skip_rows == 0,
            r.callsign_column is None,
            r.number_column is None,
    {
        CsvFetcher { url, skip_rows: 0, callsign_column: None, number_column: None }
    }

    /// Find the callsign column in a header row.
    pub fn find_callsign_column(&self, header: &Vec<String>) -> (r: Option<usize>)
        ensures
            match r {
                Some(i) => find_callsign_col(header.deep_view()) == Some(i as int),
                None => find_callsign_col(header.deep_view()) is None,
            },
    {
        find_callsign_column_in(header)
    }

    /// Find the member-number column in a header row.
    pub fn find_qc_number_column(&self, header: &Vec<String>) -> (r: Option<usize>)
        ensures
            match r {
                Some(i) => find_qc_col(header.deep_view()) == Some(i as int),
                None => find_qc_col(header.deep_view()) is None,
            },
    {
        find_qc_number_column_in(header)
    }

    /// Decide the callsign grammar.
    pub fn is_valid_callsign(&self, s: &str) -> (r: bool)
        ensures
            r == valid_callsign(str_bytes(s@)),
    {
        crate::member::is_valid_callsign_str(s)
    }

    /// Parse fetched CSV text into the sorted, deduplicated member list.
    pub fn parse_csv(&self, text: &str) -> (r: Result<Vec<Member>, ParseError>)
        ensures
            ({
                let rs = csv_records_of(text@);
                let cs_sel = opt_view(self.callsign_column);
                let num_sel = opt_view(self.number_column);
                match r {
                    Err(e) => csv_error(rs, self.skip_rows as int, cs_sel, num_sel) == Some(e),
                    Ok(ms) => {
                        let hdr = rs[self.skip_rows as int];
                        let c = csv_cs_col(hdr, cs_sel)->0;
                        let q = csv_num_col(hdr, num_sel)->0;
                        &&& csv_error(rs, self.skip_rows as int, cs_sel, num_sel) is None
                        &&& parse_ok(views_of(ms@), csv_outcomes(rs, self.skip_rows as int, c, q))
                    },
                }
            }),
    {
        let records = csv_records(text);
        csv_members_from_records(&records, self.skip_rows, &self.callsign_column, &self.number_column)
    }
}

/// An HTML-table roster source: the endpoint and the cell indices of the
/// callsign and member-number columns.
pub struct HtmlFetcher {
    pub url: String,
    pub callsign_column_index: usize,
    pub number_column_index: usize,
}

impl HtmlFetcher {
    /// A fetcher for an HTML-table roster.
    pub fn new(url: String, callsign_column_index: usize, number_column_index: usize) -> (r: Self)
        ensures
            r.url == url,
            r.callsign_column_index == callsign_column_index,
            r.number_column_index == number_column_index,
    {
        HtmlFetcher { url, callsign_column_index, number_column_index }
    }

    /// Decide the callsign grammar.
    pub fn is_valid_callsign(&self, s: &str) -> (r: bool)
        ensures
            r == valid_callsign(str_bytes(s@)),
    {
        crate::member::is_valid_callsign_str(s)
    }

    /// Parse a fetched HTML document into the sorted, deduplicated member
    /// list.
    pub fn parse_html(&self, html: &str) -> (r: Vec<Member>)
        ensures
            parse_ok(
                views_of(r@),
                html_outcomes(
                    table_rows_of(html@),
                    self.callsign_column_index as int,
                    self.number_column_index as int,
                ),
            ),
    {
        let rows = table_rows(html);
        html_members_from_rows(&rows, self.callsign_column_index, self.number_column_index)
    }
}

} // verus!
