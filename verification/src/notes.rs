//! Deterministic rendering of a member list into the notes-file text, and
//! timestamp-insensitive change detection against previously committed
//! content.
//!
//! [`notes_text`] is the exact shape of the rendered file, with the
//! members in [`render_order`]; [`content_changed`] compares two texts
//! line by line after dropping every generation-timestamp line, so that
//! re-rendering an unchanged roster is never a change
//! ([`lemma_rerender_unchanged`]).

use vstd::prelude::*;
use vstd::string::StrSliceExecFns;
use vstd::utf8::{valid_utf8, decode_utf8_encode_utf8};

use crate::clock::{format_timestamp, now_unix_secs, timestamp_text};
use crate::member::{str_bytes, Member, MemberView};
use crate::roster::{sorted_by_callsign, views_of};
use crate::text::{lex_lt, lemma_lex_connected, lemma_lex_transitive, push_piece};

verus! {

/// A byte string free of line breaks.
pub open spec fn no_newline(b: Seq<u8>) -> bool {
    forall|i: int| 0 <= i < b.len() ==> b[i] != 10
}

/// One rendered member line: `<callsign> <emoji> <label> #<id>` and a line
/// break.
pub open spec fn member_line(m: MemberView, emoji: Seq<u8>, label: Seq<u8>) -> Seq<u8> {
    m.callsign + str_bytes(" "@) + emoji + str_bytes(" "@) + label + str_bytes(" #"@)
        + m.member_id + str_bytes("\n"@)
}

/// The rendered member lines, in list order.
pub open spec fn member_lines(ms: Seq<MemberView>, emoji: Seq<u8>, label: Seq<u8>) -> Seq<u8>
    decreases ms.len(),
{
    if ms.len() == 0 {
        Seq::empty()
    } else {
        member_line(ms[0], emoji, label) + member_lines(ms.drop_first(), emoji, label)
    }
}

/// The header block: the label line, the generation-timestamp line, the
/// optional source line, the edit warning, and a blank separator line.
pub open spec fn notes_header(label: Seq<u8>, ts: Seq<u8>, url: Option<Seq<u8>>) -> Seq<u8> {
    str_bytes("# "@) + label + str_bytes(" Callsign Notes for Ham2K PoLo\n"@) + str_bytes(
        "# Generated: "@,
    ) + ts + str_bytes("\n"@) + (match url {
        Some(u) => str_bytes("# "@) + u + str_bytes("\n"@),
        None => Seq::<u8>::empty(),
    }) + str_bytes("# Do not edit manually - this file is auto-generated\n"@) + str_bytes("\n"@)
}

/// The whole rendered notes file.
pub open spec fn notes_text(
    label: Seq<u8>,
    emoji: Seq<u8>,
    url: Option<Seq<u8>>,
    ts: Seq<u8>,
    ms: Seq<MemberView>,
) -> Seq<u8> {
    notes_header(label, ts, url) + member_lines(ms, emoji, label)
}

/// Sorted ascending by callsign, allowing equal neighbours.
pub open spec fn sorted_weak(ms: Seq<MemberView>) -> bool {
    forall|i: int, j: int|
        0 <= i < j < ms.len() ==> !lex_lt((#[trigger] ms[j]).callsign, (#[trigger] ms[i]).callsign)
}

proof fn lemma_member_lines_snoc(ms: Seq<MemberView>, m: MemberView, emoji: Seq<u8>, label: Seq<u8>)
    ensures
        member_lines(ms.push(m), emoji, label) == member_lines(ms, emoji, label) + member_line(
            m,
            emoji,
            label,
        ),
    decreases ms.len(),
{
    if ms.len() == 0 {
        let single = ms.push(m);
        assert(single[0] == m);
        assert(single.drop_first() =~= Seq::<MemberView>::empty());
        assert(member_lines(Seq::<MemberView>::empty(), emoji, label) == Seq::<u8>::empty());
        assert(member_lines(single, emoji, label) == member_line(m, emoji, label)
            + Seq::<u8>::empty());
        assert(member_line(m, emoji, label) + Seq::<u8>::empty() =~= member_line(m, emoji, label));
        assert(Seq::<u8>::empty() + member_line(m, emoji, label) =~= member_line(m, emoji, label));
    } else {
        let ext = ms.push(m);
        assert(ext[0] == ms[0]);
        assert(ext.drop_first() =~= ms.drop_first().push(m));
        lemma_member_lines_snoc(ms.drop_first(), m, emoji, label);
        let head = member_line(ms[0], emoji, label);
        let tail = member_lines(ms.drop_first(), emoji, label);
        let last = member_line(m, emoji, label);
        assert(member_lines(ext, emoji, label) == head + (tail + last));
        assert(head + (tail + last) =~= (head + tail) + last);
    }
}

/// A member placed into an already rendered order: before the first
/// member with a strictly greater callsign, after any with an equal or
/// smaller one.
pub open spec fn stable_insert(ms: Seq<MemberView>, m: MemberView) -> Seq<MemberView>
    decreases ms.len(),
{
    if ms.len() == 0 {
        seq![m]
    } else if lex_lt(m.callsign, ms[0].callsign) {
        seq![m] + ms
    } else {
        seq![ms[0]] + stable_insert(ms.drop_first(), m)
    }
}

/// The order a member list renders in: sorted ascending by callsign by
/// stable insertion, so members with equal callsigns keep their input
/// order. This makes the rendered text a function of the input list.
pub open spec fn render_order(ms: Seq<MemberView>) -> Seq<MemberView>
    decreases ms.len(),
{
    if ms.len() == 0 {
        Seq::empty()
    } else {
        stable_insert(render_order(ms.drop_last()), ms.last())
    }
}

proof fn lemma_stable_insert_at(ms: Seq<MemberView>, m: MemberView, p: int)
    requires
        0 <= p <= ms.len(),
        forall|k: int| 0 <= k < p ==> !lex_lt(m.callsign, (#[trigger] ms[k]).callsign),
        p == ms.len() || lex_lt(m.callsign, ms[p].callsign),
    ensures
        stable_insert(ms, m) == ms.insert(p, m),
    decreases ms.len(),
{
    if ms.len() == 0 {
        assert(seq![m] =~= ms.insert(0, m));
    } else if p == 0 {
        assert(lex_lt(m.callsign, ms[0].callsign));
        assert(seq![m] + ms =~= ms.insert(0, m));
    } else {
        assert(!lex_lt(m.callsign, ms[0].callsign));
        lemma_stable_insert_at(ms.drop_first(), m, p - 1);
        assert(seq![ms[0]] + ms.drop_first().insert(p - 1, m) =~= ms.insert(p, m));
    }
}

/// A field-by-field copy, which spec-level equality sees as the same
/// member.
fn clone_member(m: &Member) -> (r: Member)
    ensures
        r == *m,
{
    let nickname = match &m.nickname {
        Some(n) => Some(n.clone()),
        None => None,
    };
    Member { callsign: m.callsign.clone(), member_id: m.member_id.clone(), nickname }
}

/// Insert a member into a weakly sorted list, after any members with the
/// same callsign (a stable insertion).
fn insert_stable(members: &mut Vec<Member>, m: Member)
    requires
        sorted_weak(views_of(old(members)@)),
    ensures
        views_of(final(members)@) == stable_insert(views_of(old(members)@), m.v()),
        sorted_weak(views_of(final(members)@)),
        views_of(final(members)@).to_multiset() == views_of(old(members)@).to_multiset().insert(
            m.v(),
        ),
        (forall|k: int|
            0 <= k < old(members)@.len() ==> lex_lt(
                (#[trigger] views_of(old(members)@)[k]).callsign,
                m.v().callsign,
            )) ==> final(members)@ == old(members)@.push(m),
{
    broadcast use vstd::seq_lib::group_to_multiset_ensures;

    let ghost old_ms = members@;
    let ghost mv = m.v();
    let key = m.callsign.as_str().as_bytes_vec();
    assert(key@ == mv.callsign);
    let mut i: usize = 0;
    while i < members.len() && !crate::roster::key_before_member(&key, &members[i])
        invariant
            0 <= i <= members@.len(),
            members@ == old_ms,
            key@ == mv.callsign,
            forall|k: int|
                0 <= k < i ==> !lex_lt(mv.callsign, (#[trigger] views_of(members@)[k]).callsign),
            sorted_weak(views_of(members@)),
        decreases members@.len() - i,
    {
        proof {
            assert(views_of(members@)[i as int] == members@[i as int].v());
        }
        i = i + 1;
    }
    let ghost vs = views_of(old_ms);
    proof {
        if i < vs.len() {
            assert(lex_lt(mv.callsign, vs[i as int].callsign));
        }
        assert forall|k: int| i <= k < vs.len() implies lex_lt(
            mv.callsign,
            (#[trigger] vs[k]).callsign,
        ) by {
            if k > i {
                if lex_lt(vs[k].callsign, mv.callsign) {
                    lemma_lex_transitive(vs[k].callsign, mv.callsign, vs[i as int].callsign);
                    assert(false);
                }
                lemma_lex_connected(mv.callsign, vs[k].callsign);
                if mv.callsign == vs[k].callsign {
                    assert(lex_lt(vs[k].callsign, mv.callsign)) by {
                        lemma_lex_connected(mv.callsign, vs[i as int].callsign);
                        assert(lex_lt(mv.callsign, vs[i as int].callsign));
                        assert(false) by {
                            assert(!lex_lt(vs[k].callsign, vs[i as int].callsign));
                            lemma_lex_connected(vs[k].callsign, vs[i as int].callsign);
                        }
                    }
                }
            }
        }
    }
    members.insert(i, m);
    proof {
        let new_vs = views_of(members@);
        assert(members@ == old_ms.insert(i as int, m));
        assert forall|k: int| 0 <= k < new_vs.len() implies #[trigger] new_vs[k] == (if k < i {
            vs[k]
        } else if k == i {
            mv
        } else {
            vs[k - 1]
        }) by {
            assert(new_vs[k] == members@[k].v());
        }
        assert forall|a: int, b: int| 0 <= a < b < new_vs.len() implies !lex_lt(
            (#[trigger] new_vs[b]).callsign,
            (#[trigger] new_vs[a]).callsign,
        ) by {
            if a < i && b == i {
                assert(!lex_lt(mv.callsign, vs[a].callsign));
            } else if a == i && b > i {
                assert(lex_lt(mv.callsign, vs[b - 1].callsign));
                lemma_lex_connected(mv.callsign, vs[b - 1].callsign);
            }
        }
        assert(views_of(old_ms.insert(i as int, m)).to_multiset() == vs.to_multiset().insert(mv))
            by {
            assert(views_of(old_ms.insert(i as int, m)) =~= vs.insert(i as int, mv));
            assert(vs.insert(i as int, mv).to_multiset() =~= vs.to_multiset().insert(mv));
        }
        lemma_stable_insert_at(vs, mv, i as int);
        assert(views_of(members@) =~= vs.insert(i as int, mv));
        if forall|k: int| 0 <= k < vs.len() ==> lex_lt((#[trigger] vs[k]).callsign, mv.callsign) {
            if i < vs.len() {
                assert(lex_lt(vs[i as int].callsign, mv.callsign));
                assert(lex_lt(mv.callsign, vs[i as int].callsign));
                lemma_lex_connected(vs[i as int].callsign, mv.callsign);
                assert(false);
            }
            assert(i == vs.len());
            assert(members@ =~= old_ms.push(m));
        }
    }
}

/// Renders member lists into the notes-file text: the emoji and label
/// decorate each member line, and the optional source URL joins the header.
pub struct NotesGenerator {
    pub emoji: String,
    pub label: String,
    pub source_url: Option<String>,
}

impl NotesGenerator {
    /// The source-URL bytes this generator puts in the header, if any.
    pub open spec fn url_bytes(self) -> Option<Seq<u8>> {
        match self.source_url {
            Some(u) => Some(str_bytes(u@)),
            None => None,
        }
    }

    /// A generator for one organization's notes file.
    pub fn new(emoji: String, label: String, source_url: Option<String>) -> (r: Self)
        ensures
            r.emoji == emoji,
            r.label == label,
            r.source_url == source_url,
    {
        NotesGenerator { emoji, label, source_url }
    }

    /// Render the notes file for the given epoch seconds: the header, then
    /// one line per member in [`render_order`] — sorted ascending by
    /// callsign, stably. The text is a function of the list and the
    /// seconds, so two renderings of one list differ only in the
    /// generation-timestamp line. A list that is already strictly sorted
    /// renders in exactly its own order.
    #[verifier::rlimit(50)]
    pub fn generate_at(&self, members: &Vec<Member>, now_secs: i64) -> (r: String)
        ensures
            no_newline(timestamp_text(now_secs)),
            str_bytes(r@) == notes_text(
                str_bytes(self.label@),
                str_bytes(self.emoji@),
                self.url_bytes(),
                timestamp_text(now_secs),
                render_order(views_of(members@)),
            ),
            exists|svs: Seq<MemberView>|
                {
                    &&& #[trigger] sorted_weak(svs)
                    &&& svs.to_multiset() == views_of(members@).to_multiset()
                    &&& str_bytes(r@) == notes_text(
                        str_bytes(self.label@),
                        str_bytes(self.emoji@),
                        self.url_bytes(),
                        timestamp_text(now_secs),
                        svs,
                    )
                },
            sorted_by_callsign(views_of(members@)) ==> str_bytes(r@) == notes_text(
                str_bytes(self.label@),
                str_bytes(self.emoji@),
                self.url_bytes(),
                timestamp_text(now_secs),
                views_of(members@),
            ),
    {
        broadcast use vstd::seq_lib::group_to_multiset_ensures;

        let ghost in_vs = views_of(members@);
        let mut sorted: Vec<Member> = Vec::new();
        let mut i: usize = 0;
        proof {
            assert(views_of(sorted@) =~= Seq::<MemberView>::empty());
            assert(in_vs.subrange(0, 0) =~= Seq::<MemberView>::empty());
            assert(views_of(sorted@).to_multiset() =~= in_vs.subrange(0, 0).to_multiset());
            assert(render_order(in_vs.subrange(0, 0)) == Seq::<MemberView>::empty());
        }
        while i < members.len()
            invariant
                0 <= i <= members@.len(),
                in_vs == views_of(members@),
                in_vs.len() == members@.len(),
                sorted_weak(views_of(sorted@)),
                views_of(sorted@) == render_order(in_vs.subrange(0, i as int)),
                views_of(sorted@).to_multiset() == in_vs.subrange(0, i as int).to_multiset(),
                sorted_by_callsign(in_vs) ==> sorted@ == members@.subrange(0, i as int),
            decreases members@.len() - i,
        {
            broadcast use vstd::seq_lib::group_to_multiset_ensures;

            let m = clone_member(&members[i]);
            let ghost mv = m.v();
            proof {
                assert(mv == in_vs[i as int]);
                assert(in_vs.subrange(0, i + 1) =~= in_vs.subrange(0, i as int).push(mv));
            }
            let ghost pre = sorted@;
            insert_stable(&mut sorted, m);
            proof {
                assert(in_vs.subrange(0, i + 1).drop_last() =~= in_vs.subrange(0, i as int));
                assert(in_vs.subrange(0, i + 1).last() == mv);
                assert(render_order(in_vs.subrange(0, i + 1)) == stable_insert(
                    views_of(pre),
                    mv,
                ));
                if sorted_by_callsign(in_vs) {
                    assert forall|k: int| 0 <= k < pre.len() implies lex_lt(
                        (#[trigger] views_of(pre)[k]).callsign,
                        mv.callsign,
                    ) by {
                        assert(views_of(pre)[k] == in_vs.subrange(0, i as int)[k]);
                        assert(in_vs[k].callsign == views_of(pre)[k].callsign);
                    }
                    assert(sorted@ == pre.push(m));
                    assert(members@.subrange(0, i + 1) =~= members@.subrange(0, i as int).push(
                        members@[i as int],
                    ));
                    assert(m == members@[i as int]);
                }
            }
            i = i + 1;
        }
        proof {
            assert(in_vs.subrange(0, in_vs.len() as int) =~= in_vs);
            if sorted_by_callsign(in_vs) {
                assert(members@.subrange(0, members@.len() as int) =~= members@);
            }
        }
        let ghost svs = views_of(sorted@);
        let mut out: Vec<u8> = Vec::new();
        proof {
            assert(valid_utf8(out@));
        }
        push_piece(&mut out, "# ");
        push_piece(&mut out, self.label.as_str());
        push_piece(&mut out, " Callsign Notes for Ham2K PoLo\n");
        push_piece(&mut out, "# Generated: ");
        let ts = format_timestamp(now_secs);
        push_piece(&mut out, ts.as_str());
        push_piece(&mut out, "\n");
        match &self.source_url {
            Some(u) => {
                push_piece(&mut out, "# ");
                push_piece(&mut out, u.as_str());
                push_piece(&mut out, "\n");
            },
            None => {},
        }
        push_piece(&mut out, "# Do not edit manually - this file is auto-generated\n");
        push_piece(&mut out, "\n");
        let ghost label_b = str_bytes(self.label@);
        let ghost emoji_b = str_bytes(self.emoji@);
        proof {
            assert(out@ =~= notes_header(label_b, timestamp_text(now_secs), self.url_bytes()));
        }
        let ghost header = out@;
        let mut j: usize = 0;
        while j < sorted.len()
            invariant
                0 <= j <= sorted@.len(),
                svs == views_of(sorted@),
                svs.len() == sorted@.len(),
                emoji_b == str_bytes(self.emoji@),
                label_b == str_bytes(self.label@),
                out@ == header + member_lines(svs.subrange(0, j as int), emoji_b, label_b),
                valid_utf8(out@),
            decreases sorted@.len() - j,
        {
            let ghost before = out@;
            let member = &sorted[j];
            let ghost mv = svs[j as int];
            proof {
                assert(mv == sorted@[j as int].v());
            }
            push_piece(&mut out, member.callsign.as_str());
            push_piece(&mut out, " ");
            push_piece(&mut out, self.emoji.as_str());
            push_piece(&mut out, " ");
            push_piece(&mut out, self.label.as_str());
            push_piece(&mut out, " #");
            push_piece(&mut out, member.member_id.as_str());
            push_piece(&mut out, "\n");
            proof {
                assert(out@ =~= before + member_line(mv, emoji_b, label_b));
                lemma_member_lines_snoc(svs.subrange(0, j as int), mv, emoji_b, label_b);
                assert(svs.subrange(0, j + 1) =~= svs.subrange(0, j as int).push(mv));
                assert(out@ =~= header + member_lines(svs.subrange(0, j + 1), emoji_b, label_b));
            }
            j = j + 1;
        }
        proof {
            assert(svs.subrange(0, svs.len() as int) =~= svs);
        }
        let content = crate::text::string_from_bytes(out);
        proof {
            decode_utf8_encode_utf8(header + member_lines(svs, emoji_b, label_b));
            assert(str_bytes(content@) == notes_text(
                label_b,
                emoji_b,
                self.url_bytes(),
                timestamp_text(now_secs),
                svs,
            ));
        }
        content
    }

    /// Render the notes file, timestamped with the current time; the
    /// members render in [`render_order`], whatever the clock said.
    pub fn generate(&self, members: &Vec<Member>) -> (r: String)
        ensures
            exists|t: i64|
                str_bytes(r@) == #[trigger] notes_text(
                    str_bytes(self.label@),
                    str_bytes(self.emoji@),
                    self.url_bytes(),
                    timestamp_text(t),
                    render_order(views_of(members@)),
                ),
            exists|t: i64, svs: Seq<MemberView>|
                {
                    &&& sorted_weak(svs)
                    &&& svs.to_multiset() == views_of(members@).to_multiset()
                    &&& str_bytes(r@) == #[trigger] notes_text(
                        str_bytes(self.label@),
                        str_bytes(self.emoji@),
                        self.url_bytes(),
                        timestamp_text(t),
                        svs,
                    )
                },
            sorted_by_callsign(views_of(members@)) ==> exists|t: i64|
                str_bytes(r@) == #[trigger] notes_text(
                    str_bytes(self.label@),
                    str_bytes(self.emoji@),
                    self.url_bytes(),
                    timestamp_text(t),
                    views_of(members@),
                ),
    {
        let now = now_unix_secs();
        self.generate_at(members, now)
    }
}

/// A line with its trailing carriage return removed, as `str::lines` does.
pub open spec fn strip_cr(l: Seq<u8>) -> Seq<u8> {
    if l.len() > 0 && l.last() == 13 {
        l.drop_last()
    } else {
        l
    }
}

/// The position of the first line-feed byte, if any.
pub open spec fn nl_pos(b: Seq<u8>) -> Option<int>
    decreases b.len(),
{
    if b.len() == 0 {
        None
    } else if b[0] == 10 {
        Some(0)
    } else {
        match nl_pos(b.drop_first()) {
            Some(i) => Some(i + 1),
            None => None,
        }
    }
}

/// The lines of a text, as `str::lines` yields them: split at line feeds,
/// each line's trailing carriage return removed, and no final empty line
/// after a trailing line feed.
pub open spec fn line_split(b: Seq<u8>) -> Seq<Seq<u8>>
    decreases b.len(),
{
    match nl_pos(b) {
        None => if b.len() == 0 {
            Seq::empty()
        } else {
            seq![strip_cr(b)]
        },
        Some(i) => if 0 <= i < b.len() {
            seq![strip_cr(b.subrange(0, i))] + line_split(b.subrange(i + 1, b.len() as int))
        } else {
            Seq::empty()
        },
    }
}

/// A generation-timestamp line, which change detection ignores.
pub open spec fn generated_line(l: Seq<u8>) -> bool {
    let m = str_bytes("# Generated:"@);
    l.len() >= m.len() && l.subrange(0, m.len() as int) == m
}

/// The lines that remain once every generation-timestamp line is dropped.
pub open spec fn kept_lines(ls: Seq<Seq<u8>>) -> Seq<Seq<u8>>
    decreases ls.len(),
{
    if ls.len() == 0 {
        Seq::empty()
    } else if generated_line(ls[0]) {
        kept_lines(ls.drop_first())
    } else {
        seq![ls[0]] + kept_lines(ls.drop_first())
    }
}

/// What change detection compares: the text's lines without the
/// generation-timestamp lines.
pub open spec fn filtered_lines(b: Seq<u8>) -> Seq<Seq<u8>> {
    kept_lines(line_split(b))
}

proof fn lemma_nl_pos_at(b: Seq<u8>, i: int)
    requires
        0 <= i <= b.len(),
        forall|k: int| 0 <= k < i ==> #[trigger] b[k] != 10,
        i == b.len() || b[i] == 10,
    ensures
        nl_pos(b) == (if i == b.len() {
            Option::<int>::None
        } else {
            Option::<int>::Some(i)
        }),
    decreases b.len(),
{
    if b.len() == 0 {
    } else if i == 0 {
    } else {
        assert(b[0] != 10);
        lemma_nl_pos_at(b.drop_first(), i - 1);
    }
}

/// Splitting distributes over concatenation at a line-feed boundary.
proof fn lemma_line_split_concat(p: Seq<u8>, q: Seq<u8>)
    requires
        p.len() > 0,
        p.last() == 10,
    ensures
        line_split(p + q) == line_split(p) + line_split(q),
    decreases p.len(),
{
    let w = p + q;
    match nl_pos(p) {
        None => {
            lemma_nl_pos_props(p);
            assert(false);
        },
        Some(i) => {
            lemma_nl_pos_props(p);
            assert(0 <= i < p.len() && p[i] == 10);
            assert forall|k: int| 0 <= k < i implies #[trigger] w[k] != 10 by {
                assert(w[k] == p[k]);
            }
            assert(w[i] == p[i]);
            lemma_nl_pos_at(w, i);
            assert(w.subrange(0, i) =~= p.subrange(0, i));
            let l = strip_cr(p.subrange(0, i));
            if i == p.len() - 1 {
                assert(p.subrange(i + 1, p.len() as int) =~= Seq::<u8>::empty());
                assert(line_split(Seq::<u8>::empty()) == Seq::<Seq<u8>>::empty());
                assert(line_split(p) == seq![l] + Seq::<Seq<u8>>::empty());
                assert(w.subrange(i + 1, w.len() as int) =~= q);
                assert(line_split(w) == seq![l] + line_split(q));
                assert(seq![l] + Seq::<Seq<u8>>::empty() =~= seq![l]);
                assert((seq![l] + Seq::<Seq<u8>>::empty()) + line_split(q) =~= seq![l]
                    + line_split(q));
            } else {
                let p1 = p.subrange(i + 1, p.len() as int);
                assert(p1.len() > 0);
                assert(p1.last() == p.last());
                lemma_line_split_concat(p1, q);
                assert(w.subrange(i + 1, w.len() as int) =~= p1 + q);
                assert(line_split(w) == seq![l] + (line_split(p1) + line_split(q)));
                assert(line_split(p) == seq![l] + line_split(p1));
                assert(seq![l] + (line_split(p1) + line_split(q)) =~= (seq![l] + line_split(p1))
                    + line_split(q));
            }
        },
    }
}

/// What `nl_pos` finds: the first line feed.
proof fn lemma_nl_pos_props(b: Seq<u8>)
    ensures
        match nl_pos(b) {
            None => forall|k: int| 0 <= k < b.len() ==> #[trigger] b[k] != 10,
            Some(i) => 0 <= i < b.len() && b[i] == 10 && forall|k: int|
                0 <= k < i ==> #[trigger] b[k] != 10,
        },
    decreases b.len(),
{
    if b.len() == 0 {
    } else if b[0] == 10 {
    } else {
        lemma_nl_pos_props(b.drop_first());
        match nl_pos(b.drop_first()) {
            None => {
                assert forall|k: int| 0 <= k < b.len() implies #[trigger] b[k] != 10 by {
                    if k > 0 {
                        assert(b.drop_first()[k - 1] != 10);
                    }
                }
            },
            Some(i) => {
                assert(b[i + 1] == b.drop_first()[i]);
                assert forall|k: int| 0 <= k < i + 1 implies #[trigger] b[k] != 10 by {
                    if k > 0 {
                        assert(b.drop_first()[k - 1] != 10);
                    }
                }
            },
        }
    }
}

/// A line-feed-free text followed by one line feed is a single line.
proof fn lemma_line_split_single(x: Seq<u8>)
    requires
        no_newline(x),
    ensures
        line_split(x + seq![10u8]) == seq![strip_cr(x)],
{
    let w = x + seq![10u8];
    assert forall|k: int| 0 <= k < x.len() implies #[trigger] w[k] != 10 by {
        assert(w[k] == x[k]);
    }
    assert(w[x.len() as int] == 10);
    lemma_nl_pos_at(w, x.len() as int);
    assert(w.subrange(0, x.len() as int) =~= x);
    assert(w.subrange(x.len() as int + 1, w.len() as int) =~= Seq::<u8>::empty());
    assert(line_split(Seq::<u8>::empty()) == Seq::<Seq<u8>>::empty());
    assert(line_split(w) == seq![strip_cr(x)] + Seq::<Seq<u8>>::empty());
    assert(seq![strip_cr(x)] + Seq::<Seq<u8>>::empty() =~= seq![strip_cr(x)]);
}

/// Filtering distributes over concatenation of line lists.
proof fn lemma_kept_lines_concat(a: Seq<Seq<u8>>, b: Seq<Seq<u8>>)
    ensures
        kept_lines(a + b) == kept_lines(a) + kept_lines(b),
    decreases a.len(),
{
    if a.len() == 0 {
        assert(a + b =~= b);
        assert(kept_lines(a) == Seq::<Seq<u8>>::empty());
        assert(kept_lines(a) + kept_lines(b) =~= kept_lines(b));
    } else {
        let w = a + b;
        assert(w[0] == a[0]);
        assert(w.drop_first() =~= a.drop_first() + b);
        lemma_kept_lines_concat(a.drop_first(), b);
        if generated_line(a[0]) {
            assert(kept_lines(w) == kept_lines(a.drop_first()) + kept_lines(b));
        } else {
            assert(kept_lines(w) == seq![a[0]] + (kept_lines(a.drop_first()) + kept_lines(b)));
            assert(seq![a[0]] + (kept_lines(a.drop_first()) + kept_lines(b)) =~= (seq![a[0]]
                + kept_lines(a.drop_first())) + kept_lines(b));
        }
    }
}

/// Concrete facts about the header literals that the re-render law needs.
proof fn lemma_header_literals()
    ensures
        str_bytes(" Callsign Notes for Ham2K PoLo\n"@).len() > 0,
        str_bytes(" Callsign Notes for Ham2K PoLo\n"@).last() == 10,
        str_bytes("\n"@) == seq![10u8],
        str_bytes("# Generated: "@).len() == 13,
        no_newline(str_bytes("# Generated: "@)),
        str_bytes("# Generated:"@).len() == 12,
        str_bytes("# Generated: "@).subrange(0, 12) == str_bytes("# Generated:"@),
{
    broadcast use vstd::utf8::is_ascii_chars_encode_utf8;

    reveal_strlit(" Callsign Notes for Ham2K PoLo\n");
    reveal_strlit("\n");
    reveal_strlit("# Generated: ");
    reveal_strlit("# Generated:");
    let a = " Callsign Notes for Ham2K PoLo\n"@;
    let b = "\n"@;
    let c = "# Generated: "@;
    let d = "# Generated:"@;
    assert(vstd::utf8::is_ascii_chars(a));
    assert(vstd::utf8::is_ascii_chars(b));
    assert(vstd::utf8::is_ascii_chars(c));
    assert(vstd::utf8::is_ascii_chars(d));
    assert(str_bytes(b) =~= seq![10u8]);
    assert(str_bytes(a).last() == a[30] as u8);
    assert(str_bytes(c).subrange(0, 12) =~= str_bytes(d));
}

/// Re-rendering the same members, label, emoji and source with a fresh
/// timestamp never changes the filtered lines: the timestamp sits alone on
/// a generation line, which change detection drops from both sides.
pub proof fn lemma_rerender_unchanged(
    label: Seq<u8>,
    emoji: Seq<u8>,
    url: Option<Seq<u8>>,
    ts1: Seq<u8>,
    ts2: Seq<u8>,
    ms: Seq<MemberView>,
)
    requires
        no_newline(ts1),
        no_newline(ts2),
    ensures
        filtered_lines(notes_text(label, emoji, url, ts1, ms)) == filtered_lines(
            notes_text(label, emoji, url, ts2, ms),
        ),
{
    lemma_header_literals();
    let h1 = str_bytes("# "@) + label + str_bytes(" Callsign Notes for Ham2K PoLo\n"@);
    let rest = (match url {
        Some(u) => str_bytes("# "@) + u + str_bytes("\n"@),
        None => Seq::<u8>::empty(),
    }) + str_bytes("# Do not edit manually - this file is auto-generated\n"@) + str_bytes("\n"@)
        + member_lines(ms, emoji, label);
    lemma_rerender_half(label, emoji, url, ts1, ms, h1, rest);
    lemma_rerender_half(label, emoji, url, ts2, ms, h1, rest);
}

/// One side of the re-render law: the filtered lines of a rendering are
/// the filtered lines of its header line and body, with the timestamp line
/// dropped.
proof fn lemma_rerender_half(
    label: Seq<u8>,
    emoji: Seq<u8>,
    url: Option<Seq<u8>>,
    ts: Seq<u8>,
    ms: Seq<MemberView>,
    h1: Seq<u8>,
    rest: Seq<u8>,
)
    requires
        no_newline(ts),
        h1 == str_bytes("# "@) + label + str_bytes(" Callsign Notes for Ham2K PoLo\n"@),
        rest == (match url {
            Some(u) => str_bytes("# "@) + u + str_bytes("\n"@),
            None => Seq::<u8>::empty(),
        }) + str_bytes("# Do not edit manually - this file is auto-generated\n"@) + str_bytes(
            "\n"@,
        ) + member_lines(ms, emoji, label),
    ensures
        filtered_lines(notes_text(label, emoji, url, ts, ms)) == kept_lines(line_split(h1))
            + kept_lines(line_split(rest)),
{
    lemma_header_literals();
    let marker = str_bytes("# Generated: "@);
    let x = marker + ts;
    let g = x + str_bytes("\n"@);
    assert(notes_text(label, emoji, url, ts, ms) =~= h1 + (g + rest));
    assert(h1.len() > 0);
    assert(h1.last() == 10) by {
        let lit = str_bytes(" Callsign Notes for Ham2K PoLo\n"@);
        assert(h1[h1.len() - 1] == lit[lit.len() - 1]);
    }
    lemma_line_split_concat(h1, g + rest);
    assert(g.len() > 0);
    assert(g.last() == 10) by {
        assert(g[g.len() - 1] == str_bytes("\n"@)[0]);
    }
    lemma_line_split_concat(g, rest);
    assert(no_newline(x)) by {
        assert forall|i: int| 0 <= i < x.len() implies x[i] != 10 by {
            if i < marker.len() {
                assert(x[i] == marker[i]);
            } else {
                assert(x[i] == ts[i - marker.len()]);
            }
        }
    }
    assert(g =~= x + seq![10u8]);
    lemma_line_split_single(x);
    assert(line_split(g) == seq![strip_cr(x)]);
    assert(generated_line(strip_cr(x))) by {
        assert(x.len() >= 13);
        let sc = strip_cr(x);
        assert(sc.len() >= 12);
        assert forall|i: int| 0 <= i < 12 implies sc.subrange(0, 12)[i] == str_bytes(
            "# Generated:"@,
        )[i] by {
            assert(sc[i] == x[i]);
            assert(x[i] == marker[i]);
            assert(marker.subrange(0, 12)[i] == marker[i]);
        }
        assert(sc.subrange(0, 12) =~= str_bytes("# Generated:"@));
    }
    assert(kept_lines(seq![strip_cr(x)]) == Seq::<Seq<u8>>::empty()) by {
        let single = seq![strip_cr(x)];
        assert(single.drop_first() =~= Seq::<Seq<u8>>::empty());
        assert(kept_lines(Seq::<Seq<u8>>::empty()) == Seq::<Seq<u8>>::empty());
    }
    lemma_kept_lines_concat(line_split(h1), line_split(g) + line_split(rest));
    lemma_kept_lines_concat(line_split(g), line_split(rest));
    assert(Seq::<Seq<u8>>::empty() + kept_lines(line_split(rest)) =~= kept_lines(
        line_split(rest),
    ));
    assert(filtered_lines(notes_text(label, emoji, url, ts, ms)) == kept_lines(line_split(h1))
        + (Seq::<Seq<u8>>::empty() + kept_lines(line_split(rest))));
}

/// Runtime test for [`generated_line`].
fn is_generated_line(line: &Vec<u8>) -> (r: bool)
    ensures
        r == generated_line(line@),
{
    let marker = "# Generated:".as_bytes_vec();
    crate::text::bytes_starts_with(line, &marker)
}

/// The filtered lines of a text: its lines without the
/// generation-timestamp lines.
fn split_filtered(s: &str) -> (r: Vec<Vec<u8>>)
    ensures
        r.deep_view() == filtered_lines(str_bytes(s@)),
{
    let bytes = s.as_bytes_vec();
    let ghost whole = bytes@;
    let mut out: Vec<Vec<u8>> = Vec::new();
    let mut pos: usize = 0;
    proof {
        assert(whole.skip(0) =~= whole);
        assert(out.deep_view() =~= Seq::<Seq<u8>>::empty());
    }
    while pos < bytes.len()
        invariant
            0 <= pos <= bytes@.len(),
            whole == bytes@,
            filtered_lines(whole) == out.deep_view() + kept_lines(
                line_split(whole.skip(pos as int)),
            ),
        decreases bytes@.len() - pos,
    {
        let ghost rem = whole.skip(pos as int);
        let mut j: usize = pos;
        while j < bytes.len() && bytes[j] != 10
            invariant
                pos <= j <= bytes@.len(),
                whole == bytes@,
                forall|k: int| pos <= k < j ==> #[trigger] whole[k] != 10,
            decreases bytes@.len() - j,
        {
            j = j + 1;
        }
        proof {
            assert forall|k: int| 0 <= k < j - pos implies #[trigger] rem[k] != 10 by {
                assert(rem[k] == whole[k + pos]);
            }
            if j < bytes@.len() {
                assert(rem[j - pos] == whole[j as int]);
            }
            lemma_nl_pos_at(rem, j - pos);
        }
        let mut line: Vec<u8> = Vec::new();
        let mut k: usize = pos;
        while k < j
            invariant
                pos <= k <= j <= bytes@.len(),
                whole == bytes@,
                line@ == whole.subrange(pos as int, k as int),
            decreases j - k,
        {
            line.push(bytes[k]);
            k = k + 1;
            assert(whole.subrange(pos as int, k as int) =~= whole.subrange(
                pos as int,
                k - 1,
            ).push(whole[k - 1]));
        }
        if line.len() > 0 && line[line.len() - 1] == 13 {
            let _ = line.pop();
        }
        let ghost raw = whole.subrange(pos as int, j as int);
        proof {
            assert(line@ == strip_cr(raw)) by {
                if raw.len() > 0 && raw.last() == 13 {
                    assert(line@ =~= raw.drop_last());
                }
            }
        }
        let ghost keep_rest = (if j < bytes@.len() {
            line_split(whole.skip(j + 1))
        } else {
            Seq::<Seq<u8>>::empty()
        });
        proof {
            if j < bytes@.len() {
                assert(rem.subrange(0, j - pos) =~= raw);
                assert(rem.subrange(j - pos + 1, rem.len() as int) =~= whole.skip(j + 1));
                assert(line_split(rem) == seq![strip_cr(raw)] + keep_rest);
            } else {
                assert(rem =~= raw);
                assert(rem.len() > 0);
                assert(line_split(rem) == seq![strip_cr(raw)]);
                assert(seq![strip_cr(raw)] =~= seq![strip_cr(raw)] + keep_rest);
            }
            let ls = seq![strip_cr(raw)] + keep_rest;
            assert(ls[0] == strip_cr(raw));
            assert(ls.drop_first() =~= keep_rest);
        }
        let ghost before_out = out.deep_view();
        if !is_generated_line(&line) {
            let ghost lv = line@;
            out.push(line);
            proof {
                assert(out.deep_view() =~~= before_out.push(lv));
                assert(before_out.push(lv) =~= before_out + seq![lv]);
                assert(kept_lines(line_split(rem)) == seq![lv] + kept_lines(keep_rest));
                assert(before_out + (seq![lv] + kept_lines(keep_rest)) =~= (before_out
                    + seq![lv]) + kept_lines(keep_rest));
            }
        } else {
            proof {
                assert(kept_lines(line_split(rem)) == kept_lines(keep_rest));
            }
        }
        if j < bytes.len() {
            pos = j + 1;
            proof {
                assert(whole.skip(pos as int) =~= whole.skip(j + 1));
            }
        } else {
            pos = j;
            proof {
                assert(pos == bytes@.len());
                assert(whole.skip(pos as int) =~= Seq::<u8>::empty());
                assert(line_split(Seq::<u8>::empty()) == Seq::<Seq<u8>>::empty());
                assert(kept_lines(Seq::<Seq<u8>>::empty()) == Seq::<Seq<u8>>::empty());
                assert(out.deep_view() + Seq::<Seq<u8>>::empty() =~= out.deep_view());
            }
        }
    }
    proof {
        assert(whole.skip(pos as int) =~= Seq::<u8>::empty());
        assert(line_split(Seq::<u8>::empty()) == Seq::<Seq<u8>>::empty());
        assert(kept_lines(Seq::<Seq<u8>>::empty()) == Seq::<Seq<u8>>::empty());
        assert(out.deep_view() + Seq::<Seq<u8>>::empty() =~= out.deep_view());
    }
    out
}

/// Equality of line lists.
fn lines_eq(a: &Vec<Vec<u8>>, b: &Vec<Vec<u8>>) -> (r: bool)
    ensures
        r == (a.deep_view() == b.deep_view()),
{
    if a.len() != b.len() {
        proof {
            assert(a.deep_view().len() == a@.len());
            assert(b.deep_view().len() == b@.len());
        }
        return false;
    }
    let mut i: usize = 0;
    while i < a.len()
        invariant
            0 <= i <= a@.len(),
            a@.len() == b@.len(),
            forall|k: int| 0 <= k < i ==> a.deep_view()[k] == #[trigger] b.deep_view()[k],
        decreases a@.len() - i,
    {
        if !crate::text::bytes_eq(&a[i], &b[i]) {
            proof {
                assert(a.deep_view()[i as int] == a@[i as int]@);
                assert(b.deep_view()[i as int] == b@[i as int]@);
            }
            return false;
        }
        proof {
            assert(a.deep_view()[i as int] == a@[i as int]@);
            assert(b.deep_view()[i as int] == b@[i as int]@);
        }
        i = i + 1;
    }
    proof {
        assert(a.deep_view() =~= b.deep_view());
    }
    true
}

/// Whether new content differs from the remote file, comparing line by
/// line with every generation-timestamp line dropped from both sides; a
/// missing remote file always counts as changed.
pub fn content_changed(existing: Option<&String>, new_content: &String) -> (r: bool)
    ensures
        r == (match existing {
            Some(e) => filtered_lines(str_bytes(e@)) != filtered_lines(str_bytes(new_content@)),
            None => true,
        }),
{
    match existing {
        None => true,
        Some(e) => {
            let a = split_filtered(e.as_str());
            let b = split_filtered(new_content.as_str());
            !lines_eq(&a, &b)
        },
    }
}

} // verus!
