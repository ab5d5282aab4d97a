//! Destination resolution and batch planning for the publish step: which
//! repository each organization's file goes to, how pending files group
//! into one batch per destination, the commit message, and the decoding
//! of remote file content fetched from the hosting API.

use base64::Engine;
use vstd::prelude::*;
use vstd::utf8::{decode_utf8, valid_utf8};

use crate::config::{GitHubConfig, GitHubTargetOverride};
use crate::member::str_bytes;
use crate::text::{
    dec_digits, is_space_byte, lemma_ascii_valid_utf8, lemma_dec_digits_props, push_bytes,
    push_piece, string_from_bytes, u64_to_dec,
};

verus! {

/// A destination repository and branch.
pub struct GitHubTarget {
    pub owner: String,
    pub repo: String,
    pub branch: String,
}

/// Two targets naming the same destination.
pub open spec fn same_target(a: GitHubTarget, b: GitHubTarget) -> bool {
    a.owner@ == b.owner@ && a.repo@ == b.repo@ && a.branch@ == b.branch@
}

/// One rendered notes file waiting for the batch commit of its
/// destination.
pub struct PendingFile {
    pub path: String,
    pub content: String,
    pub org_label: String,
    pub member_count: usize,
    pub target: GitHubTarget,
}

impl GitHubTarget {
    /// The destination an organization publishes to: each field of its
    /// override, where set, wins over the global configuration.
    pub fn resolve(ov: Option<&GitHubTargetOverride>, global: &GitHubConfig) -> (r: GitHubTarget)
        ensures
            r.owner == (match ov {
                Some(o) => match o.owner {
                    Some(x) => x,
                    None => global.owner,
                },
                None => global.owner,
            }),
            r.repo == (match ov {
                Some(o) => match o.repo {
                    Some(x) => x,
                    None => global.repo,
                },
                None => global.repo,
            }),
            r.branch == (match ov {
                Some(o) => match o.branch {
                    Some(x) => x,
                    None => global.branch,
                },
                None => global.branch,
            }),
    {
        match ov {
            Some(o) => {
                let owner = match &o.owner {
                    Some(x) => x.clone(),
                    None => global.owner.clone(),
                };
                let repo = match &o.repo {
                    Some(x) => x.clone(),
                    None => global.repo.clone(),
                };
                let branch = match &o.branch {
                    Some(x) => x.clone(),
                    None => global.branch.clone(),
                };
                GitHubTarget { owner, repo, branch }
            },
            None => GitHubTarget {
                owner: global.owner.clone(),
                repo: global.repo.clone(),
                branch: global.branch.clone(),
            },
        }
    }

    /// A field-by-field copy, equal as a value.
    pub fn duplicate(&self) -> (r: GitHubTarget)
        ensures
            r == *self,
    {
        GitHubTarget {
            owner: self.owner.clone(),
            repo: self.repo.clone(),
            branch: self.branch.clone(),
        }
    }
}

/// Whether two targets name the same destination.
pub fn targets_equal(a: &GitHubTarget, b: &GitHubTarget) -> (r: bool)
    ensures
        r == same_target(*a, *b),
{
    a.owner == b.owner && a.repo == b.repo && a.branch == b.branch
}

/// The pending files bound for the given target, in input order.
pub open spec fn group_of(fs: Seq<PendingFile>, t: GitHubTarget) -> Seq<PendingFile>
    decreases fs.len(),
{
    if fs.len() == 0 {
        Seq::empty()
    } else {
        let prev = group_of(fs.drop_last(), t);
        if same_target(fs.last().target, t) {
            prev.push(fs.last())
        } else {
            prev
        }
    }
}

proof fn lemma_group_of_contains(fs: Seq<PendingFile>, t: GitHubTarget, j: int)
    requires
        0 <= j < fs.len(),
        same_target(fs[j].target, t),
    ensures
        group_of(fs, t).contains(fs[j]),
        group_of(fs, t).len() > 0,
    decreases fs.len(),
{
    if j == fs.len() - 1 {
        assert(fs.last() == fs[j]);
        let g = group_of(fs, t);
        assert(g.last() == fs[j]);
        assert(g.contains(fs[j]));
    } else {
        assert(fs.drop_last()[j] == fs[j]);
        lemma_group_of_contains(fs.drop_last(), t, j);
        let prev = group_of(fs.drop_last(), t);
        let w = choose|w: int| 0 <= w < prev.len() && prev[w] == fs[j];
        if same_target(fs.last().target, t) {
            assert(group_of(fs, t)[w] == fs[j]);
        }
    }
}

proof fn lemma_group_of_members(fs: Seq<PendingFile>, t: GitHubTarget, w: int)
    requires
        0 <= w < group_of(fs, t).len(),
    ensures
        same_target(group_of(fs, t)[w].target, t),
        exists|j: int| 0 <= j < fs.len() && fs[j] == group_of(fs, t)[w],
    decreases fs.len(),
{
    if fs.len() > 0 {
        let prev = group_of(fs.drop_last(), t);
        if same_target(fs.last().target, t) && w == prev.len() {
            assert(group_of(fs, t)[w] == fs.last());
            assert(fs[fs.len() - 1] == fs.last());
        } else {
            lemma_group_of_members(fs.drop_last(), t, w);
            let j = choose|j: int| 0 <= j < fs.drop_last().len() && fs.drop_last()[j] == prev[w];
            assert(fs[j] == fs.drop_last()[j]);
        }
    }
}

/// Whether some target in the list names the same destination.
pub open spec fn has_target(ts: Seq<GitHubTarget>, t: GitHubTarget) -> bool {
    exists|w: int| 0 <= w < ts.len() && same_target(t, #[trigger] ts[w])
}

/// Whether some file in the list is bound for the destination.
pub open spec fn target_used(fs: Seq<PendingFile>, t: GitHubTarget) -> bool {
    exists|j: int| 0 <= j < fs.len() && same_target((#[trigger] fs[j]).target, t)
}

/// Whether some group is keyed by the destination.
pub open spec fn has_group(gs: Seq<(GitHubTarget, Vec<PendingFile>)>, t: GitHubTarget) -> bool {
    exists|k: int| 0 <= k < gs.len() && same_target(t, (#[trigger] gs[k]).0)
}

/// The files of one destination, in input order.
fn collect_group(files: &Vec<PendingFile>, target: &GitHubTarget) -> (r: Vec<PendingFile>)
    ensures
        r@ == group_of(files@, *target),
{
    let ghost t = *target;
    let mut group: Vec<PendingFile> = Vec::new();
    let mut j: usize = 0;
    proof {
        assert(files@.subrange(0, 0) =~= Seq::<PendingFile>::empty());
        assert(group@ =~= group_of(files@.subrange(0, 0), t));
    }
    while j < files.len()
        invariant
            0 <= j <= files@.len(),
            t == *target,
            group@ == group_of(files@.subrange(0, j as int), t),
        decreases files@.len() - j,
    {
        proof {
            assert(files@.subrange(0, j + 1).drop_last() =~= files@.subrange(0, j as int));
            assert(files@.subrange(0, j + 1).last() == files@[j as int]);
        }
        if targets_equal(&files[j].target, target) {
            let f = &files[j];
            let pf = PendingFile {
                path: f.path.clone(),
                content: f.content.clone(),
                org_label: f.org_label.clone(),
                member_count: f.member_count,
                target: f.target.duplicate(),
            };
            assert(pf == files@[j as int]);
            group.push(pf);
        }
        j = j + 1;
    }
    proof {
        assert(files@.subrange(0, files@.len() as int) =~= files@);
    }
    group
}

/// The distinct destinations of a file list, in first-appearance order.
fn distinct_targets(files: &Vec<PendingFile>) -> (r: Vec<GitHubTarget>)
    ensures
        forall|a: int, b: int|
            0 <= a < b < r@.len() ==> !same_target((#[trigger] r@[a]), (#[trigger] r@[b])),
        forall|j: int| 0 <= j < files@.len() ==> has_target(r@, (#[trigger] files@[j]).target),
        forall|w: int| 0 <= w < r@.len() ==> target_used(files@, #[trigger] r@[w]),
{
    let mut targets: Vec<GitHubTarget> = Vec::new();
    let mut i: usize = 0;
    while i < files.len()
        invariant
            0 <= i <= files@.len(),
            forall|a: int, b: int|
                0 <= a < b < targets@.len() ==> !same_target(
                    (#[trigger] targets@[a]),
                    (#[trigger] targets@[b]),
                ),
            forall|j: int| 0 <= j < i ==> has_target(targets@, (#[trigger] files@[j]).target),
            forall|w: int| 0 <= w < targets@.len() ==> target_used(files@, #[trigger] targets@[w]),
        decreases files@.len() - i,
    {
        let mut found = false;
        let mut k: usize = 0;
        while k < targets.len()
            invariant
                0 <= k <= targets@.len(),
                i < files@.len(),
                found <==> exists|w: int|
                    0 <= w < k && same_target(files@[i as int].target, #[trigger] targets@[w]),
            decreases targets@.len() - k,
        {
            if targets_equal(&files[i].target, &targets[k]) {
                found = true;
            }
            k = k + 1;
        }
        if found {
            proof {
                assert(has_target(targets@, files@[i as int].target));
            }
        } else {
            let ghost old_targets = targets@;
            targets.push(files[i].target.duplicate());
            proof {
                assert(targets@ =~= old_targets.push(files@[i as int].target));
                let newpos = old_targets.len() as int;
                assert(same_target(files@[i as int].target, targets@[newpos]));
                assert(has_target(targets@, files@[i as int].target));
                assert forall|a: int, b: int|
                    0 <= a < b < targets@.len() implies !same_target(
                    (#[trigger] targets@[a]),
                    (#[trigger] targets@[b]),
                ) by {
                    if b < newpos {
                        assert(targets@[a] == old_targets[a]);
                        assert(targets@[b] == old_targets[b]);
                    } else {
                        assert(targets@[a] == old_targets[a]);
                        assert(targets@[b] == files@[i as int].target);
                    }
                }
                assert forall|j: int| 0 <= j < i + 1 implies has_target(
                    targets@,
                    (#[trigger] files@[j]).target,
                ) by {
                    if j < i {
                        let w = choose|w: int|
                            0 <= w < old_targets.len() && same_target(
                                files@[j].target,
                                #[trigger] old_targets[w],
                            );
                        assert(targets@[w] == old_targets[w]);
                        assert(same_target(files@[j].target, targets@[w]));
                    }
                }
                assert forall|w: int| 0 <= w < targets@.len() implies target_used(
                    files@,
                    #[trigger] targets@[w],
                ) by {
                    if w < newpos {
                        assert(targets@[w] == old_targets[w]);
                    } else {
                        assert(same_target(files@[i as int].target, targets@[w]));
                    }
                }
            }
        }
        i = i + 1;
    }
    targets
}

/// Group pending files by destination: one group per distinct target, in
/// first-appearance order, each holding exactly that target's files in
/// input order. Two files with the same destination always land in one
/// group, so one batch commit is issued per destination.
pub fn group_by_target(files: &Vec<PendingFile>) -> (r: Vec<(GitHubTarget, Vec<PendingFile>)>)
    ensures
        forall|k: int| 0 <= k < r@.len() ==> (#[trigger] r@[k]).1@ == group_of(files@, r@[k].0),
        forall|k: int| 0 <= k < r@.len() ==> (#[trigger] r@[k]).1@.len() > 0,
        forall|k1: int, k2: int|
            0 <= k1 < k2 < r@.len() ==> !same_target((#[trigger] r@[k1]).0, (#[trigger] r@[k2]).0),
        forall|j: int| 0 <= j < files@.len() ==> has_group(r@, (#[trigger] files@[j]).target),
{
    let targets = distinct_targets(files);
    let mut out: Vec<(GitHubTarget, Vec<PendingFile>)> = Vec::new();
    let mut k: usize = 0;
    while k < targets.len()
        invariant
            0 <= k <= targets@.len(),
            out@.len() == k,
            forall|a: int, b: int|
                0 <= a < b < targets@.len() ==> !same_target(
                    (#[trigger] targets@[a]),
                    (#[trigger] targets@[b]),
                ),
            forall|w: int| 0 <= w < targets@.len() ==> target_used(files@, #[trigger] targets@[w]),
            forall|w: int| 0 <= w < k ==> (#[trigger] out@[w]).0 == targets@[w],
            forall|w: int|
                0 <= w < k ==> (#[trigger] out@[w]).1@ == group_of(files@, targets@[w]),
            forall|w: int| 0 <= w < k ==> (#[trigger] out@[w]).1@.len() > 0,
        decreases targets@.len() - k,
    {
        let target = targets[k].duplicate();
        assert(target == targets@[k as int]);
        let group = collect_group(files, &target);
        proof {
            assert(target_used(files@, targets@[k as int]));
            let wj = choose|wj: int|
                0 <= wj < files@.len() && same_target(
                    (#[trigger] files@[wj]).target,
                    targets@[k as int],
                );
            lemma_group_of_contains(files@, target, wj);
        }
        let ghost old_out = out@;
        out.push((target, group));
        proof {
            assert(out@ =~= old_out.push((target, group)));
        }
        k = k + 1;
    }
    proof {
        assert forall|j: int| 0 <= j < files@.len() implies has_group(
            out@,
            (#[trigger] files@[j]).target,
        ) by {
            assert(has_target(targets@, files@[j].target));
            let w = choose|w: int|
                0 <= w < targets@.len() && same_target(
                    files@[j].target,
                    #[trigger] targets@[w],
                );
            assert(out@[w].0 == targets@[w]);
            assert(same_target(files@[j].target, out@[w].0));
        }
    }
    out
}

/// Every pending file lands in exactly one group, and two files with the
/// same destination land in the same group: one batch commit per
/// destination carries all of that destination's files.
pub proof fn lemma_one_batch_per_target(
    files: Seq<PendingFile>,
    groups: Seq<(GitHubTarget, Vec<PendingFile>)>,
    i: int,
    j: int,
)
    requires
        forall|k: int| 0 <= k < groups.len() ==> (#[trigger] groups[k]).1@ == group_of(files, groups[k].0),
        forall|k1: int, k2: int|
            0 <= k1 < k2 < groups.len() ==> !same_target(
                (#[trigger] groups[k1]).0,
                (#[trigger] groups[k2]).0,
            ),
        forall|w: int|
            0 <= w < files.len() ==> exists|k: int|
                0 <= k < groups.len() && same_target((#[trigger] files[w]).target, groups[k].0),
        0 <= i < files.len(),
        0 <= j < files.len(),
        same_target(files[i].target, files[j].target),
    ensures
        exists|k: int|
            0 <= k < groups.len() && (#[trigger] groups[k]).1@.contains(files[i])
                && groups[k].1@.contains(files[j]),
        forall|k1: int, k2: int|
            0 <= k1 < groups.len() && 0 <= k2 < groups.len() && (#[trigger] groups[k1]).1@.contains(
                files[i],
            ) && (#[trigger] groups[k2]).1@.contains(files[i]) ==> k1 == k2,
{
    let k = choose|k: int|
        0 <= k < groups.len() && same_target((files[i]).target, #[trigger] groups[k].0);
    assert(same_target(files[j].target, groups[k].0));
    lemma_group_of_contains(files, groups[k].0, i);
    lemma_group_of_contains(files, groups[k].0, j);
    assert(groups[k].1@.contains(files[i]) && groups[k].1@.contains(files[j]));
    assert forall|k1: int, k2: int|
        0 <= k1 < groups.len() && 0 <= k2 < groups.len() && (#[trigger] groups[k1]).1@.contains(
            files[i],
        ) && (#[trigger] groups[k2]).1@.contains(files[i]) implies k1 == k2 by {
        let w1 = choose|w: int| 0 <= w < groups[k1].1@.len() && groups[k1].1@[w] == files[i];
        let w2 = choose|w: int| 0 <= w < groups[k2].1@.len() && groups[k2].1@[w] == files[i];
        lemma_group_of_members(files, groups[k1].0, w1);
        lemma_group_of_members(files, groups[k2].0, w2);
        assert(same_target(files[i].target, groups[k1].0));
        assert(same_target(files[i].target, groups[k2].0));
        if k1 < k2 {
            assert(!same_target(groups[k1].0, groups[k2].0));
        } else if k2 < k1 {
            assert(!same_target(groups[k2].0, groups[k1].0));
        }
    }
}

/// The per-file lines of a multi-file commit message.
pub open spec fn message_lines(fs: Seq<PendingFile>) -> Seq<u8>
    decreases fs.len(),
{
    if fs.len() == 0 {
        Seq::empty()
    } else {
        message_lines(fs.drop_last()) + (str_bytes("- "@) + str_bytes(fs.last().org_label@)
            + str_bytes(": "@) + dec_digits(fs.last().member_count as nat) + str_bytes(
            " members\n"@,
        ))
    }
}

/// The batch commit message: a single file names its organization and
/// member count in the subject; several files get one line each.
pub open spec fn commit_message_bytes(fs: Seq<PendingFile>) -> Seq<u8> {
    if fs.len() == 1 {
        str_bytes("Update "@) + str_bytes(fs[0].org_label@) + str_bytes(" callsign notes ("@)
            + dec_digits(fs[0].member_count as nat) + str_bytes(
            " members)\n\nGenerated by qrqcrew-notes-daemon"@,
        )
    } else {
        str_bytes("Update callsign notes\n\n"@) + message_lines(fs) + str_bytes(
            "\nGenerated by qrqcrew-notes-daemon"@,
        )
    }
}

/// Append a number's decimal text to a valid UTF-8 buffer.
fn push_count(out: &mut Vec<u8>, n: u64)
    requires
        valid_utf8(old(out)@),
    ensures
        final(out)@ == old(out)@ + dec_digits(n as nat),
        valid_utf8(final(out)@),
{
    let digits = u64_to_dec(n);
    proof {
        lemma_dec_digits_props(n as nat);
        assert(crate::text::all_ascii(digits@));
        lemma_ascii_valid_utf8(digits@);
    }
    push_bytes(out, &digits);
}

/// Build the batch commit message for one destination's pending files.
pub fn build_commit_message(files: &Vec<PendingFile>) -> (r: String)
    ensures
        str_bytes(r@) == commit_message_bytes(files@),
{
    let mut out: Vec<u8> = Vec::new();
    proof {
        assert(valid_utf8(out@));
    }
    if files.len() == 1 {
        push_piece(&mut out, "Update ");
        push_piece(&mut out, files[0].org_label.as_str());
        push_piece(&mut out, " callsign notes (");
        push_count(&mut out, files[0].member_count as u64);
        push_piece(&mut out, " members)\n\nGenerated by qrqcrew-notes-daemon");
        proof {
            assert(out@ =~= commit_message_bytes(files@));
        }
    } else {
        push_piece(&mut out, "Update callsign notes\n\n");
        let ghost head = out@;
        let mut i: usize = 0;
        proof {
            assert(files@.subrange(0, 0) =~= Seq::<PendingFile>::empty());
            assert(out@ =~= head + message_lines(files@.subrange(0, 0)));
        }
        while i < files.len()
            invariant
                0 <= i <= files@.len(),
                out@ == head + message_lines(files@.subrange(0, i as int)),
                valid_utf8(out@),
            decreases files@.len() - i,
        {
            let ghost before = out@;
            proof {
                assert(files@.subrange(0, i + 1).drop_last() =~= files@.subrange(0, i as int));
                assert(files@.subrange(0, i + 1).last() == files@[i as int]);
            }
            push_piece(&mut out, "- ");
            push_piece(&mut out, files[i].org_label.as_str());
            push_piece(&mut out, ": ");
            push_count(&mut out, files[i].member_count as u64);
            push_piece(&mut out, " members\n");
            proof {
                assert(out@ =~= head + message_lines(files@.subrange(0, i + 1)));
            }
            i = i + 1;
        }
        push_piece(&mut out, "\nGenerated by qrqcrew-notes-daemon");
        proof {
            assert(files@.subrange(0, files@.len() as int) =~= files@);
            assert(out@ =~= commit_message_bytes(files@));
        }
    }
    let ghost ob = out@;
    let r = string_from_bytes(out);
    proof {
        vstd::utf8::decode_utf8_encode_utf8(ob);
    }
    r
}

/// What the base64 standard-alphabet decoder yields for an input, if it
/// succeeds; a function of the input alone.
pub uninterp spec fn b64_decode_of(s: Seq<u8>) -> Option<Seq<u8>>;

/// Relies on the base64 crate's `STANDARD` engine `decode`: whether it
/// succeeds, and the bytes it yields, are a function of the input alone.
#[verifier::external_body]
fn b64_decode(v: &Vec<u8>) -> (r: Option<Vec<u8>>)
    ensures
        match r {
            Some(x) => b64_decode_of(v@) == Some(x@),
            None => b64_decode_of(v@) is None,
        },
{
    base64::engine::general_purpose::STANDARD.decode(v.as_slice()).ok()
}

/// A byte string with all ASCII whitespace removed.
pub open spec fn without_spaces(s: Seq<u8>) -> Seq<u8>
    decreases s.len(),
{
    if s.len() == 0 {
        Seq::empty()
    } else {
        let prev = without_spaces(s.drop_last());
        if is_space_byte(s.last()) {
            prev
        } else {
            prev.push(s.last())
        }
    }
}

/// Decode base64 file content as the hosting API returns it: the content
/// comes wrapped in whitespace, which is stripped before decoding, and
/// the decoded bytes must be UTF-8 text.
pub fn decode_remote_content(encoded: &str) -> (r: Option<String>)
    ensures
        ({
            let cleaned = without_spaces(str_bytes(encoded@));
            match b64_decode_of(cleaned) {
                None => r is None,
                Some(bytes) => if valid_utf8(bytes) {
                    r matches Some(s) && s@ == decode_utf8(bytes)
                } else {
                    r is None
                },
            }
        }),
{
    let raw = encoded.as_bytes_vec();
    let ghost rb = raw@;
    let mut cleaned: Vec<u8> = Vec::new();
    let mut i: usize = 0;
    proof {
        assert(rb.subrange(0, 0) =~= Seq::<u8>::empty());
        assert(cleaned@ =~= without_spaces(rb.subrange(0, 0)));
    }
    while i < raw.len()
        invariant
            0 <= i <= rb.len(),
            rb == raw@,
            cleaned@ == without_spaces(rb.subrange(0, i as int)),
        decreases rb.len() - i,
    {
        proof {
            assert(rb.subrange(0, i + 1).drop_last() =~= rb.subrange(0, i as int));
            assert(rb.subrange(0, i + 1).last() == rb[i as int]);
        }
        if !crate::text::space_byte(raw[i]) {
            cleaned.push(raw[i]);
        }
        i = i + 1;
    }
    proof {
        assert(rb.subrange(0, rb.len() as int) =~= rb);
    }
    match b64_decode(&cleaned) {
        None => None,
        Some(bytes) => crate::text::bytes_to_string(bytes),
    }
}

} // verus!
