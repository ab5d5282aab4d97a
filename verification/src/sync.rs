//! Per-organization pipeline decisions: applying cached and looked-up
//! nicknames to a member list, bounding lookup concurrency, retry
//! backoff, and deciding whether an organization's pass yields a pending
//! file for the batch commit.
//!
//! The loop that performs network work lives outside the library; it asks
//! these functions what to do at each step.

use vstd::prelude::*;
use vstd::string::StrSliceExecFns;

use crate::cache::{needs_lookup, spec_find, uncached_of, cache_key, NicknameCache};
use crate::github::{GitHubTarget, PendingFile};
use crate::member::{str_bytes, Member};
use crate::notes::filtered_lines;
use crate::text::bytes_eq;

verus! {

/// How many lookups may be in flight at once unless configured otherwise.
pub const DEFAULT_MAX_CONCURRENT_LOOKUPS: usize = 10;

/// The fixed pause before each lookup request, to avoid bursting the
/// service.
pub const LOOKUP_DELAY_MS: u64 = 50;

/// How many times a roster fetch is attempted before the organization's
/// pass fails.
pub const MAX_FETCH_ATTEMPTS: u32 = 3;

/// The exponential-backoff delay before retrying a failed fetch: half a
/// second, doubling with each attempt.
pub fn backoff_delay_ms(attempt: u32) -> (r: u64)
    requires
        1 <= attempt <= MAX_FETCH_ATTEMPTS,
    ensures
        attempt == 1 ==> r == 500,
        attempt == 2 ==> r == 1000,
        attempt == 3 ==> r == 2000,
{
    if attempt == 1 {
        500
    } else if attempt == 2 {
        1000
    } else {
        2000
    }
}

/// The counting permit that bounds concurrent lookups: at most `max`
/// holders at any time. A holder acquires before its request and releases
/// after; the bound `in_flight <= max` holds at every step.
pub struct LookupLimiter {
    pub max: usize,
    pub in_flight: usize,
}

impl LookupLimiter {
    /// No more than the configured maximum is ever in flight.
    pub open spec fn inv(self) -> bool {
        self.in_flight <= self.max
    }

    /// A limiter for the configured maximum, with nothing in flight.
    pub fn new(max: usize) -> (r: Self)
        ensures
            r.max == max,
            r.in_flight == 0,
            r.inv(),
    {
        LookupLimiter { max, in_flight: 0 }
    }

    /// Take a permit if one is free; never exceeds the bound.
    pub fn try_acquire(&mut self) -> (r: bool)
        requires
            old(self).inv(),
        ensures
            final(self).inv(),
            final(self).max == old(self).max,
            r ==> old(self).in_flight < old(self).max && final(self).in_flight == old(
                self,
            ).in_flight + 1,
            !r ==> *final(self) == *old(self) && old(self).in_flight == old(self).max,
    {
        if self.in_flight < self.max {
            self.in_flight = self.in_flight + 1;
            true
        } else {
            false
        }
    }

    /// Return a permit.
    pub fn release(&mut self)
        requires
            old(self).inv(),
            old(self).in_flight > 0,
        ensures
            final(self).inv(),
            final(self).max == old(self).max,
            final(self).in_flight == old(self).in_flight - 1,
    {
        self.in_flight = self.in_flight - 1;
    }
}

/// One finished lookup: the callsign that was asked and the nickname that
/// came back.
pub struct LookupResult {
    pub callsign: String,
    pub nickname: Option<String>,
}

/// The mathematical value of a lookup result.
pub ghost struct LookupResultView {
    pub callsign: Seq<u8>,
    pub nickname: Option<Seq<u8>>,
}

impl LookupResult {
    /// The value of this result, with strings as their UTF-8 bytes.
    pub open spec fn v(self) -> LookupResultView {
        LookupResultView {
            callsign: str_bytes(self.callsign@),
            nickname: match self.nickname {
                Some(n) => Some(str_bytes(n@)),
                None => None,
            },
        }
    }
}

/// The result values of a list.
pub open spec fn result_views(rs: Seq<LookupResult>) -> Seq<LookupResultView> {
    rs.map_values(|r: LookupResult| r.v())
}

/// The nickname the results hold for a callsign: the first result whose
/// callsign matches, if any.
pub open spec fn find_nick(rs: Seq<LookupResultView>, cs: Seq<u8>) -> Option<Option<Seq<u8>>>
    decreases rs.len(),
{
    if rs.len() == 0 {
        None
    } else if rs[0].callsign == cs {
        Some(rs[0].nickname)
    } else {
        find_nick(rs.drop_first(), cs)
    }
}

proof fn lemma_find_nick_at(rs: Seq<LookupResultView>, cs: Seq<u8>, i: int)
    requires
        0 <= i <= rs.len(),
        forall|j: int| 0 <= j < i ==> (#[trigger] rs[j]).callsign != cs,
        i == rs.len() || rs[i].callsign == cs,
    ensures
        find_nick(rs, cs) == (if i == rs.len() {
            Option::<Option<Seq<u8>>>::None
        } else {
            Option::<Option<Seq<u8>>>::Some(rs[i].nickname)
        }),
    decreases rs.len(),
{
    if rs.len() == 0 {
    } else if i == 0 {
    } else {
        assert(rs[0].callsign != cs);
        lemma_find_nick_at(rs.drop_first(), cs, i - 1);
    }
}

/// The nickname the results hold for a callsign.
fn lookup_result_for(results: &Vec<LookupResult>, key: &Vec<u8>) -> (r: Option<Option<String>>)
    ensures
        match r {
            Some(n) => find_nick(result_views(results@), key@) matches Some(fn_) && (match (
                n,
                fn_,
            ) {
                (Some(a), Some(b)) => str_bytes(a@) == b,
                (None, None) => true,
                _ => false,
            }),
            None => find_nick(result_views(results@), key@) is None,
        },
{
    let ghost rv = result_views(results@);
    let mut k: usize = 0;
    while k < results.len()
        invariant
            0 <= k <= results@.len(),
            rv == result_views(results@),
            rv.len() == results@.len(),
            forall|j: int| 0 <= j < k ==> (#[trigger] rv[j]).callsign != key@,
        decreases results@.len() - k,
    {
        proof {
            assert(rv[k as int] == results@[k as int].v());
        }
        let c = results[k].callsign.as_str().as_bytes_vec();
        if bytes_eq(&c, key) {
            proof {
                lemma_find_nick_at(rv, key@, k as int);
            }
            let n = match &results[k].nickname {
                Some(x) => Some(x.clone()),
                None => None,
            };
            return Some(n);
        }
        k = k + 1;
    }
    proof {
        lemma_find_nick_at(rv, key@, rv.len() as int);
    }
    None
}

/// Apply collected lookup results to the member list by callsign key:
/// order-independent, each member takes the result for its own callsign
/// and keeps its nickname where no result matches. Callsigns and member
/// numbers never change.
pub fn apply_nicknames(members: &mut Vec<Member>, results: &Vec<LookupResult>)
    ensures
        final(members)@.len() == old(members)@.len(),
        forall|i: int|
            0 <= i < final(members)@.len() ==> {
                let m0 = #[trigger] old(members)@[i];
                let m1 = final(members)@[i];
                &&& m1.callsign@ == m0.callsign@
                &&& m1.member_id@ == m0.member_id@
                &&& (match find_nick(result_views(results@), str_bytes(m0.callsign@)) {
                    Some(n) => (match (m1.nickname, n) {
                        (Some(a), Some(b)) => str_bytes(a@) == b,
                        (None, None) => true,
                        _ => false,
                    }),
                    None => m1.nickname == m0.nickname,
                })
            },
{
    let ghost orig = members@;
    let mut i: usize = 0;
    while i < members.len()
        invariant
            0 <= i <= members@.len(),
            members@.len() == orig.len(),
            forall|j: int| i <= j < orig.len() ==> #[trigger] members@[j] == orig[j],
            forall|j: int|
                0 <= j < i ==> {
                    let m0 = #[trigger] orig[j];
                    let m1 = members@[j];
                    &&& m1.callsign@ == m0.callsign@
                    &&& m1.member_id@ == m0.member_id@
                    &&& (match find_nick(result_views(results@), str_bytes(m0.callsign@)) {
                        Some(n) => (match (m1.nickname, n) {
                            (Some(a), Some(b)) => str_bytes(a@) == b,
                            (None, None) => true,
                            _ => false,
                        }),
                        None => m1.nickname == m0.nickname,
                    })
                },
        decreases members@.len() - i,
    {
        let key = members[i].callsign.as_str().as_bytes_vec();
        assert(key@ == str_bytes(orig[i as int].callsign@));
        match lookup_result_for(results, &key) {
            Some(n) => {
                let updated = Member {
                    callsign: members[i].callsign.clone(),
                    member_id: members[i].member_id.clone(),
                    nickname: n,
                };
                members.set(i, updated);
            },
            None => {},
        }
        i = i + 1;
    }
}

/// Apply cached nicknames to the member list at time `now` and return the
/// callsigns that still need a lookup, in member order: each member with a
/// fresh cache entry takes its nickname; the rest keep theirs and are
/// listed for lookup. Callsigns and member numbers never change.
pub fn apply_cache_at(members: &mut Vec<Member>, cache: &NicknameCache, now: u64) -> (r: Vec<
    String,
>)
    ensures
        final(members)@.len() == old(members)@.len(),
        forall|i: int|
            0 <= i < final(members)@.len() ==> {
                let m0 = #[trigger] old(members)@[i];
                let m1 = final(members)@[i];
                &&& m1.callsign@ == m0.callsign@
                &&& m1.member_id@ == m0.member_id@
                &&& (if needs_lookup(cache.entries_v(), m0.callsign@, now) {
                    m1.nickname == m0.nickname
                } else {
                    match (
                        m1.nickname,
                        spec_find(cache.entries_v(), cache_key(m0.callsign@))->0.nickname,
                    ) {
                        (Some(a), Some(b)) => str_bytes(a@) == b,
                        (None, None) => true,
                        _ => false,
                    }
                })
            },
        r.deep_view() == uncached_of(
            cache.entries_v(),
            old(members)@.map_values(|m: Member| m.callsign@),
            now,
        ),
{
    let ghost orig = members@;
    let ghost css = orig.map_values(|m: Member| m.callsign@);
    let mut uncached: Vec<String> = Vec::new();
    let mut i: usize = 0;
    proof {
        assert(css.subrange(0, 0) =~= Seq::<Seq<char>>::empty());
        assert(uncached.deep_view() =~= uncached_of(cache.entries_v(), css.subrange(0, 0), now));
    }
    while i < members.len()
        invariant
            0 <= i <= members@.len(),
            members@.len() == orig.len(),
            css == orig.map_values(|m: Member| m.callsign@),
            css.len() == orig.len(),
            forall|j: int| i <= j < orig.len() ==> #[trigger] members@[j] == orig[j],
            forall|j: int|
                0 <= j < i ==> {
                    let m0 = #[trigger] orig[j];
                    let m1 = members@[j];
                    &&& m1.callsign@ == m0.callsign@
                    &&& m1.member_id@ == m0.member_id@
                    &&& (if needs_lookup(cache.entries_v(), m0.callsign@, now) {
                        m1.nickname == m0.nickname
                    } else {
                        match (
                            m1.nickname,
                            spec_find(cache.entries_v(), cache_key(m0.callsign@))->0.nickname,
                        ) {
                            (Some(a), Some(b)) => str_bytes(a@) == b,
                            (None, None) => true,
                            _ => false,
                        }
                    })
                },
            uncached.deep_view() == uncached_of(cache.entries_v(), css.subrange(0, i as int), now),
        decreases members@.len() - i,
    {
        proof {
            assert(css[i as int] == orig[i as int].callsign@);
            assert(css.subrange(0, i + 1).drop_last() =~= css.subrange(0, i as int));
            assert(css.subrange(0, i + 1).last() == css[i as int]);
        }
        let ghost before = uncached.deep_view();
        match cache.get_at(members[i].callsign.as_str(), now) {
            Some(n) => {
                let updated = Member {
                    callsign: members[i].callsign.clone(),
                    member_id: members[i].member_id.clone(),
                    nickname: n,
                };
                members.set(i, updated);
            },
            None => {
                uncached.push(members[i].callsign.clone());
                proof {
                    assert(uncached.deep_view() =~~= before.push(css[i as int]));
                }
            },
        }
        i = i + 1;
    }
    proof {
        assert(css.subrange(0, css.len() as int) =~= css);
    }
    uncached
}

/// Decide one organization's pending file: an empty roster is skipped, a
/// dry run commits nothing, unchanged content (compared without its
/// generation-timestamp lines) is skipped, and otherwise the rendered
/// content is queued for its destination with the organization's label
/// and member count.
pub fn plan_org_update(
    org_label: &String,
    output_file: &String,
    target: GitHubTarget,
    members: &Vec<Member>,
    content: String,
    remote: Option<&String>,
    dry_run: bool,
) -> (r: Option<PendingFile>)
    ensures
        ({
            let changed = match remote {
                Some(e) => filtered_lines(str_bytes(e@)) != filtered_lines(str_bytes(content@)),
                None => true,
            };
            if members@.len() == 0 || dry_run || !changed {
                r is None
            } else {
                r matches Some(pf) && pf.path == *output_file && pf.content == content
                    && pf.org_label == *org_label && pf.member_count == members@.len() && pf.target
                    == target
            }
        }),
{
    if members.len() == 0 {
        return None;
    }
    if dry_run {
        return None;
    }
    if !crate::notes::content_changed(remote, &content) {
        return None;
    }
    let member_count = members.len();
    Some(
        PendingFile {
            path: output_file.clone(),
            content,
            org_label: org_label.clone(),
            member_count,
            target,
        },
    )
}

} // verus!
