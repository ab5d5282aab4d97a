//! The nickname-lookup client logic: parsing the lookup service's XML
//! responses, and the session state machine with its single transparent
//! re-authentication retry.
//!
//! The network calls live outside the library; the functions here decide,
//! from a response text alone, what was answered and what to do next, so
//! that a session-expiry signal clears the cached key and is retried
//! exactly once ([`lemma_expired_twice_fails`]).

use vstd::prelude::*;
use vstd::string::{StrSliceExecFns, StringExecFns};

verus! {

/// Whether the pattern occurs in the text starting at position `i`.
pub open spec fn match_at(s: Seq<char>, pat: Seq<char>, i: int) -> bool {
    0 <= i && i + pat.len() <= s.len() && s.subrange(i, i + pat.len()) == pat
}

/// The first position at or after `from` where the pattern occurs.
pub open spec fn first_match(s: Seq<char>, pat: Seq<char>, from: int) -> Option<int>
    decreases s.len() - from + 1,
{
    if from < 0 || from + pat.len() > s.len() {
        None
    } else if match_at(s, pat, from) {
        Some(from)
    } else {
        first_match(s, pat, from + 1)
    }
}

proof fn lemma_first_match_at(s: Seq<char>, pat: Seq<char>, from: int, i: int)
    requires
        0 <= from <= i,
        forall|k: int| from <= k < i ==> !match_at(s, pat, #[trigger] (k + 0)),
        i + pat.len() > s.len() || match_at(s, pat, i),
    ensures
        first_match(s, pat, from) == (if i + pat.len() <= s.len() {
            Option::<int>::Some(i)
        } else {
            Option::<int>::None
        }),
    decreases i - from,
{
    if from + pat.len() > s.len() {
        if i + pat.len() <= s.len() {
            assert(false);
        }
    } else if from == i {
    } else {
        assert(!match_at(s, pat, from + 0));
        lemma_first_match_at(s, pat, from + 1, i);
    }
}

/// Whether the pattern occurs at position `i`.
fn match_here(s: &str, pat: &str, i: usize, n: usize, m: usize) -> (r: bool)
    requires
        n == s@.len(),
        m == pat@.len(),
        i + m <= n,
    ensures
        r == match_at(s@, pat@, i as int),
{
    let mut j: usize = 0;
    while j < m
        invariant
            0 <= j <= m,
            n == s@.len(),
            m == pat@.len(),
            i + m <= n,
            forall|k: int| 0 <= k < j ==> s@[i + k] == #[trigger] pat@[k],
        decreases m - j,
    {
        if s.get_char(i + j) != pat.get_char(j) {
            proof {
                let t = s@.subrange(i as int, i + m);
                assert(t[j as int] == s@[i + j]);
                assert(t != pat@);
            }
            return false;
        }
        j = j + 1;
    }
    proof {
        let t = s@.subrange(i as int, i + m);
        assert forall|k: int| 0 <= k < t.len() implies t[k] == pat@[k] by {
            assert(t[k] == s@[i + k]);
        }
        assert(t =~= pat@);
    }
    true
}

/// The first occurrence of a pattern at or after `from`, by character
/// position.
fn find_from(s: &str, pat: &str, from: usize) -> (r: Option<usize>)
    ensures
        match r {
            Some(i) => first_match(s@, pat@, from as int) == Some(i as int),
            None => first_match(s@, pat@, from as int) is None,
        },
{
    let n = s.unicode_len();
    let m = pat.unicode_len();
    if from > n || m > n - from {
        proof {
            lemma_fm_oob(s@, pat@, from as int);
        }
        return None;
    }
    if m == 0 {
        proof {
            assert(s@.subrange(from as int, from as int) =~= pat@);
        }
        return Some(from);
    }
    let mut i: usize = from;
    while i <= n - m
        invariant
            from <= i,
            1 <= m <= n,
            i <= n - m + 1,
            n == s@.len(),
            m == pat@.len(),
            forall|k: int| from <= k < i ==> !match_at(s@, pat@, #[trigger] (k + 0)),
        decreases n - i,
    {
        if match_here(s, pat, i, n, m) {
            proof {
                lemma_first_match_at(s@, pat@, from as int, i as int);
            }
            return Some(i);
        }
        proof {
            assert(!match_at(s@, pat@, i + 0));
        }
        i = i + 1;
    }
    proof {
        lemma_first_match_at(s@, pat@, from as int, i as int);
    }
    None
}

proof fn lemma_fm_oob(s: Seq<char>, pat: Seq<char>, from: int)
    requires
        from > s.len() || from + pat.len() > s.len(),
    ensures
        first_match(s, pat, from) is None,
{
}

/// What a found position means: the pattern occurs there.
proof fn lemma_first_match_props(s: Seq<char>, pat: Seq<char>, from: int)
    ensures
        match first_match(s, pat, from) {
            Some(i) => from <= i && match_at(s, pat, i),
            None => true,
        },
    decreases s.len() - from + 1,
{
    if from < 0 || from + pat.len() > s.len() {
    } else if match_at(s, pat, from) {
    } else {
        lemma_first_match_props(s, pat, from + 1);
    }
}

/// Errors of the lookup client: the service rejected the credentials with
/// the given message, the response held neither a session key nor an
/// error, or a lookup kept signalling an expired session after the one
/// permitted re-authentication.
#[derive(Debug)]
pub enum QrzError {
    AuthFailed(String),
    ParseFailed,
    RetriesExhausted,
}

/// Extract the session key from an authentication response: the text
/// between `<Key>` and `</Key>`; failing that, the service's error
/// message between `<Error>` and `</Error>` is a credential rejection,
/// and anything else cannot be parsed.
pub fn extract_session_key(xml: &str) -> (r: Result<String, QrzError>)
    ensures
        ({
            let t = xml@;
            let ks = first_match(t, "<Key>"@, 0);
            let ke = first_match(t, "</Key>"@, 0);
            let es = first_match(t, "<Error>"@, 0);
            let ee = first_match(t, "</Error>"@, 0);
            if ks is Some && ke is Some && ks->0 + "<Key>"@.len() <= ke->0 {
                r matches Ok(k) && k@ == t.subrange(ks->0 + "<Key>"@.len() as int, ke->0)
            } else if es is Some && ee is Some && es->0 + "<Error>"@.len() <= ee->0 {
                r matches Err(QrzError::AuthFailed(m)) && m@ == t.subrange(
                    es->0 + "<Error>"@.len() as int,
                    ee->0,
                )
            } else {
                r matches Err(QrzError::ParseFailed)
            }
        }),
{
    let _total = xml.unicode_len();
    let open_key = "<Key>";
    let close_key = "</Key>";
    let klen = open_key.unicode_len();
    let ko = find_from(xml, open_key, 0);
    let kc = find_from(xml, close_key, 0);
    proof {
        lemma_first_match_props(xml@, open_key@, 0);
        lemma_first_match_props(xml@, close_key@, 0);
    }
    if let (Some(s), Some(e)) = (ko, kc) {
        if s + klen <= e {
            let sub = xml.substring_char(s + klen, e);
            return Ok(String::from_str(sub));
        }
    }
    let open_err = "<Error>";
    let close_err = "</Error>";
    let elen = open_err.unicode_len();
    let eo = find_from(xml, open_err, 0);
    let ec = find_from(xml, close_err, 0);
    proof {
        lemma_first_match_props(xml@, open_err@, 0);
        lemma_first_match_props(xml@, close_err@, 0);
    }
    if let (Some(s), Some(e)) = (eo, ec) {
        if s + elen <= e {
            let sub = xml.substring_char(s + elen, e);
            return Err(QrzError::AuthFailed(String::from_str(sub)));
        }
    }
    Err(QrzError::ParseFailed)
}

/// Extract the first name from a lookup response: the non-empty text
/// between `<fname>` and the `</fname>` that follows it.
pub fn extract_fname(xml: &str) -> (r: Option<String>)
    ensures
        ({
            let t = xml@;
            let fs = first_match(t, "<fname>"@, 0);
            if fs is Some {
                let start = fs->0 + "<fname>"@.len() as int;
                let fe = first_match(t, "</fname>"@, fs->0);
                if fe is Some && start <= fe->0 && fe->0 - start > 0 {
                    r matches Some(n) && n@ == t.subrange(start, fe->0)
                } else {
                    r is None
                }
            } else {
                r is None
            }
        }),
{
    let _total = xml.unicode_len();
    let open_tag = "<fname>";
    let close_tag = "</fname>";
    let olen = open_tag.unicode_len();
    match find_from(xml, open_tag, 0) {
        None => None,
        Some(s) => {
            proof {
                lemma_first_match_props(xml@, open_tag@, 0);
            }
            match find_from(xml, close_tag, s) {
                None => None,
                Some(e) => {
                    proof {
                        lemma_first_match_props(xml@, close_tag@, s as int);
                    }
                    if s + olen <= e && e - (s + olen) > 0 {
                        let sub = xml.substring_char(s + olen, e);
                        Some(String::from_str(sub))
                    } else {
                        None
                    }
                },
            }
        },
    }
}

/// What a lookup response says, at the specification level.
pub ghost enum LookupClass {
    SessionExpired,
    NotFound,
    Found(Option<Seq<char>>),
}

/// The first name a lookup response carries, if any.
pub open spec fn fname_of(t: Seq<char>) -> Option<Seq<char>> {
    let fs = first_match(t, "<fname>"@, 0);
    if fs is Some {
        let start = fs->0 + "<fname>"@.len() as int;
        let fe = first_match(t, "</fname>"@, fs->0);
        if fe is Some && start <= fe->0 && fe->0 - start > 0 {
            Some(t.subrange(start, fe->0))
        } else {
            None
        }
    } else {
        None
    }
}

/// How a lookup response classifies: an expired-session signal, a
/// "not found" answer, or a result with an optional first name.
pub open spec fn classify(t: Seq<char>) -> LookupClass {
    if first_match(t, "Session Timeout"@, 0) is Some || first_match(
        t,
        "Invalid session key"@,
        0,
    ) is Some {
        LookupClass::SessionExpired
    } else if first_match(t, "<Error>Not found"@, 0) is Some {
        LookupClass::NotFound
    } else {
        LookupClass::Found(fname_of(t))
    }
}

/// What the lookup driver does next after a response.
pub enum LookupDecision {
    /// Re-authenticate and repeat the request once.
    Retry,
    /// The lookup is finished with this result.
    Done(Result<Option<String>, QrzError>),
}

/// The lookup client: credentials and the cached session key. The network
/// lives outside; the caller authenticates and performs requests, and
/// this type decides every step.
pub struct QrzClient {
    pub username: String,
    pub password: String,
    pub session_key: Option<String>,
}

impl QrzClient {
    /// The cached session key, if any.
    pub open spec fn session_v(self) -> Option<Seq<char>> {
        match self.session_key {
            Some(k) => Some(k@),
            None => None,
        }
    }

    /// A client with no session yet.
    pub fn new(username: String, password: String) -> (r: Self)
        ensures
            r.username == username,
            r.password == password,
            r.session_v() is None,
    {
        QrzClient { username, password, session_key: None }
    }

    /// The cached session key, to be used for the next request; `None`
    /// means the caller must authenticate first.
    pub fn cached_session(&self) -> (r: Option<String>)
        ensures
            match r {
                Some(k) => self.session_v() == Some(k@),
                None => self.session_v() is None,
            },
    {
        match &self.session_key {
            Some(k) => Some(k.clone()),
            None => None,
        }
    }

    /// Store the session key obtained by an authentication round-trip.
    pub fn set_session(&mut self, key: String)
        ensures
            final(self).session_v() == Some(key@),
            final(self).username == old(self).username,
            final(self).password == old(self).password,
    {
        self.session_key = Some(key);
    }

    /// Forget the cached session key.
    pub fn clear_session(&mut self)
        ensures
            final(self).session_v() is None,
            final(self).username == old(self).username,
            final(self).password == old(self).password,
    {
        self.session_key = None;
    }

    /// Decide what a lookup response means: an expired session clears the
    /// cached key and is retried once; a second consecutive expiry fails
    /// the lookup; "not found" is a normal `None`; otherwise the result is
    /// the extracted first name.
    pub fn handle_lookup_response(&mut self, text: &str, retry_count: u8) -> (r: LookupDecision)
        ensures
            final(self).username == old(self).username,
            final(self).password == old(self).password,
            match classify(text@) {
                LookupClass::SessionExpired => final(self).session_v() is None && (if retry_count
                    == 0 {
                    r is Retry
                } else {
                    r matches LookupDecision::Done(Err(QrzError::RetriesExhausted))
                }),
                LookupClass::NotFound => final(self).session_v() == old(self).session_v() && (
                r matches LookupDecision::Done(Ok(None))),
                LookupClass::Found(n) => final(self).session_v() == old(self).session_v() && (
                match n {
                    Some(nm) => r matches LookupDecision::Done(Ok(Some(rn))) && rn@ == nm,
                    None => r matches LookupDecision::Done(Ok(None)),
                }),
            },
    {
        let expired = find_from(text, "Session Timeout", 0).is_some() || find_from(
            text,
            "Invalid session key",
            0,
        ).is_some();
        if expired {
            self.clear_session();
            if retry_count == 0 {
                LookupDecision::Retry
            } else {
                LookupDecision::Done(Err(QrzError::RetriesExhausted))
            }
        } else if find_from(text, "<Error>Not found", 0).is_some() {
            LookupDecision::Done(Ok(None))
        } else {
            LookupDecision::Done(Ok(extract_fname(text)))
        }
    }
}

/// Two consecutive expired-session responses fail the lookup without a
/// further retry: the first clears the session and asks for one retry,
/// the second ends it with a retries-exhausted error, so the member's
/// nickname stays absent and later lookups start from a clean session.
pub proof fn lemma_expired_twice_fails(t1: Seq<char>, t2: Seq<char>)
    requires
        classify(t1) is SessionExpired,
        classify(t2) is SessionExpired,
    ensures
        flow_after(flow_start(), t1) == (FlowState { session: Option::<Seq<char>>::None, retries: 1, outcome: FlowOutcome::Continue }),
        flow_after(flow_after(flow_start(), t1), t2) == (FlowState {
            session: Option::<Seq<char>>::None,
            retries: 2,
            outcome: FlowOutcome::Failed,
        }),
{
}

/// The specification-level state of one lookup's driver loop.
pub ghost struct FlowState {
    pub session: Option<Seq<char>>,
    pub retries: nat,
    pub outcome: FlowOutcome,
}

/// How a lookup ends, at the specification level.
pub ghost enum FlowOutcome {
    Continue,
    Succeeded(Option<Seq<char>>),
    Failed,
}

/// A fresh lookup attempt, before any response.
pub open spec fn flow_start() -> FlowState {
    FlowState { session: None, retries: 0, outcome: FlowOutcome::Continue }
}

/// One driver step: what a response does to the lookup's state, as
/// [`QrzClient::handle_lookup_response`] decides it.
pub open spec fn flow_after(st: FlowState, t: Seq<char>) -> FlowState {
    match classify(t) {
        LookupClass::SessionExpired => FlowState {
            session: None,
            retries: (st.retries + 1) as nat,
            outcome: if st.retries >= 1 {
                FlowOutcome::Failed
            } else {
                FlowOutcome::Continue
            },
        },
        LookupClass::NotFound => FlowState {
            session: st.session,
            retries: st.retries,
            outcome: FlowOutcome::Succeeded(None),
        },
        LookupClass::Found(n) => FlowState {
            session: st.session,
            retries: st.retries,
            outcome: FlowOutcome::Succeeded(n),
        },
    }
}

} // verus!
