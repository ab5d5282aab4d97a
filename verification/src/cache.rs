//! The TTL-based nickname cache: an upsert map from uppercased callsign
//! to an optional nickname with its caching time.
//!
//! An entry older than the time-to-live counts as absent on read and is
//! pruned when a cache is built from persisted entries. A `None` nickname
//! is itself cached, so a callsign known to have none is not looked up
//! again.

use vstd::prelude::*;
use vstd::string::StrSliceExecFns;

use crate::member::str_bytes;
use crate::text::{upper_bytes, upper_vec, bytes_eq};

verus! {

/// How long a cached nickname stays fresh: thirty days, in seconds.
pub const CACHE_TTL_SECS: u64 = 30 * 24 * 60 * 60;

/// One cached lookup result; the key is the UTF-8 of the uppercased
/// callsign.
struct CacheEntry {
    key: Vec<u8>,
    nickname: Option<String>,
    cached_at: u64,
}

/// The mathematical value of a cache entry.
pub ghost struct CacheEntryView {
    pub callsign: Seq<u8>,
    pub nickname: Option<Seq<u8>>,
    pub cached_at: u64,
}

impl CacheEntry {
    /// The value of this entry, with strings as their UTF-8 bytes.
    spec fn v(self) -> CacheEntryView {
        CacheEntryView {
            callsign: self.key@,
            nickname: match self.nickname {
                Some(n) => Some(str_bytes(n@)),
                None => None,
            },
            cached_at: self.cached_at,
        }
    }
}

/// Whether an entry cached at `cached_at` has outlived the time-to-live
/// at time `now`.
pub open spec fn expired(cached_at: u64, now: u64) -> bool {
    now as int > cached_at as int + CACHE_TTL_SECS as int
}

/// The first entry with the given key, if any.
pub open spec fn spec_find(es: Seq<CacheEntryView>, k: Seq<u8>) -> Option<CacheEntryView>
    decreases es.len(),
{
    if es.len() == 0 {
        None
    } else if es[0].callsign == k {
        Some(es[0])
    } else {
        spec_find(es.drop_first(), k)
    }
}

/// The uppercased key a callsign is cached under.
pub open spec fn cache_key(callsign: Seq<char>) -> Seq<u8> {
    upper_bytes(str_bytes(callsign))
}

proof fn lemma_spec_find_at(es: Seq<CacheEntryView>, k: Seq<u8>, i: int)
    requires
        0 <= i <= es.len(),
        forall|j: int| 0 <= j < i ==> (#[trigger] es[j]).callsign != k,
        i == es.len() || es[i].callsign == k,
    ensures
        spec_find(es, k) == (if i == es.len() {
            Option::<CacheEntryView>::None
        } else {
            Option::<CacheEntryView>::Some(es[i])
        }),
    decreases es.len(),
{
    if es.len() == 0 {
    } else if i == 0 {
    } else {
        assert(es[0].callsign != k);
        lemma_spec_find_at(es.drop_first(), k, i - 1);
    }
}

proof fn lemma_find_none(es: Seq<CacheEntryView>, k: Seq<u8>)
    requires
        spec_find(es, k) is None,
    ensures
        forall|j: int| 0 <= j < es.len() ==> (#[trigger] es[j]).callsign != k,
    decreases es.len(),
{
    if es.len() > 0 {
        assert(es[0].callsign != k);
        lemma_find_none(es.drop_first(), k);
        assert forall|j: int| 0 <= j < es.len() implies (#[trigger] es[j]).callsign != k by {
            if j > 0 {
                assert(es.drop_first()[j - 1] == es[j]);
            }
        }
    }
}

proof fn lemma_find_update_other(
    old_es: Seq<CacheEntryView>,
    new_es: Seq<CacheEntryView>,
    pos: int,
    ev: CacheEntryView,
    k: Seq<u8>,
)
    requires
        0 <= pos < old_es.len(),
        new_es == old_es.update(pos, ev),
        old_es[pos].callsign == ev.callsign,
        k != ev.callsign,
    ensures
        spec_find(new_es, k) == spec_find(old_es, k),
    decreases old_es.len(),
{
    if old_es.len() == 0 {
    } else {
        assert(new_es[0] == (if pos == 0 {
            ev
        } else {
            old_es[0]
        }));
        if pos == 0 {
            assert(new_es.drop_first() =~= old_es.drop_first());
        } else if old_es[0].callsign == k {
        } else {
            assert(new_es.drop_first() =~= old_es.drop_first().update(pos - 1, ev));
            lemma_find_update_other(old_es.drop_first(), new_es.drop_first(), pos - 1, ev, k);
        }
    }
}

proof fn lemma_find_push_other(old_es: Seq<CacheEntryView>, ev: CacheEntryView, k: Seq<u8>)
    requires
        k != ev.callsign,
    ensures
        spec_find(old_es.push(ev), k) == spec_find(old_es, k),
    decreases old_es.len(),
{
    let w = old_es.push(ev);
    if old_es.len() == 0 {
        assert(w[0] == ev);
        assert(w.drop_first() =~= Seq::<CacheEntryView>::empty());
    } else {
        assert(w[0] == old_es[0]);
        if old_es[0].callsign != k {
            assert(w.drop_first() =~= old_es.drop_first().push(ev));
            lemma_find_push_other(old_es.drop_first(), ev, k);
        }
    }
}

/// A file-backed map from uppercased callsign to cached nickname, with
/// dirty tracking for batched saves.
pub struct NicknameCache {
    entries: Vec<CacheEntry>,
    dirty: bool,
}

impl NicknameCache {
    /// The entry values held, in storage order.
    pub closed spec fn entries_v(self) -> Seq<CacheEntryView> {
        self.entries@.map_values(|e: CacheEntry| e.v())
    }

    /// Whether unsaved changes exist.
    pub closed spec fn spec_dirty(self) -> bool {
        self.dirty
    }

    /// Keys are unique, so the entry list behaves as a map.
    pub open spec fn wf(self) -> bool {
        forall|i: int, j: int|
            0 <= i < j < self.entries_v().len() ==> (#[trigger] self.entries_v()[i]).callsign != (
            #[trigger] self.entries_v()[j]).callsign
    }

    /// An empty, clean cache.
    pub fn empty() -> (r: Self)
        ensures
            r.wf(),
            r.entries_v() == Seq::<CacheEntryView>::empty(),
            !r.spec_dirty(),
    {
        let r = NicknameCache { entries: Vec::new(), dirty: false };
        proof {
            assert(r.entries_v() =~= Seq::<CacheEntryView>::empty());
        }
        r
    }

    /// The storage index of the entry with the given key.
    fn find_idx(&self, key: &Vec<u8>) -> (r: Option<usize>)
        ensures
            match r {
                Some(i) => i < self.entries_v().len() && spec_find(self.entries_v(), key@) == Some(
                    self.entries_v()[i as int],
                ) && self.entries_v()[i as int].callsign == key@,
                None => spec_find(self.entries_v(), key@) is None,
            },
    {
        let ghost es = self.entries_v();
        let mut i: usize = 0;
        while i < self.entries.len()
            invariant
                0 <= i <= self.entries@.len(),
                es == self.entries_v(),
                es.len() == self.entries@.len(),
                forall|j: int| 0 <= j < i ==> (#[trigger] es[j]).callsign != key@,
            decreases self.entries@.len() - i,
        {
            proof {
                assert(es[i as int] == self.entries@[i as int].v());
            }
            if bytes_eq(&self.entries[i].key, key) {
                proof {
                    lemma_spec_find_at(es, key@, i as int);
                }
                return Some(i);
            }
            i = i + 1;
        }
        proof {
            lemma_spec_find_at(es, key@, es.len() as int);
        }
        None
    }

    /// Look up a callsign at time `now`: `None` for a miss or an expired
    /// entry, `Some(None)` for a cached "no nickname", `Some(Some(n))` for
    /// a cached nickname. The key comparison uppercases the query.
    pub fn get_at(&self, callsign: &str, now: u64) -> (r: Option<Option<String>>)
        ensures
            match spec_find(self.entries_v(), cache_key(callsign@)) {
                None => r is None,
                Some(e) => if expired(e.cached_at, now) {
                    r is None
                } else {
                    match e.nickname {
                        Some(n) => r matches Some(Some(rn)) && str_bytes(rn@) == n,
                        None => r == Some(Option::<String>::None),
                    }
                },
            },
    {
        let key = upper_vec(&callsign.as_bytes_vec());
        assert(key@ == cache_key(callsign@));
        match self.find_idx(&key) {
            None => None,
            Some(i) => {
                let e = &self.entries[i];
                proof {
                    assert(self.entries_v()[i as int] == self.entries@[i as int].v());
                }
                if now > e.cached_at && now - e.cached_at > CACHE_TTL_SECS {
                    None
                } else {
                    match &e.nickname {
                        Some(n) => Some(Some(n.clone())),
                        None => Some(None),
                    }
                }
            },
        }
    }

    /// Look up a callsign at the current time. For every present entry the
    /// result is either its nickname or, if the clock has passed its
    /// time-to-live, a miss; for an absent key it is always a miss.
    pub fn get(&self, callsign: &str) -> (r: Option<Option<String>>)
        ensures
            match spec_find(self.entries_v(), cache_key(callsign@)) {
                None => r is None,
                Some(e) => r is None || (match e.nickname {
                    Some(n) => r matches Some(Some(rn)) && str_bytes(rn@) == n,
                    None => r == Some(Option::<String>::None),
                }),
            },
    {
        let now = now_secs();
        self.get_at(callsign, now)
    }

    /// Upsert a nickname under the uppercased callsign at time `now`; the
    /// cache becomes dirty. Every other key keeps its entry.
    pub fn insert_at(&mut self, callsign: &str, nickname: Option<String>, now: u64)
        requires
            old(self).wf(),
        ensures
            final(self).wf(),
            final(self).spec_dirty(),
            spec_find(final(self).entries_v(), cache_key(callsign@)) matches Some(e) && e.callsign
                == cache_key(callsign@) && e.cached_at == now && (match (e.nickname, nickname) {
                (Some(en), Some(n)) => en == str_bytes(n@),
                (None, None) => true,
                _ => false,
            }),
            forall|k: Seq<u8>|
                k != cache_key(callsign@) ==> #[trigger] spec_find(final(self).entries_v(), k)
                    == spec_find(old(self).entries_v(), k),
    {
        let ghost old_es = self.entries_v();
        let key = upper_vec(&callsign.as_bytes_vec());
        assert(key@ == cache_key(callsign@));
        let ghost kb = key@;
        let idx = self.find_idx(&key);
        let entry = CacheEntry { key, nickname, cached_at: now };
        let ghost ev = entry.v();
        assert(ev.callsign == kb);
        match idx {
            Some(i) => {
                let ghost pos = i as int;
                self.entries.set(i, entry);
                self.dirty = true;
                proof {
                    let new_es = self.entries_v();
                    assert(new_es =~= old_es.update(pos, ev));
                    assert forall|a: int, b: int|
                        0 <= a < b < new_es.len() implies (#[trigger] new_es[a]).callsign != (
                    #[trigger] new_es[b]).callsign by {
                        if a != pos && b != pos {
                            assert(new_es[a] == old_es[a]);
                            assert(new_es[b] == old_es[b]);
                        } else if a == pos {
                            assert(new_es[b] == old_es[b]);
                            assert(old_es[pos].callsign == kb);
                        } else {
                            assert(new_es[a] == old_es[a]);
                            assert(old_es[pos].callsign == kb);
                        }
                    }
                    lemma_spec_find_at(new_es, kb, pos);
                    assert forall|k: Seq<u8>| k != kb implies #[trigger] spec_find(new_es, k)
                        == spec_find(old_es, k) by {
                        lemma_find_update_other(old_es, new_es, pos, ev, k);
                    }
                }
            },
            None => {
                let ghost pos = old_es.len() as int;
                self.entries.push(entry);
                self.dirty = true;
                proof {
                    lemma_find_none(old_es, kb);
                    let new_es = self.entries_v();
                    assert(new_es =~= old_es.push(ev));
                    assert forall|a: int, b: int|
                        0 <= a < b < new_es.len() implies (#[trigger] new_es[a]).callsign != (
                    #[trigger] new_es[b]).callsign by {
                        if b < pos {
                            assert(new_es[a] == old_es[a]);
                            assert(new_es[b] == old_es[b]);
                        } else {
                            assert(new_es[a] == old_es[a]);
                            assert(new_es[b] == ev);
                        }
                    }
                    lemma_spec_find_at(new_es, kb, pos);
                    assert forall|k: Seq<u8>| k != kb implies #[trigger] spec_find(new_es, k)
                        == spec_find(old_es, k) by {
                        lemma_find_push_other(old_es, ev, k);
                    }
                }
            },
        }
    }

    /// Upsert a nickname under the uppercased callsign, stamped with the
    /// current time.
    pub fn insert(&mut self, callsign: &str, nickname: Option<String>)
        requires
            old(self).wf(),
        ensures
            final(self).wf(),
            final(self).spec_dirty(),
            spec_find(final(self).entries_v(), cache_key(callsign@)) matches Some(e) && e.callsign
                == cache_key(callsign@) && (match (e.nickname, nickname) {
                (Some(en), Some(n)) => en == str_bytes(n@),
                (None, None) => true,
                _ => false,
            }),
            forall|k: Seq<u8>|
                k != cache_key(callsign@) ==> #[trigger] spec_find(final(self).entries_v(), k)
                    == spec_find(old(self).entries_v(), k),
    {
        let now = now_secs();
        self.insert_at(callsign, nickname, now)
    }

    /// Number of entries held (fresh or not).
    pub fn len(&self) -> (r: usize)
        ensures
            r == self.entries_v().len(),
    {
        self.entries.len()
    }

    /// Whether the cache holds no entries.
    pub fn is_empty(&self) -> (r: bool)
        ensures
            r == (self.entries_v().len() == 0),
    {
        self.entries.is_empty()
    }

    /// Whether unsaved changes exist.
    pub fn is_dirty(&self) -> (r: bool)
        ensures
            r == self.spec_dirty(),
    {
        self.dirty
    }

    /// Mark the cache saved.
    pub fn mark_clean(&mut self)
        ensures
            final(self).entries_v() == old(self).entries_v(),
            final(self).wf() == old(self).wf(),
            !final(self).spec_dirty(),
    {
        self.dirty = false;
    }
}

/// The current time as epoch seconds, clamped to zero for times before
/// the epoch; nothing more is known of the value.
pub(crate) fn now_secs() -> u64 {
    let t = crate::clock::now_unix_secs();
    if t < 0 {
        0
    } else {
        t as u64
    }
}

/// A persisted cache entry, as the backing file stores it: the key under
/// which it was saved, the optional nickname, and the caching time in
/// epoch seconds.
pub struct StoredEntry {
    pub callsign: String,
    pub nickname: Option<String>,
    pub cached_at: u64,
}

impl StoredEntry {
    /// The value of this stored entry.
    pub open spec fn v(self) -> CacheEntryView {
        CacheEntryView {
            callsign: str_bytes(self.callsign@),
            nickname: match self.nickname {
                Some(n) => Some(str_bytes(n@)),
                None => None,
            },
            cached_at: self.cached_at,
        }
    }
}

/// The stored-entry values of a list.
pub open spec fn stored_views(es: Seq<StoredEntry>) -> Seq<CacheEntryView> {
    es.map_values(|e: StoredEntry| e.v())
}

/// The entries a cache keeps when rebuilt from persisted entries at time
/// `now`: processed in order, an entry is dropped if it has expired or its
/// key is already present (first occurrence wins).
pub open spec fn load_fold(es: Seq<CacheEntryView>, now: u64) -> Seq<CacheEntryView>
    decreases es.len(),
{
    if es.len() == 0 {
        Seq::empty()
    } else {
        let prev = load_fold(es.drop_last(), now);
        let e = es.last();
        if expired(e.cached_at, now) || spec_find(prev, e.callsign) is Some {
            prev
        } else {
            prev.push(e)
        }
    }
}

/// Whether a callsign needs a fresh lookup against these entries at time
/// `now`: its key is absent or its entry has expired.
pub open spec fn needs_lookup(es: Seq<CacheEntryView>, c: Seq<char>, now: u64) -> bool {
    match spec_find(es, cache_key(c)) {
        None => true,
        Some(e) => expired(e.cached_at, now),
    }
}

/// The callsigns of a list that need a fresh lookup, in order.
pub open spec fn uncached_of(es: Seq<CacheEntryView>, css: Seq<Seq<char>>, now: u64) -> Seq<
    Seq<char>,
>
    decreases css.len(),
{
    if css.len() == 0 {
        Seq::empty()
    } else {
        let prev = uncached_of(es, css.drop_last(), now);
        if needs_lookup(es, css.last(), now) {
            prev.push(css.last())
        } else {
            prev
        }
    }
}

impl NicknameCache {
    /// Rebuild a cache from persisted entries: expired entries are pruned
    /// and repeated keys keep their first occurrence. The result is clean.
    pub fn from_entries(list: Vec<StoredEntry>, now: u64) -> (r: Self)
        ensures
            r.wf(),
            !r.spec_dirty(),
            r.entries_v() == load_fold(stored_views(list@), now),
    {
        let ghost views = stored_views(list@);
        let mut cache = NicknameCache::empty();
        let mut i: usize = 0;
        proof {
            assert(views.subrange(0, 0) =~= Seq::<CacheEntryView>::empty());
            assert(load_fold(views.subrange(0, 0), now) == Seq::<CacheEntryView>::empty());
        }
        while i < list.len()
            invariant
                0 <= i <= list@.len(),
                views == stored_views(list@),
                views.len() == list@.len(),
                cache.wf(),
                !cache.spec_dirty(),
                cache.entries_v() == load_fold(views.subrange(0, i as int), now),
            decreases list@.len() - i,
        {
            let ghost old_es = cache.entries_v();
            let ghost ev = views[i as int];
            proof {
                assert(ev == list@[i as int].v());
                assert(views.subrange(0, i + 1).drop_last() =~= views.subrange(0, i as int));
                assert(views.subrange(0, i + 1).last() == ev);
            }
            let item = &list[i];
            let fresh = !(now > item.cached_at && now - item.cached_at > CACHE_TTL_SECS);
            if fresh {
                let key = item.callsign.as_str().as_bytes_vec();
                assert(key@ == ev.callsign);
                if cache.find_idx(&key).is_none() {
                    let nickname = match &item.nickname {
                        Some(n) => Some(n.clone()),
                        None => None,
                    };
                    let entry_key = item.callsign.as_str().as_bytes_vec();
                    let entry = CacheEntry {
                        key: entry_key,
                        nickname,
                        cached_at: item.cached_at,
                    };
                    proof {
                        assert(entry.v() == ev);
                        lemma_find_none(old_es, ev.callsign);
                    }
                    cache.entries.push(entry);
                    proof {
                        let new_es = cache.entries_v();
                        assert(new_es =~= old_es.push(ev));
                        assert forall|a: int, b: int|
                            0 <= a < b < new_es.len() implies (#[trigger] new_es[a]).callsign != (
                        #[trigger] new_es[b]).callsign by {
                            if b < old_es.len() {
                                assert(new_es[a] == old_es[a]);
                                assert(new_es[b] == old_es[b]);
                            } else {
                                assert(new_es[a] == old_es[a]);
                                assert(new_es[b] == ev);
                            }
                        }
                    }
                }
            }
            i = i + 1;
        }
        proof {
            assert(views.subrange(0, views.len() as int) =~= views);
        }
        cache
    }

    /// The entries held, for persisting: key bytes, nickname, caching
    /// time, in storage order.
    pub fn stored(&self) -> (r: Vec<(Vec<u8>, Option<String>, u64)>)
        ensures
            r@.len() == self.entries_v().len(),
            forall|i: int|
                0 <= i < r@.len() ==> {
                    let e = #[trigger] r@[i];
                    &&& e.0@ == self.entries_v()[i].callsign
                    &&& (match (e.1, self.entries_v()[i].nickname) {
                        (Some(n), Some(en)) => str_bytes(n@) == en,
                        (None, None) => true,
                        _ => false,
                    })
                    &&& e.2 == self.entries_v()[i].cached_at
                },
    {
        let ghost es = self.entries_v();
        let mut out: Vec<(Vec<u8>, Option<String>, u64)> = Vec::new();
        let mut i: usize = 0;
        while i < self.entries.len()
            invariant
                0 <= i <= self.entries@.len(),
                es == self.entries_v(),
                es.len() == self.entries@.len(),
                out@.len() == i,
                forall|j: int|
                    0 <= j < i ==> {
                        let e = #[trigger] out@[j];
                        &&& e.0@ == es[j].callsign
                        &&& (match (e.1, es[j].nickname) {
                            (Some(n), Some(en)) => str_bytes(n@) == en,
                            (None, None) => true,
                            _ => false,
                        })
                        &&& e.2 == es[j].cached_at
                    },
            decreases self.entries@.len() - i,
        {
            proof {
                assert(es[i as int] == self.entries@[i as int].v());
            }
            let e = &self.entries[i];
            let mut key: Vec<u8> = Vec::new();
            key.extend_from_slice(e.key.as_slice());
            proof {
                assert(key@ =~= es[i as int].callsign);
            }
            let nickname = match &e.nickname {
                Some(n) => Some(n.clone()),
                None => None,
            };
            out.push((key, nickname, e.cached_at));
            i = i + 1;
        }
        out
    }

    /// The callsigns of the given list that need a fresh lookup at time
    /// `now`, in input order.
    pub fn filter_uncached_at(&self, callsigns: &Vec<String>, now: u64) -> (r: Vec<String>)
        ensures
            r.deep_view() == uncached_of(self.entries_v(), callsigns.deep_view(), now),
    {
        let ghost css = callsigns.deep_view();
        let mut out: Vec<String> = Vec::new();
        let mut i: usize = 0;
        proof {
            assert(css.subrange(0, 0) =~= Seq::<Seq<char>>::empty());
            assert(out.deep_view() =~= Seq::<Seq<char>>::empty());
        }
        while i < callsigns.len()
            invariant
                0 <= i <= callsigns@.len(),
                css == callsigns.deep_view(),
                css.len() == callsigns@.len(),
                out.deep_view() == uncached_of(self.entries_v(), css.subrange(0, i as int), now),
            decreases callsigns@.len() - i,
        {
            proof {
                assert(css[i as int] == callsigns@[i as int]@);
                assert(css.subrange(0, i + 1).drop_last() =~= css.subrange(0, i as int));
                assert(css.subrange(0, i + 1).last() == css[i as int]);
            }
            let ghost before = out.deep_view();
            if self.get_at(callsigns[i].as_str(), now).is_none() {
                out.push(callsigns[i].clone());
                proof {
                    assert(out.deep_view() =~= before.push(css[i as int]));
                }
            }
            i = i + 1;
        }
        proof {
            assert(css.subrange(0, css.len() as int) =~= css);
        }
        out
    }

    /// The callsigns of the given list that the cache cannot currently
    /// answer, in input order.
    pub fn filter_uncached(&self, callsigns: &Vec<String>) -> (r: Vec<String>)
        ensures
            exists|t: u64|
                r.deep_view() == #[trigger] uncached_of(
                    self.entries_v(),
                    callsigns.deep_view(),
                    t,
                ),
    {
        let now = now_secs();
        self.filter_uncached_at(callsigns, now)
    }
}

} // verus!
