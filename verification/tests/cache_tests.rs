use qrqcrew_notes_daemon::cache::{NicknameCache, StoredEntry, CACHE_TTL_SECS};

#[test]
fn test_cache_insert_and_get() {
    let mut cache = NicknameCache::empty();

    cache.insert("W6JSV", Some("Jay".to_string()));
    cache.insert("K4MW", None);

    assert_eq!(cache.get("W6JSV"), Some(Some("Jay".to_string())));
    assert_eq!(cache.get("w6jsv"), Some(Some("Jay".to_string()))); // Case insensitive
    assert_eq!(cache.get("K4MW"), Some(None)); // Cached as "no nickname"
    assert_eq!(cache.get("N0CALL"), None); // Not cached
}

#[test]
fn test_cache_persistence() {
    // Write some entries, persist them as stored entries, rebuild, and
    // verify the rebuilt cache answers the same.
    let stored: Vec<(Vec<u8>, Option<String>, u64)>;
    {
        let mut cache = NicknameCache::empty();
        cache.insert("W6JSV", Some("Jay".to_string()));
        cache.insert("K4MW", None);
        stored = cache.stored();
        cache.mark_clean();
    }

    {
        let mut entries: Vec<StoredEntry> = Vec::new();
        for (key, nickname, cached_at) in stored {
            entries.push(StoredEntry {
                callsign: String::from_utf8(key).unwrap(),
                nickname,
                cached_at,
            });
        }
        let cache = NicknameCache::from_entries(entries, 0);
        assert_eq!(cache.get("W6JSV"), Some(Some("Jay".to_string())));
        assert_eq!(cache.get("K4MW"), Some(None));
    }
}

#[test]
fn test_filter_uncached() {
    let mut cache = NicknameCache::empty();

    cache.insert("W6JSV", Some("Jay".to_string()));

    let callsigns = vec!["W6JSV".to_string(), "K4MW".to_string(), "WN7JT".to_string()];

    let uncached = cache.filter_uncached(&callsigns);
    assert_eq!(uncached.len(), 2);
    assert!(uncached.contains(&"K4MW".to_string()));
    assert!(uncached.contains(&"WN7JT".to_string()));
}

#[test]
fn test_cache_expiry() {
    // A fresh entry answers; once the clock passes its time-to-live it
    // counts as absent.
    let mut cache = NicknameCache::empty();
    cache.insert_at("W6JSV", Some("Jay".to_string()), 1_000);
    assert_eq!(cache.get_at("W6JSV", 1_000), Some(Some("Jay".to_string())));
    assert_eq!(cache.get_at("W6JSV", 1_000 + CACHE_TTL_SECS), Some(Some("Jay".to_string())));
    assert_eq!(cache.get_at("W6JSV", 1_001 + CACHE_TTL_SECS), None);
}

#[test]
fn test_cache_case_insensitive_keys() {
    // Keys are case-insensitive: a lowercase insert answers an uppercase
    // query, and an uppercase re-insert overwrites it.
    let mut cache = NicknameCache::empty();
    cache.insert("w6jsv", Some("Jay".to_string()));
    assert_eq!(cache.get("W6JSV"), Some(Some("Jay".to_string())));
    cache.insert("W6JSV", Some("Joe".to_string()));
    assert_eq!(cache.get("w6jsv"), Some(Some("Joe".to_string())));
    assert_eq!(cache.len(), 1);
}

#[test]
fn test_cache_load_prunes_expired() {
    // Rebuilding from stored entries prunes the expired ones and keeps
    // the first occurrence of a repeated key.
    let entries = vec![
        StoredEntry { callsign: "K4MW".to_string(), nickname: Some("Mike".to_string()), cached_at: 100 },
        StoredEntry { callsign: "W6JSV".to_string(), nickname: Some("Jay".to_string()), cached_at: 90 },
        StoredEntry { callsign: "K4MW".to_string(), nickname: Some("Other".to_string()), cached_at: 100 },
        StoredEntry { callsign: "N1A".to_string(), nickname: None, cached_at: 0 },
    ];
    let now = CACHE_TTL_SECS + 60;
    let cache = NicknameCache::from_entries(entries, now);
    // N1A expired (cached at 0), the duplicate K4MW dropped.
    assert_eq!(cache.len(), 2);
    assert_eq!(cache.get_at("K4MW", now), Some(Some("Mike".to_string())));
    assert_eq!(cache.get_at("W6JSV", now), Some(Some("Jay".to_string())));
    assert_eq!(cache.get_at("N1A", now), None);
    assert!(!cache.is_dirty());
}

#[test]
fn test_cache_dirty_tracking() {
    let mut cache = NicknameCache::empty();
    assert!(!cache.is_dirty());
    assert!(cache.is_empty());
    cache.insert("K4MW", None);
    assert!(cache.is_dirty());
    assert!(!cache.is_empty());
    cache.mark_clean();
    assert!(!cache.is_dirty());
    assert_eq!(cache.len(), 1);
}
