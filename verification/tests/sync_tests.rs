use qrqcrew_notes_daemon::cache::NicknameCache;
use qrqcrew_notes_daemon::config::{GitHubConfig, GitHubTargetOverride};
use qrqcrew_notes_daemon::github::{
    build_commit_message, decode_remote_content, group_by_target, GitHubTarget, PendingFile,
};
use qrqcrew_notes_daemon::member::Member;
use qrqcrew_notes_daemon::notes::NotesGenerator;
use qrqcrew_notes_daemon::sync::{
    apply_cache_at, apply_nicknames, backoff_delay_ms, plan_org_update, LookupLimiter,
    LookupResult, DEFAULT_MAX_CONCURRENT_LOOKUPS,
};

fn global_config() -> GitHubConfig {
    GitHubConfig {
        token: "token".to_string(),
        owner: "globalowner".to_string(),
        repo: "globalrepo".to_string(),
        branch: "main".to_string(),
        file_path: "notes.txt".to_string(),
        commit_author_name: "Bot".to_string(),
        commit_author_email: "bot@example.com".to_string(),
    }
}

fn target(owner: &str, repo: &str) -> GitHubTarget {
    GitHubTarget {
        owner: owner.to_string(),
        repo: repo.to_string(),
        branch: "main".to_string(),
    }
}

fn pending(label: &str, count: usize, t: GitHubTarget) -> PendingFile {
    PendingFile {
        path: format!("{}.txt", label),
        content: format!("content of {}", label),
        org_label: label.to_string(),
        member_count: count,
        target: t,
    }
}

#[test]
fn test_resolve_target_override() {
    let global = global_config();
    let none = GitHubTarget::resolve(None, &global);
    assert_eq!(none.owner, "globalowner");
    assert_eq!(none.repo, "globalrepo");
    assert_eq!(none.branch, "main");

    let partial = GitHubTargetOverride {
        owner: Some("orgowner".to_string()),
        repo: None,
        branch: None,
    };
    let resolved = GitHubTarget::resolve(Some(&partial), &global);
    assert_eq!(resolved.owner, "orgowner");
    assert_eq!(resolved.repo, "globalrepo");
    assert_eq!(resolved.branch, "main");
}

#[test]
fn test_group_by_target_single_batch() {
    // Two organizations resolving to the same destination share one
    // batch; a third destination gets its own.
    let shared = target("owner", "repo");
    let files = vec![
        pending("Alpha", 2, shared.duplicate()),
        pending("Beta", 3, target("other", "repo")),
        pending("Gamma", 4, shared.duplicate()),
    ];
    let groups = group_by_target(&files);
    assert_eq!(groups.len(), 2);
    assert_eq!(groups[0].0.owner, "owner");
    assert_eq!(groups[0].1.len(), 2);
    assert_eq!(groups[0].1[0].org_label, "Alpha");
    assert_eq!(groups[0].1[1].org_label, "Gamma");
    assert_eq!(groups[1].0.owner, "other");
    assert_eq!(groups[1].1.len(), 1);
    assert_eq!(groups[1].1[0].org_label, "Beta");
}

#[test]
fn test_build_commit_message_single() {
    let files = vec![pending("QRQ Crew", 42, target("o", "r"))];
    let message = build_commit_message(&files);
    assert_eq!(
        message,
        "Update QRQ Crew callsign notes (42 members)\n\nGenerated by qrqcrew-notes-daemon"
    );
}

#[test]
fn test_build_commit_message_multi() {
    let files = vec![
        pending("QRQ Crew", 42, target("o", "r")),
        pending("SKCC", 7, target("o", "r")),
    ];
    let message = build_commit_message(&files);
    assert_eq!(
        message,
        "Update callsign notes\n\n- QRQ Crew: 42 members\n- SKCC: 7 members\n\nGenerated by qrqcrew-notes-daemon"
    );
}

#[test]
fn test_decode_remote_content() {
    // The hosting API returns base64 with line wrapping; decoding strips
    // the whitespace first.
    let encoded = "aGVsbG8g\nd29ybGQ=\n";
    assert_eq!(decode_remote_content(encoded), Some("hello world".to_string()));
    assert_eq!(decode_remote_content("!!!not base64"), None);
}

#[test]
fn test_lookup_limiter_bound() {
    // The counting permit never exceeds its bound.
    let mut limiter = LookupLimiter::new(2);
    assert!(limiter.try_acquire());
    assert!(limiter.try_acquire());
    assert!(!limiter.try_acquire());
    assert_eq!(limiter.in_flight, 2);
    limiter.release();
    assert!(limiter.try_acquire());
    assert!(!limiter.try_acquire());
    assert_eq!(limiter.max, 2);
    assert!(DEFAULT_MAX_CONCURRENT_LOOKUPS == 10);
}

#[test]
fn test_backoff_delays() {
    assert_eq!(backoff_delay_ms(1), 500);
    assert_eq!(backoff_delay_ms(2), 1000);
    assert_eq!(backoff_delay_ms(3), 2000);
}

#[test]
fn test_apply_nicknames_by_key() {
    // Results apply by callsign key, whatever their order; members
    // without a result keep their nickname.
    let mut members = vec![
        Member { callsign: "K4MW".to_string(), member_id: "1".to_string(), nickname: None },
        Member { callsign: "W6JSV".to_string(), member_id: "10".to_string(), nickname: None },
        Member {
            callsign: "WN7JT".to_string(),
            member_id: "2".to_string(),
            nickname: Some("Kept".to_string()),
        },
    ];
    let results = vec![
        LookupResult { callsign: "W6JSV".to_string(), nickname: Some("Jay".to_string()) },
        LookupResult { callsign: "K4MW".to_string(), nickname: None },
    ];
    apply_nicknames(&mut members, &results);
    assert_eq!(members[0].nickname, None);
    assert_eq!(members[1].nickname, Some("Jay".to_string()));
    assert_eq!(members[2].nickname, Some("Kept".to_string()));
}

#[test]
fn test_apply_cache_fills_and_filters() {
    let mut cache = NicknameCache::empty();
    cache.insert_at("K4MW", Some("Mike".to_string()), 100);
    cache.insert_at("W6JSV", None, 100);

    let mut members = vec![
        Member { callsign: "K4MW".to_string(), member_id: "1".to_string(), nickname: None },
        Member { callsign: "W6JSV".to_string(), member_id: "10".to_string(), nickname: None },
        Member { callsign: "WN7JT".to_string(), member_id: "2".to_string(), nickname: None },
    ];
    let uncached = apply_cache_at(&mut members, &cache, 100);
    assert_eq!(members[0].nickname, Some("Mike".to_string()));
    assert_eq!(members[1].nickname, None);
    assert_eq!(uncached, vec!["WN7JT".to_string()]);
}

#[test]
fn test_plan_org_update() {
    let generator = NotesGenerator::new("⚓".to_string(), "QRQ Crew".to_string(), None);
    let members = vec![Member {
        callsign: "K4MW".to_string(),
        member_id: "1".to_string(),
        nickname: None,
    }];
    let label = "QRQ Crew".to_string();
    let file = "notes.txt".to_string();

    // An empty roster yields nothing.
    let content = generator.generate_at(&vec![], 0);
    assert!(plan_org_update(&label, &file, target("o", "r"), &vec![], content, None, false)
        .is_none());

    // Unchanged content (a fresh timestamp only) yields nothing.
    let old_render = generator.generate_at(&members, 1_000);
    let new_render = generator.generate_at(&members, 2_000);
    assert!(plan_org_update(
        &label,
        &file,
        target("o", "r"),
        &members,
        new_render,
        Some(&old_render),
        false
    )
    .is_none());

    // A dry run commits nothing even when content changed.
    let changed = generator.generate_at(&members, 3_000);
    assert!(
        plan_org_update(&label, &file, target("o", "r"), &members, changed, None, true).is_none()
    );

    // A changed roster yields the pending file.
    let content = generator.generate_at(&members, 4_000);
    let pf = plan_org_update(
        &label,
        &file,
        target("o", "r"),
        &members,
        content.clone(),
        None,
        false,
    )
    .unwrap();
    assert_eq!(pf.path, "notes.txt");
    assert_eq!(pf.org_label, "QRQ Crew");
    assert_eq!(pf.member_count, 1);
    assert_eq!(pf.content, content);
    assert_eq!(pf.target.owner, "o");
}
