use qrqcrew_notes_daemon::member::Member;
use qrqcrew_notes_daemon::notes::{content_changed, NotesGenerator};

fn crew_generator() -> NotesGenerator {
    NotesGenerator::new(
        "⚓".to_string(),
        "QRQ Crew".to_string(),
        Some("https://qrqcrew.club".to_string()),
    )
}

fn member(callsign: &str, member_id: &str) -> Member {
    Member {
        callsign: callsign.to_string(),
        member_id: member_id.to_string(),
        nickname: None,
    }
}

#[test]
fn test_generate_notes() {
    let generator = crew_generator();

    let members = vec![member("W6JSV", "10"), member("K4MW", "1"), member("WN7JT", "2")];

    let output = generator.generate(&members);

    // Check header
    assert!(output.contains("# QRQ Crew Callsign Notes for Ham2K PoLo"));
    assert!(output.contains("# Generated:"));
    assert!(output.contains("# https://qrqcrew.club"));

    // Check entries are sorted by callsign
    let lines: Vec<&str> = output.lines().filter(|l| !l.starts_with('#') && !l.is_empty()).collect();

    assert_eq!(lines.len(), 3);
    assert_eq!(lines[0], "K4MW ⚓ QRQ Crew #1");
    assert_eq!(lines[1], "W6JSV ⚓ QRQ Crew #10");
    assert_eq!(lines[2], "WN7JT ⚓ QRQ Crew #2");
}

#[test]
fn test_generate_empty() {
    let generator = crew_generator();
    let output = generator.generate(&vec![]);

    // Should still have header
    assert!(output.contains("# QRQ Crew Callsign Notes"));

    // No callsign entries
    let entries: Vec<&str> =
        output.lines().filter(|l| !l.starts_with('#') && !l.is_empty()).collect();
    assert!(entries.is_empty());
}

#[test]
fn test_generate_exact_output() {
    // The rendered file for a known timestamp, byte for byte.
    let generator = crew_generator();
    let members = vec![member("K4MW", "1"), member("W6JSV", "10")];
    let output = generator.generate_at(&members, 0);
    let expected = "# QRQ Crew Callsign Notes for Ham2K PoLo\n\
                    # Generated: 1970-01-01 00:00:00 UTC\n\
                    # https://qrqcrew.club\n\
                    # Do not edit manually - this file is auto-generated\n\
                    \n\
                    K4MW ⚓ QRQ Crew #1\n\
                    W6JSV ⚓ QRQ Crew #10\n";
    assert_eq!(output, expected);
}

#[test]
fn test_rerender_is_not_a_change() {
    // Re-rendering the same members with a different timestamp compares
    // as unchanged; a membership change compares as changed.
    let generator = crew_generator();
    let members = vec![member("K4MW", "1"), member("W6JSV", "10")];
    let first = generator.generate_at(&members, 1_000_000);
    let second = generator.generate_at(&members, 2_000_000);
    assert_ne!(first, second);
    assert!(!content_changed(Some(&first), &second));

    let grown = vec![member("K4MW", "1"), member("W6JSV", "10"), member("WN7JT", "2")];
    let third = generator.generate_at(&grown, 3_000_000);
    assert!(content_changed(Some(&first), &third));
}

#[test]
fn test_content_changed_missing_remote() {
    // A missing remote file always counts as changed.
    let generator = crew_generator();
    let output = generator.generate_at(&vec![member("K4MW", "1")], 0);
    assert!(content_changed(None, &output));
}

#[test]
fn test_content_changed_ignores_crlf() {
    // Line comparison strips carriage returns, like the line iterator of
    // the standard library.
    let a = "alpha\r\nbeta\r\n".to_string();
    let b = "alpha\nbeta\n".to_string();
    assert!(!content_changed(Some(&a), &b));
    let c = "alpha\ngamma\n".to_string();
    assert!(content_changed(Some(&c), &b));
}

#[test]
fn test_generate_without_source_url() {
    let generator = NotesGenerator::new("⚓".to_string(), "QRQ Crew".to_string(), None);
    let output = generator.generate_at(&vec![member("K4MW", "1")], 0);
    let expected = "# QRQ Crew Callsign Notes for Ham2K PoLo\n\
                    # Generated: 1970-01-01 00:00:00 UTC\n\
                    # Do not edit manually - this file is auto-generated\n\
                    \n\
                    K4MW ⚓ QRQ Crew #1\n";
    assert_eq!(output, expected);
}

#[test]
fn test_generate_duplicate_callsigns_stable() {
    // Members with equal callsigns keep their input order, so even such a
    // list re-renders identically up to the timestamp line.
    let generator = crew_generator();
    let members = vec![member("K4MW", "2"), member("A1AAA", "9"), member("K4MW", "1")];
    let first = generator.generate_at(&members, 1_000);
    let second = generator.generate_at(&members, 2_000);
    assert!(!content_changed(Some(&first), &second));

    let lines: Vec<&str> =
        first.lines().filter(|l| !l.starts_with('#') && !l.is_empty()).collect();
    assert_eq!(lines.len(), 3);
    assert_eq!(lines[0], "A1AAA ⚓ QRQ Crew #9");
    assert_eq!(lines[1], "K4MW ⚓ QRQ Crew #2");
    assert_eq!(lines[2], "K4MW ⚓ QRQ Crew #1");
}
