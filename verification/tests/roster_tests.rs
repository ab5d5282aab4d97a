use qrqcrew_notes_daemon::roster::{CsvFetcher, HtmlFetcher, ParseError};

#[test]
fn csv_fetcher_test_callsign_validation() {
    let fetcher = CsvFetcher::new("http://example.com".to_string());

    // Valid callsigns
    assert!(fetcher.is_valid_callsign("W6JSV"));
    assert!(fetcher.is_valid_callsign("K4MW"));
    assert!(fetcher.is_valid_callsign("WN7JT"));
    assert!(fetcher.is_valid_callsign("KI7QCF"));
    assert!(fetcher.is_valid_callsign("VK1AO"));
    assert!(fetcher.is_valid_callsign("N1A"));

    // Invalid callsigns
    assert!(!fetcher.is_valid_callsign(""));
    assert!(!fetcher.is_valid_callsign("INVALID"));
    assert!(!fetcher.is_valid_callsign("123"));
    assert!(!fetcher.is_valid_callsign("W6"));
    assert!(!fetcher.is_valid_callsign("W6JSVX1")); // Too many suffix letters
}

#[test]
fn test_find_callsign_column() {
    let fetcher = CsvFetcher::new("http://example.com".to_string());

    let headers = vec!["Name".to_string(), "Call".to_string(), "Number".to_string()];
    assert_eq!(fetcher.find_callsign_column(&headers), Some(1));

    let headers = vec!["Callsign".to_string(), "Name".to_string(), "QC#".to_string()];
    assert_eq!(fetcher.find_callsign_column(&headers), Some(0));

    let headers = vec!["Member".to_string(), "Call Sign".to_string(), "Date".to_string()];
    assert_eq!(fetcher.find_callsign_column(&headers), Some(1));

    // No matching header: resolution fails, and so does the parse
    let headers = vec!["K4MW".to_string(), "John".to_string(), "1".to_string()];
    assert_eq!(fetcher.find_callsign_column(&headers), None);
}

#[test]
fn test_find_qc_number_column() {
    let fetcher = CsvFetcher::new("http://example.com".to_string());

    let headers = vec!["Callsign".to_string(), "Name".to_string(), "QC #".to_string()];
    assert_eq!(fetcher.find_qc_number_column(&headers), Some(2));

    let headers = vec!["Call".to_string(), "QC#".to_string(), "Date".to_string()];
    assert_eq!(fetcher.find_qc_number_column(&headers), Some(1));

    let headers = vec!["Member".to_string(), "#".to_string(), "Notes".to_string()];
    assert_eq!(fetcher.find_qc_number_column(&headers), Some(1));

    // No matching header
    let headers = vec!["Callsign".to_string(), "Name".to_string(), "Date".to_string()];
    assert_eq!(fetcher.find_qc_number_column(&headers), None);
}

#[test]
fn test_parse_skcc_html() {
    let html = r#"
        <table class="skcc_table">
            <tr>
                <th>SKCC #</th>
                <th>Call</th>
                <th>Name</th>
            </tr>
            <tr>
                <td>1</td>
                <td>KC9ECI</td>
                <td>Tom</td>
            </tr>
            <tr>
                <td>2C</td>
                <td>KI4CIA</td>
                <td>Melinda</td>
            </tr>
            <tr>
                <td>3S</td>
                <td>N6WK/SK</td>
                <td>Gordon [SK]</td>
            </tr>
        </table>
        "#;

    let fetcher = HtmlFetcher::new("http://example.com".to_string(), 1, 0);
    let members = fetcher.parse_html(html);

    // Should have 2 members (Silent Key filtered out)
    assert_eq!(members.len(), 2);

    // Should be sorted alphabetically
    assert_eq!(members[0].callsign, "KC9ECI");
    assert_eq!(members[0].member_id, "1");

    assert_eq!(members[1].callsign, "KI4CIA");
    assert_eq!(members[1].member_id, "2C");
}

#[test]
fn html_fetcher_test_callsign_validation() {
    let fetcher = HtmlFetcher::new("http://example.com".to_string(), 1, 0);

    // Valid callsigns
    assert!(fetcher.is_valid_callsign("W6JSV"));
    assert!(fetcher.is_valid_callsign("K4MW"));
    assert!(fetcher.is_valid_callsign("KC9ECI"));
    assert!(fetcher.is_valid_callsign("VK1AO"));

    // Invalid callsigns
    assert!(!fetcher.is_valid_callsign(""));
    assert!(!fetcher.is_valid_callsign("INVALID"));
    assert!(!fetcher.is_valid_callsign("123"));
}

#[test]
fn test_csv_duplicate_and_invalid_rows() {
    // Duplicate callsigns keep their first row; invalid callsigns drop
    // theirs entirely.
    let fetcher = CsvFetcher::new("http://example.com".to_string());
    let csv = "Call,QC #\nw6jsv,10\nINVALID,5\nw6jsv,20\n";
    let members = fetcher.parse_csv(csv).unwrap();
    assert_eq!(members.len(), 1);
    assert_eq!(members[0].callsign, "W6JSV");
    assert_eq!(members[0].member_id, "10");
    assert!(members[0].nickname.is_none());
}

#[test]
fn test_csv_sorted_output() {
    // Output is sorted ascending by callsign whatever the input order.
    let fetcher = CsvFetcher::new("http://example.com".to_string());
    let csv = "Call,QC #\nWN7JT,2\nK4MW,1\nW6JSV,10\n";
    let members = fetcher.parse_csv(csv).unwrap();
    assert_eq!(members.len(), 3);
    assert_eq!(members[0].callsign, "K4MW");
    assert_eq!(members[1].callsign, "W6JSV");
    assert_eq!(members[2].callsign, "WN7JT");
}

#[test]
fn test_csv_number_canonical_form() {
    // The member number is parsed as an integer and rendered canonically.
    let fetcher = CsvFetcher::new("http://example.com".to_string());
    let csv = "Call,QC #\nK4MW,007\nW6JSV,+12\n";
    let members = fetcher.parse_csv(csv).unwrap();
    assert_eq!(members.len(), 2);
    assert_eq!(members[0].member_id, "7");
    assert_eq!(members[1].member_id, "12");
}

#[test]
fn test_csv_rejects_bad_numbers() {
    // Non-numeric and out-of-range member numbers drop the row.
    let fetcher = CsvFetcher::new("http://example.com".to_string());
    let csv = "Call,QC #\nK4MW,abc\nW6JSV,99999999999\nWN7JT,3\n";
    let members = fetcher.parse_csv(csv).unwrap();
    assert_eq!(members.len(), 1);
    assert_eq!(members[0].callsign, "WN7JT");
    assert_eq!(members[0].member_id, "3");
}

#[test]
fn test_csv_missing_number_column() {
    let fetcher = CsvFetcher::new("http://example.com".to_string());
    let csv = "Call,Name\nK4MW,Mike\n";
    assert!(matches!(fetcher.parse_csv(csv), Err(ParseError::MissingNumberColumn)));
}

#[test]
fn test_csv_missing_callsign_column() {
    // A header row without a recognized callsign name fails the parse.
    let fetcher = CsvFetcher::new("http://example.com".to_string());
    let csv = "Name,QC #\nJohn,5\n";
    assert!(matches!(fetcher.parse_csv(csv), Err(ParseError::MissingCallsignColumn)));
}

#[test]
fn test_csv_missing_header() {
    let fetcher = CsvFetcher::new("http://example.com".to_string());
    assert!(matches!(fetcher.parse_csv(""), Err(ParseError::MissingHeader)));
}

#[test]
fn test_html_silent_key_dropped() {
    // A Silent Key row is dropped entirely, not kept under the bare
    // callsign; other slash suffixes are stripped instead.
    let html = r#"
        <table class="skcc_table">
            <tr>
                <td>3S</td>
                <td>N6WK/SK</td>
                <td>Gordon</td>
            </tr>
            <tr>
                <td>4</td>
                <td>K4MW/P</td>
                <td>Mike</td>
            </tr>
        </table>
        "#;
    let fetcher = HtmlFetcher::new("http://example.com".to_string(), 1, 0);
    let members = fetcher.parse_html(html);
    assert_eq!(members.len(), 1);
    assert_eq!(members[0].callsign, "K4MW");
    assert_eq!(members[0].member_id, "4");
}

#[test]
fn test_csv_named_column_selectors() {
    // Configured selector names override the recognized header names,
    // matched case-insensitively after trimming.
    let mut fetcher = CsvFetcher::new("http://example.com".to_string());
    fetcher.callsign_column = Some("Member Call".to_string());
    fetcher.number_column = Some(" ID ".to_string());
    let csv = "Member Call,Call,id\nK4MW,IGNORED,5\n";
    let members = fetcher.parse_csv(csv).unwrap();
    assert_eq!(members.len(), 1);
    assert_eq!(members[0].callsign, "K4MW");
    assert_eq!(members[0].member_id, "5");

    // A selector that matches no header fails the parse.
    fetcher.number_column = Some("Missing".to_string());
    assert!(matches!(fetcher.parse_csv(csv), Err(ParseError::MissingNumberColumn)));
}

#[test]
fn test_csv_quoted_fields() {
    // Quoted fields pass through the CSV reader: the quotes are not part
    // of the cell text.
    let fetcher = CsvFetcher::new("http://example.com".to_string());
    let csv = "Call,QC #\n\"K4MW\",\"7\"\n";
    let members = fetcher.parse_csv(csv).unwrap();
    assert_eq!(members.len(), 1);
    assert_eq!(members[0].callsign, "K4MW");
    assert_eq!(members[0].member_id, "7");
}

#[test]
fn test_trims_unicode_whitespace() {
    // Cells padded with non-breaking spaces (common in HTML tables) trim
    // like str::trim does, in every trimmed position: CSV cells, headers,
    // and the text before a slash suffix.
    let csv_fetcher = CsvFetcher::new("http://example.com".to_string());
    let csv = "\u{a0}Call\u{a0},QC #\nk4mw\u{a0},\u{a0}7\n";
    let members = csv_fetcher.parse_csv(csv).unwrap();
    assert_eq!(members.len(), 1);
    assert_eq!(members[0].callsign, "K4MW");
    assert_eq!(members[0].member_id, "7");

    let html = "<table class=\"skcc_table\"><tr>\
        <td>\u{a0}5\u{a0}</td><td>\u{a0}W6JSV\u{a0}/P</td><td>Jay</td>\
        </tr></table>";
    let html_fetcher = HtmlFetcher::new("http://example.com".to_string(), 1, 0);
    let members = html_fetcher.parse_html(html);
    assert_eq!(members.len(), 1);
    assert_eq!(members[0].callsign, "W6JSV");
    assert_eq!(members[0].member_id, "5");
}
