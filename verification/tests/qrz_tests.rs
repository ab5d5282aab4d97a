use qrqcrew_notes_daemon::qrz::{
    extract_fname, extract_session_key, LookupDecision, QrzClient, QrzError,
};

#[test]
fn test_extract_session_key() {
    let xml = r#"<?xml version="1.0" ?>
<QRZDatabase>
  <Session>
    <Key>abc123sessionkey</Key>
    <Count>42</Count>
  </Session>
</QRZDatabase>"#;

    let key = extract_session_key(xml).unwrap();
    assert_eq!(key, "abc123sessionkey");
}

#[test]
fn test_extract_session_key_error() {
    let xml = r#"<?xml version="1.0" ?>
<QRZDatabase>
  <Session>
    <Error>Invalid username/password</Error>
  </Session>
</QRZDatabase>"#;

    let result = extract_session_key(xml);
    assert!(result.is_err());
    match result {
        Err(QrzError::AuthFailed(message)) => {
            assert!(message.contains("Invalid username/password"));
        }
        _ => panic!("expected a credential rejection"),
    }
}

#[test]
fn test_extract_fname() {
    let xml = r#"<?xml version="1.0" ?>
<QRZDatabase>
  <Callsign>
    <call>K4MW</call>
    <fname>Mike</fname>
    <name>Smith</name>
  </Callsign>
</QRZDatabase>"#;

    let fname = extract_fname(xml);
    assert_eq!(fname, Some("Mike".to_string()));
}

#[test]
fn test_extract_fname_empty() {
    let xml = r#"<?xml version="1.0" ?>
<QRZDatabase>
  <Callsign>
    <call>K4MW</call>
    <fname></fname>
  </Callsign>
</QRZDatabase>"#;

    let fname = extract_fname(xml);
    assert_eq!(fname, None);
}

#[test]
fn test_extract_fname_missing() {
    let xml = r#"<?xml version="1.0" ?>
<QRZDatabase>
  <Callsign>
    <call>K4MW</call>
    <name>Smith</name>
  </Callsign>
</QRZDatabase>"#;

    let fname = extract_fname(xml);
    assert_eq!(fname, None);
}

#[test]
fn test_session_expiry_retries_once() {
    // A session-expiry signal clears the cached key and asks for one
    // retry; a second consecutive expiry ends the lookup with an error,
    // and the client stays usable for the next callsign.
    let mut client = QrzClient::new("user".to_string(), "pass".to_string());
    client.set_session("oldkey".to_string());

    let expired = "<QRZDatabase><Session><Error>Session Timeout</Error></Session></QRZDatabase>";
    let first = client.handle_lookup_response(expired, 0);
    assert!(matches!(first, LookupDecision::Retry));
    assert_eq!(client.cached_session(), None);

    client.set_session("newkey".to_string());
    let second = client.handle_lookup_response(expired, 1);
    assert!(matches!(
        second,
        LookupDecision::Done(Err(QrzError::RetriesExhausted))
    ));
    assert_eq!(client.cached_session(), None);

    // The next lookup is unaffected: a normal response still answers.
    let found = "<QRZDatabase><Callsign><fname>Mike</fname></Callsign></QRZDatabase>";
    let third = client.handle_lookup_response(found, 0);
    match third {
        LookupDecision::Done(Ok(Some(name))) => assert_eq!(name, "Mike"),
        _ => panic!("expected a found nickname"),
    }
}

#[test]
fn test_lookup_not_found() {
    let mut client = QrzClient::new("user".to_string(), "pass".to_string());
    client.set_session("key".to_string());
    let not_found =
        "<QRZDatabase><Session><Error>Not found: N0CALL</Error></Session></QRZDatabase>";
    let decision = client.handle_lookup_response(not_found, 0);
    assert!(matches!(decision, LookupDecision::Done(Ok(None))));
    // The session key is kept for the next lookup.
    assert_eq!(client.cached_session(), Some("key".to_string()));
}
