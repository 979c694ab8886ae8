use reliquary::codec::{decode, encode, parse_length_bytes, DecodeError};
use reliquary::secret::Secret;
use reliquary::secrets::Secrets;
use reliquary::store::{
    cleared, loaded, save_action, separate_deleted, separate_loaded, KeyringError, SaveAction,
    StoreError,
};

fn secrets(pairs: &[(&str, &str)]) -> Secrets {
    let mut s = Secrets::new();
    for (name, value) in pairs {
        s.insert(name.to_string(), Secret::new(value.to_string()));
    }
    s
}

fn decode_error(blob: &str) -> DecodeError {
    match decode(blob) {
        Err(e) => e,
        Ok(_) => panic!("expected {blob:?} to be rejected"),
    }
}

fn roundtrip(pairs: &[(&str, &str)]) {
    let decoded = decode(&encode(&secrets(pairs))).expect("decodes");
    assert_eq!(decoded.len(), pairs.len());
    for (name, value) in pairs {
        assert_eq!(decoded.get(name).unwrap(), *value);
    }
}

#[test]
fn roundtrips_plain_values() {
    roundtrip(&[("GH_TOKEN", "abc123"), ("OTHER", "def")]);
}

#[test]
fn roundtrips_values_with_newlines_and_spaces() {
    roundtrip(&[("KEY", "line one\nline two\n"), ("SPACED", "a b c")]);
}

#[test]
fn roundtrips_empty_value() {
    roundtrip(&[("EMPTY", "")]);
}

#[test]
fn decodes_nothing_from_empty_input() {
    assert!(decode("").expect("decodes").is_empty());
}

#[test]
fn rejects_truncated_value() {
    assert!(decode("KEY 10\nshort\n").is_err());
}

#[test]
fn rejects_unterminated_value() {
    assert!(decode("KEY 3\nabc").is_err());
}

#[test]
fn rejects_malformed_header() {
    assert!(decode("KEY\nabc\n").is_err());
    assert!(decode("KEY xyz\nabc\n").is_err());
}

#[test]
fn encode_writes_sorted_length_prefixed_records() {
    let s = secrets(&[("ZED", "z"), ("ALPHA", "two\nlines")]);
    assert_eq!(encode(&s), "ALPHA 9\ntwo\nlines\nZED 1\nz\n");
}

#[test]
fn encode_counts_bytes_not_characters() {
    let s = secrets(&[("K", "h\u{e9}\u{2014}")]);
    assert_eq!(encode(&s), "K 6\nh\u{e9}\u{2014}\n");
    roundtrip(&[("K", "h\u{e9}\u{2014}"), ("NUL", "a\0b")]);
}

#[test]
fn encode_of_nothing_is_empty() {
    assert_eq!(encode(&Secrets::new()), "");
}

#[test]
fn decode_errors_name_their_cause() {
    assert_eq!(decode_error("KEY 3"), DecodeError::MissingHeaderEnd);
    assert_eq!(decode_error("KEY\nabc\n"), DecodeError::MalformedHeader("KEY".to_string()));
    assert_eq!(
        decode_error("KEY xyz\nabc\n"),
        DecodeError::MalformedLength("KEY xyz".to_string())
    );
    assert_eq!(
        decode_error("KEY -1\nabc\n"),
        DecodeError::MalformedLength("KEY -1".to_string())
    );
    assert_eq!(decode_error("KEY 10\nshort\n"), DecodeError::Truncated("KEY".to_string()));
    assert_eq!(decode_error("KEY 3\nabc"), DecodeError::Unterminated("KEY".to_string()));
    assert_eq!(decode_error("KEY 2\nabc\n"), DecodeError::Unterminated("KEY".to_string()));
    // A length that ends inside a two-byte character.
    assert_eq!(decode_error("KEY 1\n\u{e9}\n"), DecodeError::Truncated("KEY".to_string()));
    // The name is what precedes the last space of the header.
    assert_eq!(
        decode_error("A 1\nx\nMY KEY 2\nabc\n"),
        DecodeError::Unterminated("MY KEY".to_string())
    );
}

#[test]
fn decode_takes_the_last_record_of_a_name() {
    let d = decode("A 1\nx\nA 2\nyz\n").unwrap();
    assert_eq!(d.len(), 1);
    assert_eq!(d.get("A"), Some("yz"));
}

#[test]
fn decode_splits_the_header_at_its_last_space() {
    let d = decode("MY KEY 3\nabc\n").unwrap();
    assert_eq!(d.get("MY KEY"), Some("abc"));
}

#[test]
fn decode_accepts_a_plus_sign_and_leading_zeros_in_the_length() {
    let d = decode("A +03\nabc\n").unwrap();
    assert_eq!(d.get("A"), Some("abc"));
}

#[test]
fn parse_length_follows_usize_from_str() {
    assert_eq!(parse_length_bytes(b"0"), Some(0));
    assert_eq!(parse_length_bytes(b"+7"), Some(7));
    assert_eq!(parse_length_bytes(b"+"), None);
    assert_eq!(parse_length_bytes(b""), None);
    assert_eq!(parse_length_bytes(b"-1"), None);
    assert_eq!(parse_length_bytes(b"1a"), None);
    let max = usize::MAX.to_string();
    assert_eq!(parse_length_bytes(max.as_bytes()), Some(usize::MAX));
    let over = format!("{}0", usize::MAX);
    assert_eq!(parse_length_bytes(over.as_bytes()), None);
}

#[test]
fn secrets_insert_replaces_and_remove_takes_out() {
    let mut s = secrets(&[("B", "1"), ("A", "2")]);
    assert_eq!(s.len(), 2);
    s.insert("B".to_string(), Secret::new("3".to_string()));
    assert_eq!(s.len(), 2);
    assert_eq!(s.get("B"), Some("3"));
    assert_eq!(s.entry(0), ("A", "2"));
    let removed = s.remove("A").unwrap();
    assert_eq!(removed.expose(), "2");
    assert!(s.remove("A").is_none());
    assert!(!s.contains_key("A"));
    assert_eq!(s.len(), 1);
    s.wipe();
    assert!(s.is_empty());
}

#[test]
fn secret_wipe_empties_it() {
    let mut v = Secret::new("hunter2".to_string());
    assert_eq!(v.expose(), "hunter2");
    v.wipe();
    assert_eq!(v.expose(), "");
}

#[test]
fn loaded_decodes_the_stored_text() {
    let s = loaded(Ok("GH_TOKEN 3\nabc\n".to_string())).unwrap();
    assert_eq!(s.get("GH_TOKEN"), Some("abc"));
}

#[test]
fn loaded_treats_a_missing_entry_as_no_secrets() {
    assert!(loaded(Err(KeyringError::NoEntry)).unwrap().is_empty());
}

#[test]
fn loaded_reports_each_failure() {
    assert!(matches!(
        loaded(Err(KeyringError::Ambiguous("two".to_string()))),
        Err(StoreError::Ambiguous)
    ));
    assert!(matches!(
        loaded(Err(KeyringError::Other("locked".to_string()))),
        Err(StoreError::Read(KeyringError::Other(m))) if m == "locked"
    ));
    assert!(matches!(
        loaded(Ok("KEY 3\nabc".to_string())),
        Err(StoreError::Decode(DecodeError::Unterminated(n))) if n == "KEY"
    ));
}

#[test]
fn a_saved_text_loads_back() {
    let s = secrets(&[("GH_TOKEN", "abc123"), ("OTHER", "line\nbreak")]);
    let blob = match save_action(&s) {
        SaveAction::Write(blob) => blob.expose().to_string(),
        SaveAction::Clear => panic!("secrets to write"),
    };
    let back = loaded(Ok(blob)).unwrap();
    assert_eq!(back.len(), 2);
    assert_eq!(back.get("OTHER"), Some("line\nbreak"));
}

#[test]
fn saving_nothing_clears_the_entry() {
    assert!(matches!(save_action(&Secrets::new()), SaveAction::Clear));
    assert!(loaded(Err(KeyringError::NoEntry)).unwrap().is_empty());
}

#[test]
fn cleared_accepts_an_absent_entry() {
    assert!(cleared(Ok(())).is_ok());
    assert!(cleared(Err(KeyringError::NoEntry)).is_ok());
    assert!(matches!(
        cleared(Err(KeyringError::Other("x".to_string()))),
        Err(StoreError::Clear(_))
    ));
}

#[test]
fn separate_entries_read_and_delete() {
    let v = separate_loaded("OLD", Ok("val".to_string())).unwrap().unwrap();
    assert_eq!(v.expose(), "val");
    assert!(separate_loaded("OLD", Err(KeyringError::NoEntry)).unwrap().is_none());
    match separate_loaded("OLD", Err(KeyringError::Other("x".to_string()))) {
        Err(StoreError::ReadSeparate { name, .. }) => assert_eq!(name, "OLD"),
        _ => panic!("expected a read failure"),
    }
    assert!(separate_deleted("OLD", Err(KeyringError::NoEntry)).is_ok());
    match separate_deleted("OLD", Err(KeyringError::Ambiguous("x".to_string()))) {
        Err(StoreError::DeleteSeparate { name, .. }) => assert_eq!(name, "OLD"),
        _ => panic!("expected a delete failure"),
    }
}
