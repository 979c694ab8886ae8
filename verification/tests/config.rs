use reliquary::config::{
    config_path_in, format_names, join_path_bytes, parse_names, validate_name, HEADER,
};

#[test]
fn validate_name_accepts_valid_names() {
    assert!(validate_name("GH_TOKEN").is_ok());
    assert!(validate_name("_private").is_ok());
    assert!(validate_name("a1").is_ok());
}

#[test]
fn validate_name_rejects_invalid_names() {
    assert!(validate_name("").is_err());
    assert!(validate_name("1abc").is_err());
    assert!(validate_name("GH-TOKEN").is_err());
    assert!(validate_name("has space").is_err());
}

#[test]
fn validate_name_reports_the_name() {
    assert_eq!(validate_name("a.b").unwrap_err().name, "a.b");
    assert!(validate_name("\u{e9}").is_err());
    assert!(validate_name("A\n").is_err());
}

#[test]
fn format_then_parse_round_trips() {
    let names = vec!["GH_TOKEN".to_string(), "OPENAI_API_KEY".to_string()];
    let text = format_names(&names);
    assert!(text.starts_with(HEADER));
    assert_eq!(text, format!("{HEADER}GH_TOKEN\nOPENAI_API_KEY\n"));
    assert_eq!(parse_names(&text), names);
}

#[test]
fn saved_names_load_back_with_repeats() {
    let names = vec!["B".to_string(), "_a1".to_string(), "B".to_string()];
    assert_eq!(parse_names(&format_names(&names)), names);
    assert_eq!(parse_names(&format_names(&Vec::new())), Vec::<String>::new());
}

#[test]
fn parse_of_empty_text_is_empty() {
    assert_eq!(parse_names(""), Vec::<String>::new());
}

#[test]
fn parse_trims_and_skips_blank_lines_and_comments() {
    let text = "# comment\n\n  A  \r\n\t# indented comment\nB\u{a0}\nC";
    assert_eq!(parse_names(text), vec!["A".to_string(), "B".to_string(), "C".to_string()]);
}

#[test]
fn paths_join_like_pathbuf() {
    assert_eq!(config_path_in(b"/home/u"), b"/home/u/.config/reliquary/config".to_vec());
    assert_eq!(config_path_in(b"/home/u/"), b"/home/u/.config/reliquary/config".to_vec());
    assert_eq!(config_path_in(b""), b".config/reliquary/config".to_vec());
    assert_eq!(config_path_in(b"/h\xfe"), b"/h\xfe/.config/reliquary/config".to_vec());
    assert_eq!(join_path_bytes(b"/a", b"/b"), b"/b".to_vec());
}
