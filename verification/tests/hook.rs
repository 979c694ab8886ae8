use reliquary::cli::Shell;
use reliquary::hook::{export_line, fish_quote, hook_lines, posix_line, HookLine};
use reliquary::secret::Secret;
use reliquary::secrets::Secrets;

#[test]
fn fish_quote_escapes_backslash_and_single_quote() {
    assert_eq!(fish_quote("plain"), "'plain'");
    assert_eq!(fish_quote("it's"), "'it\\'s'");
    assert_eq!(fish_quote(r"back\slash"), r"'back\\slash'");
}

#[test]
fn fish_quote_keeps_everything_else() {
    assert_eq!(fish_quote(""), "''");
    assert_eq!(fish_quote("$x \"y\"\n"), "'$x \"y\"\n'");
}

fn text(line: &HookLine) -> (bool, &str) {
    match line {
        HookLine::Stdout(s) => (true, s.as_str()),
        HookLine::Stderr(s) => (false, s.as_str()),
    }
}

#[test]
fn export_lines_per_shell() {
    let l = export_line(Shell::Bash, "A", "simple");
    assert_eq!(text(&l), (true, "export A=simple"));
    let l = export_line(Shell::Zsh, "A", "it's $x");
    let (out, t) = text(&l);
    assert!(out);
    assert!(t.starts_with("export A="));
    assert_ne!(t, "export A=it's $x");
    let l = export_line(Shell::Bash, "A", "");
    assert_eq!(text(&l), (true, "export A=''"));
    let l = export_line(Shell::Fish, "A", "it's");
    assert_eq!(text(&l), (true, "set -gx A 'it\\'s'"));
}

#[test]
fn a_nul_byte_is_not_exported_to_posix_shells() {
    let l = export_line(Shell::Bash, "A", "a\0b");
    assert_eq!(
        text(&l),
        (false, "reliquary: warning: secret \"A\" contains a NUL byte and can't be safely exported")
    );
    let l = posix_line("A", Some("'q'".to_string()));
    assert_eq!(text(&l), (true, "export A='q'"));
}

#[test]
fn hook_lines_warn_about_missing_secrets() {
    let mut s = Secrets::new();
    s.insert("A".to_string(), Secret::new("1".to_string()));
    let names = vec!["A".to_string(), "B".to_string()];
    let lines = hook_lines(Shell::Fish, &names, &s);
    assert_eq!(lines.len(), 2);
    assert_eq!(text(&lines[0]), (true, "set -gx A '1'"));
    assert_eq!(
        text(&lines[1]),
        (
            false,
            "reliquary: warning: secret \"B\" is configured but not found in the OS keyring (run: reliquary add B)"
        )
    );
}
