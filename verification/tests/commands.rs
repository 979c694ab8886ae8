use reliquary::cli::Shell;
use reliquary::commands::{
    add_name, detect_shell, hook_block, hook_line_for, is_affirmative, is_configured,
    is_hook_installed, list_lines, rc_path_for, remove_name, shell_named, MARKER_BEGIN, MARKER_END,
};
use reliquary::secret::Secret;
use reliquary::secrets::Secrets;

#[test]
fn shells_are_recognised_by_program_name() {
    assert_eq!(shell_named("bash"), Some(Shell::Bash));
    assert_eq!(shell_named("zsh"), Some(Shell::Zsh));
    assert_eq!(shell_named("fish"), Some(Shell::Fish));
    assert_eq!(shell_named("sh"), None);
    assert_eq!(detect_shell("/usr/bin/zsh"), Some(Shell::Zsh));
    assert_eq!(detect_shell("/bin/bash/"), Some(Shell::Bash));
    assert_eq!(detect_shell("/bin/dash"), None);
    assert_eq!(detect_shell(""), None);
}

#[test]
fn shell_path_components_normalise() {
    assert_eq!(detect_shell("/usr/local/bin/fish/."), Some(Shell::Fish));
    assert_eq!(detect_shell("/bin//zsh//"), Some(Shell::Zsh));
    assert_eq!(detect_shell("bash"), Some(Shell::Bash));
    assert_eq!(detect_shell("/bin/bash/.."), None);
    assert_eq!(detect_shell("/"), None);
    assert_eq!(detect_shell("."), None);
}

#[test]
fn rc_files_and_hook_lines() {
    assert_eq!(rc_path_for(Shell::Bash, b"/home/u"), b"/home/u/.bashrc".to_vec());
    assert_eq!(rc_path_for(Shell::Zsh, b"/home/u"), b"/home/u/.zshrc".to_vec());
    assert_eq!(rc_path_for(Shell::Fish, b"/home/u"), b"/home/u/.config/fish/config.fish".to_vec());
    assert_eq!(rc_path_for(Shell::Bash, b"/home/\xff"), b"/home/\xff/.bashrc".to_vec());
    assert_eq!(hook_line_for(Shell::Bash), "eval \"$(reliquary hook bash)\"");
    assert_eq!(hook_line_for(Shell::Fish), "reliquary hook fish | source");
}

#[test]
fn the_hook_block_is_appended_on_its_own_line() {
    let line = hook_line_for(Shell::Zsh);
    let expected = format!("{MARKER_BEGIN}\n{line}\n{MARKER_END}\n");
    assert_eq!(hook_block("", line), expected);
    assert_eq!(hook_block("x\n", line), expected);
    assert_eq!(hook_block("x", line), format!("\n{expected}"));
    let after = format!("x{}", hook_block("x", line));
    assert!(is_hook_installed(&after, Shell::Zsh));
    assert!(!is_hook_installed("x\n# >>> reliquary hook", Shell::Zsh));
}

#[test]
fn a_bare_hook_line_counts_as_installed() {
    assert!(is_hook_installed("eval \"$(reliquary hook bash)\"\n", Shell::Bash));
    assert!(!is_hook_installed("eval \"$(reliquary hook bash)\"\n", Shell::Fish));
    assert!(is_hook_installed("x\nreliquary hook fish | source", Shell::Fish));
}

#[test]
fn confirmation_answers() {
    assert!(is_affirmative("y\n"));
    assert!(is_affirmative("  YeS \n"));
    assert!(is_affirmative("Y"));
    assert!(!is_affirmative("\n"));
    assert!(!is_affirmative("no\n"));
    assert!(!is_affirmative("yess"));
}

#[test]
fn names_are_added_once_and_removed_entirely() {
    let mut names = vec!["A".to_string()];
    assert!(is_configured(&names, "A"));
    assert!(!is_configured(&names, "B"));
    add_name(&mut names, "B");
    add_name(&mut names, "A");
    assert_eq!(names, vec!["A".to_string(), "B".to_string()]);
    remove_name(&mut names, "A");
    assert_eq!(names, vec!["B".to_string()]);
    remove_name(&mut names, "Z");
    assert_eq!(names, vec!["B".to_string()]);
}

#[test]
fn list_shows_which_secrets_are_stored() {
    let mut s = Secrets::new();
    s.insert("A".to_string(), Secret::new("1".to_string()));
    let names = vec!["A".to_string(), "B".to_string()];
    assert_eq!(
        list_lines(&names, &s),
        vec!["A: present".to_string(), "B: MISSING from keyring".to_string()]
    );
}
