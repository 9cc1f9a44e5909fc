use didyoumean::uninstall::{
    backup_path, cleanup_notice, confirms, rc_file_path, remove_init_block, uninstall_consent, Consent,
};

fn args(v: &[&str]) -> Vec<String> {
    v.iter().map(|s| s.to_string()).collect()
}

#[test]
fn without_yes_a_non_interactive_uninstall_is_refused() {
    let r = uninstall_consent(&args(&[]), false);
    let message = r.unwrap_err();
    assert!(message.contains("--yes"));
    assert_eq!(
        message,
        "Error: refusing to uninstall without confirmation; pass --yes (or -y)"
    );
    assert_eq!(uninstall_consent(&args(&["--verbose"]), false).is_err(), true);
}

#[test]
fn yes_flags_and_terminal_prompt() {
    assert_eq!(uninstall_consent(&args(&["--yes"]), false), Ok(Consent::Proceed));
    assert_eq!(uninstall_consent(&args(&["-y"]), false), Ok(Consent::Proceed));
    assert_eq!(uninstall_consent(&args(&["x", "-y"]), true), Ok(Consent::Proceed));
    assert_eq!(uninstall_consent(&args(&[]), true), Ok(Consent::Ask));
    assert_eq!(uninstall_consent(&args(&["--YES"]), true), Ok(Consent::Ask));
}

#[test]
fn confirmation_answers() {
    assert!(confirms("y\n"));
    assert!(confirms("  YES "));
    assert!(confirms("Yes"));
    assert!(!confirms("n\n"));
    assert!(!confirms(""));
    assert!(!confirms("yess"));
}

#[test]
fn block_is_cut_out_and_other_lines_kept() {
    let rc = "export FOO=bar\n# >>> didyoumean initialize >>>\neval \"$(didyoumean init zsh)\"\n# <<< didyoumean initialize <<<\nexport BAZ=qux\n";
    let cleaned = remove_init_block(rc).unwrap();
    assert_eq!(cleaned, "export FOO=bar\nexport BAZ=qux\n");
    assert!(!cleaned.contains("didyoumean"));
}

#[test]
fn no_block_leaves_the_file_alone() {
    assert_eq!(remove_init_block("export FOO=bar\n"), None);
    assert_eq!(remove_init_block(""), None);
    // An opening marker without a closing one is no block.
    assert_eq!(remove_init_block("a\n# >>> didyoumean initialize >>>\nb\n"), None);
    // A closing marker before the opening one does not close it.
    assert_eq!(
        remove_init_block("# <<< didyoumean initialize <<<\n# >>> didyoumean initialize >>>\nb\n"),
        None
    );
}

#[test]
fn block_edges() {
    // Markers with surrounding whitespace and CRLF line ends still count.
    let rc = "a\r\n  # >>> didyoumean initialize >>>\r\nx\r\n# <<< didyoumean initialize <<<  \r\nb";
    assert_eq!(remove_init_block(rc).unwrap(), "a\r\nb");
    // A block at the very start or end of the file.
    let rc = "# >>> didyoumean initialize >>>\nx\n# <<< didyoumean initialize <<<\nrest\n";
    assert_eq!(remove_init_block(rc).unwrap(), "rest\n");
    let rc = "first\n# >>> didyoumean initialize >>>\n# <<< didyoumean initialize <<<";
    assert_eq!(remove_init_block(rc).unwrap(), "first");
    // Only the first block goes.
    let rc = "# >>> didyoumean initialize >>>\n# <<< didyoumean initialize <<<\nmid\n# >>> didyoumean initialize >>>\n# <<< didyoumean initialize <<<\n";
    assert_eq!(
        remove_init_block(rc).unwrap(),
        "mid\n# >>> didyoumean initialize >>>\n# <<< didyoumean initialize <<<\n"
    );
}

#[test]
fn rc_file_by_shell() {
    assert_eq!(rc_file_path(Some("/tmp/h"), Some("/bin/zsh")), Some("/tmp/h/.zshrc".to_string()));
    assert_eq!(rc_file_path(Some("/tmp/h/"), Some("/usr/local/bin/bash")), Some("/tmp/h/.bashrc".to_string()));
    assert_eq!(rc_file_path(Some("/tmp/h"), Some("zsh")), Some("/tmp/h/.zshrc".to_string()));
    assert_eq!(rc_file_path(Some("/tmp/h"), Some("/bin/fish")), None);
    assert_eq!(rc_file_path(Some("/tmp/h"), Some("/bin/zsh/")), None);
    assert_eq!(rc_file_path(None, Some("/bin/zsh")), None);
    assert_eq!(rc_file_path(Some("/tmp/h"), None), None);
}

#[test]
fn backup_and_notices() {
    assert_eq!(backup_path("/tmp/h/.zshrc"), "/tmp/h/.zshrc.dym.bak");
    let removed = cleanup_notice(Some("/tmp/h/.zshrc"), true);
    assert_eq!(
        removed,
        "[dym] Removed didyoumean block from /tmp/h/.zshrc (backup: /tmp/h/.zshrc.dym.bak)\n"
    );
    assert!(removed.contains("Removed didyoumean block"));
    let kept = cleanup_notice(Some("/tmp/h/.zshrc"), false);
    assert_eq!(kept, "[dym] No didyoumean block in /tmp/h/.zshrc, skipped\n");
    assert_eq!(cleanup_notice(None, false), "[dym] Unknown shell, RC file cleanup skipped\n");
}
