use didyoumean::cli::{
    collect_candidates, colorize, executable_names, init_command, is_executable_mode, path_entries,
    render_suggestion, sorted_unique, suggest_config, usize_setting, Color, PathEntry, SuggestConfig,
};
use didyoumean::suggest::SuggestResult;

fn names(v: &[&str]) -> Vec<String> {
    v.iter().map(|s| s.to_string()).collect()
}

fn plain() -> SuggestConfig {
    SuggestConfig {
        max_distance: 2,
        max_suggestions: 5,
        auto_correct_enabled: false,
        is_root: false,
        is_korean: false,
        use_color: false,
    }
}

#[test]
fn colorize_wraps_only_when_enabled() {
    assert_eq!(colorize("git", Color::Green, false), "git");
    assert_eq!(colorize("git", Color::Green, true), "\x1b[32mgit\x1b[0m");
    assert_eq!(colorize("git", Color::YellowBold, true), "\x1b[1;33mgit\x1b[0m");
}

#[test]
fn settings_defaults_and_parsing() {
    assert_eq!(usize_setting(None, 2), 2);
    assert_eq!(usize_setting(Some("3"), 2), 3);
    assert_eq!(usize_setting(Some("+4"), 2), 4);
    assert_eq!(usize_setting(Some("x"), 2), 2);
    assert_eq!(usize_setting(Some("-1"), 2), 2);
    assert_eq!(usize_setting(Some(""), 5), 5);
    let c = suggest_config(Some("1"), None, Some("TRUE"), Some("0"), Some("ko_KR.UTF-8"), false, true);
    assert_eq!(c.max_distance, 1);
    assert_eq!(c.max_suggestions, 5);
    assert!(c.auto_correct_enabled);
    assert!(c.is_root);
    assert!(c.is_korean);
    assert!(c.use_color);
    let c = suggest_config(None, Some("9"), Some("yes"), Some("1000"), Some("en_US"), true, true);
    assert_eq!(c.max_distance, 2);
    assert_eq!(c.max_suggestions, 9);
    assert!(!c.auto_correct_enabled);
    assert!(!c.is_root);
    assert!(!c.is_korean);
    assert!(!c.use_color);
    for on in ["on", "On", "1", "true", "True"] {
        assert!(suggest_config(None, None, Some(on), None, None, false, false).auto_correct_enabled);
    }
}

#[test]
fn confident_correction_runs_with_arguments() {
    let out = render_suggestion(
        "gti",
        &names(&["stash", "pop"]),
        &SuggestResult::ConfidentCorrect("git".to_string()),
        &plain(),
    );
    assert_eq!(out.exit_code, 0);
    assert_eq!(out.stdout, "git\n");
    assert_eq!(out.stderr, "[dym] 'gti stash pop' → 'git stash pop'\n");
}

#[test]
fn root_never_runs_a_correction() {
    let mut cfg = plain();
    cfg.is_root = true;
    cfg.auto_correct_enabled = true;
    let out = render_suggestion("gti", &[], &SuggestResult::ConfidentCorrect("git".to_string()), &cfg);
    assert_eq!(out.exit_code, 1);
    assert_eq!(out.stdout, "git\n");
    assert_eq!(out.stderr, "[dym] Did you mean 'git'?\n");
}

#[test]
fn auto_correct_needs_opt_in() {
    let r = SuggestResult::AutoCorrect("ls".to_string());
    let out = render_suggestion("sl", &[], &r, &plain());
    assert_eq!(out.exit_code, 1);
    let mut cfg = plain();
    cfg.auto_correct_enabled = true;
    let out = render_suggestion("sl", &[], &r, &cfg);
    assert_eq!(out.exit_code, 0);
    assert_eq!(out.stderr, "[dym] Correcting 'sl' to 'ls'\n");
    cfg.is_korean = true;
    let out = render_suggestion("sl", &[], &r, &cfg);
    assert_eq!(out.stderr, "[dym] 자동 수정: 'sl' → 'ls'\n");
}

#[test]
fn suggestions_and_no_match_output() {
    let out = render_suggestion(
        "gt",
        &[],
        &SuggestResult::Suggestions(names(&["gd", "git"])),
        &plain(),
    );
    assert_eq!(out.exit_code, 1);
    assert_eq!(out.stdout, "gd\ngit\n");
    assert_eq!(out.stderr, "[dym] Did you mean one of these? (gt)\n  gd\n  git\n");
    let out = render_suggestion("xyz", &[], &SuggestResult::NoMatch, &plain());
    assert_eq!(out.exit_code, 2);
    assert_eq!(out.stdout, "");
    assert_eq!(out.stderr, "[dym] Command 'xyz' not found, no similar commands\n");
}

#[test]
fn no_color_output_has_no_escapes() {
    let out = render_suggestion("gti", &[], &SuggestResult::ConfidentCorrect("git".to_string()), &plain());
    assert!(!out.stderr.contains("\x1b["));
    let mut cfg = plain();
    cfg.use_color = true;
    let out = render_suggestion("gti", &[], &SuggestResult::ConfidentCorrect("git".to_string()), &cfg);
    assert!(out.stderr.contains("\x1b[1;33mgit\x1b[0m"));
}

#[test]
fn init_command_outputs() {
    let out = init_command(Some("zsh"));
    assert_eq!(out.exit_code, 0);
    assert!(out.stdout.contains("command_not_found_handler"));
    assert!(out.stdout.contains("# >>> didyoumean initialize >>>"));
    let out = init_command(Some("bash"));
    assert_eq!(out.exit_code, 0);
    assert!(out.stdout.contains("command_not_found_handle"));
    let out = init_command(Some("fish"));
    assert_eq!(out.exit_code, 1);
    assert!(out.stderr.contains("unsupported shell"));
    let out = init_command(None);
    assert_eq!(out.exit_code, 1);
    assert!(out.stdout.is_empty());
}

#[test]
fn candidates_are_trimmed_deduplicated_and_sorted() {
    let lines = names(&["  git ", "", "cargo", "git", "\t", "awk"]);
    assert_eq!(collect_candidates(&lines), names(&["awk", "cargo", "git"]));
    assert_eq!(sorted_unique(&names(&["b", "a", "b", "A"])), names(&["A", "a", "b"]));
}

#[test]
fn path_entries_skip_empty_pieces() {
    assert_eq!(path_entries("/bin::/usr/bin:"), names(&["/bin", "/usr/bin"]));
    assert_eq!(path_entries(""), Vec::<String>::new());
    assert_eq!(path_entries("/a"), names(&["/a"]));
}

fn entry(name: &str, is_file: bool, mode: u32) -> PathEntry {
    PathEntry { name: name.to_string(), is_file, mode }
}

#[test]
fn executable_bits() {
    assert!(is_executable_mode(0o755));
    assert!(is_executable_mode(0o100));
    assert!(is_executable_mode(0o001));
    assert!(is_executable_mode(0o100755));
    assert!(!is_executable_mode(0o644));
    assert!(!is_executable_mode(0o100644));
    assert!(!is_executable_mode(0));
}

#[test]
fn only_runnable_files_are_listed_once() {
    let entries = vec![
        entry("myexec", true, 0o755),
        entry("noexec", true, 0o644),
        entry("subdir", false, 0o755),
        entry("dupcmd", true, 0o755),
        entry("dupcmd", true, 0o700),
        entry("alpha", true, 0o711),
    ];
    let names = executable_names(&entries);
    assert_eq!(names, vec!["alpha".to_string(), "dupcmd".to_string(), "myexec".to_string()]);
    assert!(executable_names(&[]).is_empty());
}
