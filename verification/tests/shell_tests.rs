use didyoumean::shell::{init_bash, init_zsh};

#[test]
fn test_init_zsh_contains_handler() {
    let output = init_zsh();
    assert!(output.contains("command_not_found_handler"));
}

#[test]
fn test_init_bash_contains_handle() {
    let output = init_bash();
    assert!(output.contains("command_not_found_handle()"));
}

#[test]
fn test_init_zsh_has_markers() {
    let output = init_zsh();
    assert!(output.contains("# >>> didyoumean initialize >>>"));
    assert!(output.contains("# <<< didyoumean initialize <<<"));
}

#[test]
fn test_init_has_reentry_guard() {
    let zsh = init_zsh();
    let bash = init_bash();
    assert!(zsh.contains("__OOPS_RUNNING"));
    assert!(bash.contains("__OOPS_RUNNING"));
}

#[test]
fn init_scripts_run_the_correction_with_the_remaining_arguments() {
    assert!(init_zsh().contains("\"$output\" \"${@:2}\""));
    assert!(init_bash().contains("\"$output\" \"${@:2}\""));
    assert!(init_bash().contains("compgen -c | sort -u"));
    assert!(init_zsh().contains("print -l ${(ko)commands}"));
}

#[test]
fn init_scripts_pipe_into_didyoumean() {
    assert!(init_zsh().contains("| didyoumean \"$@\")"));
    assert!(init_bash().contains("| didyoumean \"$@\")"));
    assert!(!init_zsh().contains("oops-fix"));
    assert!(init_bash().starts_with("# >>> didyoumean initialize >>>"));
    assert!(init_bash().ends_with("# <<< didyoumean initialize <<<"));
}
