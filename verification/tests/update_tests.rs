use didyoumean::update::{
    background_check, build_download_plan, build_update_notification, cache_dir,
    cache_is_stale, cache_version_path, cached_version, decide_update, detect_target,
    format_update_decision, is_newer_version, parse_checksum_for_file, parse_latest_version,
    parse_semver, verify_checksum, checksum_from_tool_output, UpdateAction, UpdateDecision,
};

// --- parse_semver ---

#[test]
fn test_parse_semver_basic() {
    assert_eq!(parse_semver("1.2.3"), Some((1, 2, 3)));
}

#[test]
fn test_parse_semver_with_v() {
    assert_eq!(parse_semver("v1.2.3"), Some((1, 2, 3)));
}

#[test]
fn test_parse_semver_zero() {
    assert_eq!(parse_semver("0.0.0"), Some((0, 0, 0)));
}

#[test]
fn test_parse_semver_invalid_two_parts() {
    assert_eq!(parse_semver("1.2"), None);
}

#[test]
fn test_parse_semver_invalid_non_numeric() {
    assert_eq!(parse_semver("1.2.abc"), None);
}

#[test]
fn test_parse_semver_invalid_empty() {
    assert_eq!(parse_semver(""), None);
}

#[test]
fn parse_semver_edge_cases() {
    assert_eq!(parse_semver("1.2.3.4"), None);
    assert_eq!(parse_semver("vv1.2.3"), None);
    assert_eq!(parse_semver("+1.2.3"), Some((1, 2, 3)));
    assert_eq!(parse_semver("1..3"), None);
    assert_eq!(parse_semver("1.2.-3"), None);
    assert_eq!(parse_semver("4294967295.0.1"), Some((4294967295, 0, 1)));
    assert_eq!(parse_semver("4294967296.0.1"), None);
    assert_eq!(parse_semver("01.002.0003"), Some((1, 2, 3)));
    assert_eq!(parse_semver(" 1.2.3"), None);
}

// --- is_newer_version ---

#[test]
fn test_is_newer_patch() {
    assert!(is_newer_version("0.1.0", "0.1.1"));
}

#[test]
fn test_is_newer_minor() {
    assert!(is_newer_version("0.1.0", "0.2.0"));
}

#[test]
fn test_is_newer_major() {
    assert!(is_newer_version("0.1.0", "1.0.0"));
}

#[test]
fn test_not_newer_same() {
    assert!(!is_newer_version("0.1.0", "0.1.0"));
}

#[test]
fn test_not_newer_older() {
    assert!(!is_newer_version("0.2.0", "0.1.0"));
}

#[test]
fn test_is_newer_with_v_prefix() {
    assert!(is_newer_version("v0.1.0", "v0.2.0"));
}

#[test]
fn test_is_newer_invalid_input() {
    assert!(!is_newer_version("abc", "0.1.0"));
    assert!(!is_newer_version("0.1.0", "abc"));
}

#[test]
fn is_newer_compares_fields_numerically() {
    assert!(is_newer_version("0.9.0", "0.10.0"));
    assert!(!is_newer_version("1.0.0", "0.99.99"));
}

// --- parse_latest_version ---

#[test]
fn test_parse_latest_version_basic() {
    let json = r#"{"tag_name": "v0.2.0", "name": "Release"}"#;
    assert_eq!(parse_latest_version(json), Some("v0.2.0".to_string()));
}

#[test]
fn test_parse_latest_version_whitespace() {
    let json = r#"{ "tag_name" : "v0.3.1" }"#;
    assert_eq!(parse_latest_version(json), Some("v0.3.1".to_string()));
}

#[test]
fn test_parse_latest_version_in_large_json() {
    let json = r#"{"url":"https://api.github.com/...","tag_name":"v1.0.0","target_commitish":"main","name":"v1.0.0","draft":false}"#;
    assert_eq!(parse_latest_version(json), Some("v1.0.0".to_string()));
}

#[test]
fn test_parse_latest_version_no_tag() {
    assert_eq!(parse_latest_version(r#"{"name": "test"}"#), None);
}

#[test]
fn test_parse_latest_version_empty() {
    assert_eq!(parse_latest_version(""), None);
}

#[test]
fn parse_latest_version_unterminated() {
    assert_eq!(parse_latest_version(r#"{"tag_name": "v1"#), None);
    assert_eq!(parse_latest_version(r#"{"tag_name" "v1"}"#), None);
    assert_eq!(parse_latest_version(r#"{"tag_name": "wörld"}"#), Some("wörld".to_string()));
}

// --- detect_target ---

#[test]
fn test_detect_target_succeeds() {
    let target = detect_target("linux", "x86_64");
    assert!(target.is_ok());
    let t = target.unwrap();
    assert!(t.contains("apple-darwin") || t.contains("unknown-linux-musl"));
    assert!(t.starts_with("x86_64") || t.starts_with("aarch64"));
}

#[test]
fn detect_target_triples_and_errors() {
    assert_eq!(detect_target("linux", "x86_64"), Ok("x86_64-unknown-linux-musl".to_string()));
    assert_eq!(detect_target("macos", "aarch64"), Ok("aarch64-apple-darwin".to_string()));
    assert_eq!(detect_target("windows", "x86_64"), Err("unsupported OS".to_string()));
    assert_eq!(detect_target("windows", "riscv64"), Err("unsupported OS".to_string()));
    assert_eq!(detect_target("linux", "riscv64"), Err("unsupported architecture".to_string()));
}

// --- parse_checksum_for_file ---

#[test]
fn test_parse_checksum_found() {
    let checksums = "abc123def456  didyoumean-aarch64-apple-darwin.tar.gz\n789xyz  didyoumean-x86_64-unknown-linux-musl.tar.gz\n";
    assert_eq!(
        parse_checksum_for_file(checksums, "didyoumean-aarch64-apple-darwin.tar.gz"),
        Some("abc123def456".to_string())
    );
}

#[test]
fn test_parse_checksum_second_entry() {
    let checksums = "abc123  file-a.tar.gz\ndef456  file-b.tar.gz\n";
    assert_eq!(
        parse_checksum_for_file(checksums, "file-b.tar.gz"),
        Some("def456".to_string())
    );
}

#[test]
fn test_parse_checksum_not_found() {
    let checksums = "abc123  file-a.tar.gz\n";
    assert_eq!(parse_checksum_for_file(checksums, "file-b.tar.gz"), None);
}

#[test]
fn test_parse_checksum_empty() {
    assert_eq!(parse_checksum_for_file("", "file.tar.gz"), None);
}

#[test]
fn parse_checksum_line_endings() {
    let checksums = "aaa  one.tgz\r\n  bbb\tother.tgz\r\nccc two.tgz";
    assert_eq!(parse_checksum_for_file(checksums, "other.tgz"), Some("bbb".to_string()));
    assert_eq!(parse_checksum_for_file(checksums, "two.tgz"), Some("ccc".to_string()));
    assert_eq!(parse_checksum_for_file(checksums, "one.tgz"), Some("aaa".to_string()));
}

// --- cache ---

#[test]
fn test_cache_dir_returns_some() {
    let dir = cache_dir(None, Some("/home/someone"));
    assert!(dir.is_some());
    let path = dir.unwrap();
    assert!(path.contains("didyoumean"));
}

#[test]
fn test_cache_dir_xdg() {
    let dir = cache_dir(Some("/tmp/dym_xdg_test"), Some("/home/someone"));
    assert_eq!(dir, Some("/tmp/dym_xdg_test/didyoumean".to_string()));
}

#[test]
fn cache_dir_paths() {
    assert_eq!(cache_dir(None, Some("/home/u")), Some("/home/u/.cache/didyoumean".to_string()));
    assert_eq!(cache_dir(None, Some("/home/u/")), Some("/home/u/.cache/didyoumean".to_string()));
    assert_eq!(cache_dir(Some(""), Some("/home/u")), Some("didyoumean".to_string()));
    assert_eq!(cache_dir(None, None), None);
}

#[test]
fn test_cache_version_path_returns_some() {
    let path = cache_version_path(None, Some("/home/someone"));
    assert!(path.is_some());
    assert!(path.unwrap().contains("latest-version"));
    assert_eq!(
        cache_version_path(Some("/c"), None),
        Some("/c/didyoumean/latest-version".to_string())
    );
    assert_eq!(cache_version_path(None, None), None);
}

#[test]
fn test_should_check_nonexistent() {
    assert!(cache_is_stale(None));
}

#[test]
fn test_should_not_check_fresh_cache() {
    assert!(!cache_is_stale(Some(0)));
    assert!(!cache_is_stale(Some(86400)));
    assert!(cache_is_stale(Some(86401)));
}

#[test]
fn test_read_cached_version_exists() {
    assert_eq!(cached_version(Some("v0.3.0\n")), Some("v0.3.0".to_string()));
}

#[test]
fn test_read_cached_version_empty() {
    assert_eq!(cached_version(Some("")), None);
    assert_eq!(cached_version(Some(" \n\t")), None);
}

#[test]
fn test_read_cached_version_nonexistent() {
    assert_eq!(cached_version(None), None);
}

// --- build_update_notification ---

#[test]
fn test_notification_newer_available() {
    let n = build_update_notification(Some("v1.0.0"), "0.2.0", false);
    assert!(n.message.is_some());
    let msg = n.message.unwrap();
    assert!(msg.contains("1.0.0"));
    assert!(msg.contains("0.2.0"));
    assert!(msg.contains("didyoumean update"));
    assert!(!n.should_bg_check);
}

#[test]
fn test_notification_already_up_to_date() {
    let n = build_update_notification(Some("v0.2.0"), "0.2.0", false);
    assert!(n.message.is_none());
    assert!(!n.should_bg_check);
}

#[test]
fn test_notification_older_cached() {
    let n = build_update_notification(Some("v0.1.0"), "0.2.0", false);
    assert!(n.message.is_none());
}

#[test]
fn test_notification_no_cache() {
    let n = build_update_notification(None, "0.2.0", true);
    assert!(n.message.is_none());
    assert!(n.should_bg_check);
}

#[test]
fn test_notification_stale_cache_triggers_bg_check() {
    let n = build_update_notification(Some("v0.2.0"), "0.2.0", true);
    assert!(n.message.is_none());
    assert!(n.should_bg_check);
}

#[test]
fn test_notification_newer_with_v_prefix() {
    let n = build_update_notification(Some("0.5.0"), "0.2.0", false);
    assert!(n.message.is_some());
    assert!(n.message.unwrap().contains("0.5.0"));
}

#[test]
fn notification_exact_text() {
    let n = build_update_notification(Some("v1.0.0"), "0.2.0", false);
    assert_eq!(
        n.message,
        Some("[dym] v1.0.0 available (current: v0.2.0). Run 'didyoumean update'".to_string())
    );
}

// --- decide_update ---

#[test]
fn test_decide_update_fetch_error() {
    let d = decide_update("0.2.0", Err("network error"), false);
    assert!(matches!(d, UpdateDecision::FetchError(e) if e.contains("network")));
}

#[test]
fn test_decide_update_parse_error() {
    let d = decide_update("0.2.0", Ok(r#"{"no_tag": true}"#), false);
    assert!(matches!(d, UpdateDecision::ParseError));
}

#[test]
fn test_decide_update_already_up_to_date() {
    let json = r#"{"tag_name": "v0.2.0"}"#;
    let d = decide_update("0.2.0", Ok(json), false);
    assert!(matches!(d, UpdateDecision::AlreadyUpToDate(v) if v == "0.2.0"));
}

#[test]
fn test_decide_update_check_only() {
    let json = r#"{"tag_name": "v1.0.0"}"#;
    let d = decide_update("0.2.0", Ok(json), true);
    match d {
        UpdateDecision::CheckOnly { current, latest } => {
            assert_eq!(current, "0.2.0");
            assert_eq!(latest, "1.0.0");
        }
        other => panic!(
            "Expected CheckOnly, got {:?}",
            std::mem::discriminant(&other)
        ),
    }
}

#[test]
fn test_decide_update_need_update() {
    let json = r#"{"tag_name": "v1.0.0"}"#;
    let d = decide_update("0.2.0", Ok(json), false);
    match d {
        UpdateDecision::NeedUpdate {
            current,
            latest,
            latest_tag,
        } => {
            assert_eq!(current, "0.2.0");
            assert_eq!(latest, "1.0.0");
            assert_eq!(latest_tag, "v1.0.0");
        }
        other => panic!(
            "Expected NeedUpdate, got {:?}",
            std::mem::discriminant(&other)
        ),
    }
}

#[test]
fn test_decide_update_older_remote() {
    let json = r#"{"tag_name": "v0.1.0"}"#;
    let d = decide_update("0.2.0", Ok(json), false);
    assert!(matches!(d, UpdateDecision::AlreadyUpToDate(_)));
}

#[test]
fn test_decide_update_without_v_prefix() {
    let json = r#"{"tag_name": "1.0.0"}"#;
    let d = decide_update("0.2.0", Ok(json), false);
    match d {
        UpdateDecision::NeedUpdate { latest_tag, .. } => {
            assert_eq!(latest_tag, "1.0.0");
        }
        other => panic!(
            "Expected NeedUpdate, got {:?}",
            std::mem::discriminant(&other)
        ),
    }
}

// --- build_download_plan ---

#[test]
fn test_download_plan_basic() {
    let plan = build_download_plan("v1.0.0", "aarch64-apple-darwin");
    assert_eq!(
        plan.tarball_url,
        "https://github.com/yhzion/didyoumean/releases/download/v1.0.0/didyoumean-aarch64-apple-darwin.tar.gz"
    );
    assert_eq!(
        plan.checksum_url,
        "https://github.com/yhzion/didyoumean/releases/download/v1.0.0/SHA256SUMS"
    );
    assert_eq!(plan.filename, "didyoumean-aarch64-apple-darwin.tar.gz");
}

#[test]
fn test_download_plan_linux() {
    let plan = build_download_plan("v0.3.0", "x86_64-unknown-linux-musl");
    assert!(plan.tarball_url.contains("x86_64-unknown-linux-musl"));
    assert!(plan.tarball_url.contains("v0.3.0"));
}

#[test]
fn test_download_plan_without_v() {
    let plan = build_download_plan("1.0.0", "aarch64-apple-darwin");
    assert!(plan.tarball_url.contains("/1.0.0/"));
}

// --- verify_checksum ---

#[test]
fn test_verify_checksum_match() {
    let checksums = "abc123def456  didyoumean-aarch64-apple-darwin.tar.gz\n";
    let result = verify_checksum(
        checksums,
        "didyoumean-aarch64-apple-darwin.tar.gz",
        "abc123def456",
    );
    assert!(result.is_ok());
}

#[test]
fn test_verify_checksum_mismatch() {
    let checksums = "abc123  file.tar.gz\n";
    let result = verify_checksum(checksums, "file.tar.gz", "xyz789");
    assert!(result.is_err());
    let err = result.unwrap_err();
    assert!(err.contains("mismatch"));
    assert!(err.contains("abc123"));
    assert!(err.contains("xyz789"));
}

#[test]
fn test_verify_checksum_not_found() {
    let checksums = "abc123  unrelated.tar.gz\n";
    let result = verify_checksum(checksums, "didyoumean-linux.tar.gz", "abc123");
    assert!(result.is_err());
    assert!(result.unwrap_err().contains("not found"));
}

#[test]
fn test_verify_checksum_empty_checksums() {
    let result = verify_checksum("", "file.tar.gz", "abc123");
    assert!(result.is_err());
}

#[test]
fn verify_checksum_exact_messages() {
    assert_eq!(
        verify_checksum("abc  f.tgz\n", "f.tgz", "xyz"),
        Err("checksum mismatch\n  Expected: abc\n  Actual:   xyz".to_string())
    );
    assert_eq!(
        verify_checksum("abc  f.tgz\n", "g.tgz", "abc"),
        Err("checksum not found for g.tgz".to_string())
    );
}

// --- format_update_decision ---

#[test]
fn test_format_decision_fetch_error() {
    let d = UpdateDecision::FetchError("network timeout".to_string());
    let action = format_update_decision(d);
    match action {
        UpdateAction::Exit {
            stderr_lines,
            exit_code,
            cache_value,
        } => {
            assert_eq!(exit_code, 1);
            assert!(stderr_lines[0].contains("network timeout"));
            assert!(stderr_lines[1].contains("Reinstall"));
            assert!(cache_value.is_none());
        }
        UpdateAction::DoUpdate { .. } => panic!("Expected Exit"),
    }
}

#[test]
fn test_format_decision_parse_error() {
    let d = UpdateDecision::ParseError;
    let action = format_update_decision(d);
    match action {
        UpdateAction::Exit {
            stderr_lines,
            exit_code,
            cache_value,
        } => {
            assert_eq!(exit_code, 1);
            assert!(stderr_lines[0].contains("could not parse"));
            assert!(cache_value.is_none());
        }
        UpdateAction::DoUpdate { .. } => panic!("Expected Exit"),
    }
}

#[test]
fn test_format_decision_already_up_to_date() {
    let d = UpdateDecision::AlreadyUpToDate("0.2.0".to_string());
    let action = format_update_decision(d);
    match action {
        UpdateAction::Exit {
            stderr_lines,
            exit_code,
            cache_value,
        } => {
            assert_eq!(exit_code, 0);
            assert!(stderr_lines[0].contains("Already up to date"));
            assert!(stderr_lines[0].contains("v0.2.0"));
            assert_eq!(cache_value, Some("v0.2.0".to_string()));
        }
        UpdateAction::DoUpdate { .. } => panic!("Expected Exit"),
    }
}

#[test]
fn test_format_decision_check_only() {
    let d = UpdateDecision::CheckOnly {
        current: "0.2.0".to_string(),
        latest: "1.0.0".to_string(),
    };
    let action = format_update_decision(d);
    match action {
        UpdateAction::Exit {
            stderr_lines,
            exit_code,
            cache_value,
        } => {
            assert_eq!(exit_code, 0);
            assert!(stderr_lines[0].contains("1.0.0"));
            assert!(stderr_lines[0].contains("0.2.0"));
            assert!(stderr_lines[1].contains("didyoumean update"));
            assert_eq!(cache_value, Some("v1.0.0".to_string()));
        }
        UpdateAction::DoUpdate { .. } => panic!("Expected Exit"),
    }
}

#[test]
fn test_format_decision_need_update() {
    let d = UpdateDecision::NeedUpdate {
        current: "0.2.0".to_string(),
        latest: "1.0.0".to_string(),
        latest_tag: "v1.0.0".to_string(),
    };
    let action = format_update_decision(d);
    match action {
        UpdateAction::DoUpdate {
            current,
            latest,
            latest_tag,
        } => {
            assert_eq!(current, "0.2.0");
            assert_eq!(latest, "1.0.0");
            assert_eq!(latest_tag, "v1.0.0");
        }
        UpdateAction::Exit { .. } => panic!("Expected DoUpdate"),
    }
}

// --- background_check ---

#[test]
fn background_check_outcomes() {
    assert_eq!(background_check(Err("offline")), (1, None));
    assert_eq!(background_check(Ok("{}")), (1, None));
    assert_eq!(
        background_check(Ok(r#"{"tag_name":"v2.0.0"}"#)),
        (0, Some("v2.0.0".to_string()))
    );
}

#[test]
fn digest_from_hash_tool_output() {
    assert_eq!(
        checksum_from_tool_output("e3b0c44298fc1c14  /tmp/dym/archive.tar.gz\n"),
        Some("e3b0c44298fc1c14".to_string())
    );
    assert_eq!(checksum_from_tool_output("  abc\tfile"), Some("abc".to_string()));
    assert_eq!(checksum_from_tool_output(""), None);
    assert_eq!(checksum_from_tool_output(" \n\t"), None);
}

#[test]
fn first_tag_name_and_first_matching_checksum_line_win() {
    assert_eq!(
        parse_latest_version(r#"{"tag_name":"x","tag_name":"y"}"#),
        Some("x".to_string())
    );
    let checksums = "aaa  didyoumean.tar.gz\nbbb  didyoumean.tar.gz\n";
    assert_eq!(parse_checksum_for_file(checksums, "didyoumean.tar.gz"), Some("aaa".to_string()));
    // The name only has to occur in the line.
    assert_eq!(parse_checksum_for_file("ccc  ./dist/file.tgz.sig\n", "file.tgz"), Some("ccc".to_string()));
}
