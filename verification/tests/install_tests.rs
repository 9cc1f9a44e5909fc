use didyoumean::install::{advance_install, start_install, InstallEvent, InstallStage, InstallStep};

fn done(s: &str) -> InstallEvent {
    InstallEvent::Done(s.to_string())
}

fn failed(s: &str) -> InstallEvent {
    InstallEvent::Failed(s.to_string())
}

#[test]
fn unsupported_system_stops_before_any_work() {
    let (inst, step) = start_install("0.2.0", "1.0.0", "v1.0.0", "windows", "x86_64");
    assert!(inst.is_none());
    match step {
        InstallStep::Finish { stderr_lines, exit_code } => {
            assert_eq!(exit_code, 1);
            assert_eq!(stderr_lines, vec!["Error: unsupported OS".to_string()]);
        }
        InstallStep::Perform { .. } => panic!("expected Finish"),
    }
}

#[test]
fn a_full_successful_installation() {
    let (inst, step) = start_install("0.2.0", "1.0.0", "v1.0.0", "linux", "x86_64");
    let mut inst = inst.unwrap();
    assert_eq!(
        inst.plan.tarball_url,
        "https://github.com/yhzion/didyoumean/releases/download/v1.0.0/didyoumean-x86_64-unknown-linux-musl.tar.gz"
    );
    match step {
        InstallStep::Perform { stage, notes } => {
            assert_eq!(stage, InstallStage::MakeTempDir);
            assert_eq!(notes, vec!["Updating didyoumean v0.2.0 \u{2192} v1.0.0...".to_string()]);
        }
        _ => panic!("expected Perform"),
    }
    let checksums = "abc123  didyoumean-x86_64-unknown-linux-musl.tar.gz\n";
    let events = vec![
        (done(""), InstallStage::FetchArchive),
        (done(""), InstallStage::FetchChecksums),
        (done(""), InstallStage::ReadChecksums),
        (done(checksums), InstallStage::HashArchive),
        (done("abc123"), InstallStage::Unpack),
        (done(""), InstallStage::FindBinary),
        (done(""), InstallStage::FindExecutable),
        (done("/usr/local/bin/didyoumean"), InstallStage::ReplaceBinary),
    ];
    for (event, expected) in events {
        let (next, step) = advance_install(inst, event);
        inst = next;
        match step {
            InstallStep::Perform { stage, .. } => assert_eq!(stage, expected),
            InstallStep::Finish { stderr_lines, .. } => panic!("stopped: {:?}", stderr_lines),
        }
    }
    let (_, step) = advance_install(inst, done(""));
    match step {
        InstallStep::Finish { stderr_lines, exit_code } => {
            assert_eq!(exit_code, 0);
            assert_eq!(
                stderr_lines,
                vec![
                    "  Replaced /usr/local/bin/didyoumean".to_string(),
                    "Updated successfully (v0.2.0 \u{2192} v1.0.0).".to_string()
                ]
            );
        }
        _ => panic!("expected Finish"),
    }
}

#[test]
fn checksum_mismatch_stops_before_unpacking() {
    let (inst, _) = start_install("0.2.0", "1.0.0", "v1.0.0", "macos", "aarch64");
    let mut inst = inst.unwrap();
    for event in [done(""), done(""), done(""), done("abc123  didyoumean-aarch64-apple-darwin.tar.gz\n")] {
        let (next, _) = advance_install(inst, event);
        inst = next;
    }
    assert_eq!(inst.stage, InstallStage::HashArchive);
    let (_, step) = advance_install(inst, done("fff000"));
    match step {
        InstallStep::Finish { stderr_lines, exit_code } => {
            assert_eq!(exit_code, 1);
            assert_eq!(
                stderr_lines,
                vec!["Error: checksum mismatch\n  Expected: abc123\n  Actual:   fff000".to_string()]
            );
        }
        _ => panic!("expected Finish"),
    }
}

#[test]
fn failures_name_the_stage() {
    let (inst, _) = start_install("0.2.0", "1.0.0", "v1.0.0", "linux", "aarch64");
    let (_, step) = advance_install(inst.unwrap(), failed("permission denied"));
    match step {
        InstallStep::Finish { stderr_lines, exit_code } => {
            assert_eq!(exit_code, 1);
            assert_eq!(
                stderr_lines,
                vec!["Error creating temp directory: permission denied".to_string()]
            );
        }
        _ => panic!("expected Finish"),
    }
}
