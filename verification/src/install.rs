use vstd::prelude::*;
use vstd::string::*;

use crate::text;
use crate::update::{self, DownloadPlan};

verus! {

broadcast use vstd::string::group_string_axioms;

// ---------------------------------------------------------------------------
// Installing a release, one outside step at a time
// ---------------------------------------------------------------------------

/// The outside work of an installation, in the order it is done.
#[derive(Debug, Clone, Copy, PartialEq, Eq)]
pub enum InstallStage {
    /// Create a private temporary directory.
    MakeTempDir,
    /// Download the release archive into it.
    FetchArchive,
    /// Download the checksum list into it.
    FetchChecksums,
    /// Read the checksum list (the event carries its text).
    ReadChecksums,
    /// Hash the archive (the event carries the hex digest).
    HashArchive,
    /// Unpack the archive.
    Unpack,
    /// Look for the new binary among the unpacked files.
    FindBinary,
    /// Find the running executable (the event carries its path).
    FindExecutable,
    /// Put the new binary in place of the running one.
    ReplaceBinary,
}

/// How a stage went: its result text on success, the error text otherwise.
#[derive(Debug)]
pub enum InstallEvent {
    Done(String),
    Failed(String),
}

/// What to do next: print `notes` and perform `stage`, or print the lines
/// and exit with the code.
#[derive(Debug)]
pub enum InstallStep {
    Perform { stage: InstallStage, notes: Vec<String> },
    Finish { stderr_lines: Vec<String>, exit_code: i32 },
}

/// An installation under way.
#[derive(Debug)]
pub struct Installer {
    pub current: String,
    pub latest: String,
    pub plan: DownloadPlan,
    pub stage: InstallStage,
    /// The checksum list, once read.
    pub checksums: String,
    /// The running executable's path, once found.
    pub executable: String,
}

/// The mathematical value of an `InstallStep`.
pub enum Step {
    Perform { stage: InstallStage, notes: Seq<Seq<char>> },
    Finish { stderr_lines: Seq<Seq<char>>, exit_code: i32 },
}

pub open spec fn lines_view(v: Seq<String>) -> Seq<Seq<char>> {
    v.map_values(|s: String| s@)
}

impl View for InstallStep {
    type V = Step;

    open spec fn view(&self) -> Step {
        match self {
            InstallStep::Perform { stage, notes } => Step::Perform {
                stage: *stage,
                notes: lines_view(notes@),
            },
            InstallStep::Finish { stderr_lines, exit_code } => Step::Finish {
                stderr_lines: lines_view(stderr_lines@),
                exit_code: *exit_code,
            },
        }
    }
}

pub open spec fn event_view(e: InstallEvent) -> Result<Seq<char>, Seq<char>> {
    match e {
        InstallEvent::Done(s) => Ok(s@),
        InstallEvent::Failed(s) => Err(s@),
    }
}

pub open spec fn arrow() -> Seq<char> {
    " \u{2192} v"@
}

pub open spec fn failure(line: Seq<char>) -> Step {
    Step::Finish { stderr_lines: seq![line], exit_code: 1 }
}

/// The first step: find the release target (failing on a system without
/// releases), then announce the update and create the temporary directory.
pub open spec fn first_step(
    current: Seq<char>,
    latest: Seq<char>,
    os: Seq<char>,
    arch: Seq<char>,
) -> Step {
    match update::target_for(os, arch) {
        Err(e) => failure("Error: "@ + e),
        Ok(_) => Step::Perform {
            stage: InstallStage::MakeTempDir,
            notes: seq!["Updating didyoumean v"@ + current + arrow() + latest + "..."@],
        },
    }
}

/// The step after `stage` ended with `event`. Every failure ends the
/// installation with exit code 1 and a line that says what failed; the
/// archive is unpacked only if its hash is the one the checksum list gives
/// for it; success ends with exit code 0.
pub open spec fn next_step(
    stage: InstallStage,
    event: Result<Seq<char>, Seq<char>>,
    current: Seq<char>,
    latest: Seq<char>,
    filename: Seq<char>,
    checksums: Seq<char>,
    executable: Seq<char>,
) -> Step {
    match stage {
        InstallStage::MakeTempDir => match event {
            Ok(_) => Step::Perform {
                stage: InstallStage::FetchArchive,
                notes: seq!["  Downloading "@ + filename + "..."@],
            },
            Err(e) => failure("Error creating temp directory: "@ + e),
        },
        InstallStage::FetchArchive => match event {
            Ok(_) => Step::Perform { stage: InstallStage::FetchChecksums, notes: seq![] },
            Err(e) => failure("Error: "@ + e),
        },
        InstallStage::FetchChecksums => match event {
            Ok(_) => Step::Perform {
                stage: InstallStage::ReadChecksums,
                notes: seq!["  Verifying checksum..."@],
            },
            Err(e) => failure("Error: "@ + e),
        },
        InstallStage::ReadChecksums => match event {
            Ok(_) => Step::Perform { stage: InstallStage::HashArchive, notes: seq![] },
            Err(e) => failure("Error reading checksums: "@ + e),
        },
        InstallStage::HashArchive => match event {
            Ok(actual) => match update::checksum_verdict(checksums, filename, actual) {
                Ok(()) => Step::Perform { stage: InstallStage::Unpack, notes: seq![] },
                Err(e) => failure("Error: "@ + e),
            },
            Err(e) => failure("Error: "@ + e),
        },
        InstallStage::Unpack => match event {
            Ok(_) => Step::Perform { stage: InstallStage::FindBinary, notes: seq![] },
            Err(_) => failure("Error: failed to extract archive"@),
        },
        InstallStage::FindBinary => match event {
            Ok(_) => Step::Perform { stage: InstallStage::FindExecutable, notes: seq![] },
            Err(_) => failure("Error: binary not found in archive"@),
        },
        InstallStage::FindExecutable => match event {
            Ok(_) => Step::Perform { stage: InstallStage::ReplaceBinary, notes: seq![] },
            Err(e) => failure("Error: could not determine binary path: "@ + e),
        },
        InstallStage::ReplaceBinary => match event {
            Ok(_) => Step::Finish {
                stderr_lines: seq![
                    "  Replaced "@ + executable,
                    "Updated successfully (v"@ + current + arrow() + latest + ")."@,
                ],
                exit_code: 0,
            },
            Err(e) => failure("Error replacing binary: "@ + e),
        },
    }
}

fn one_line(line: String) -> (v: Vec<String>)
    ensures
        lines_view(v@) == seq![line@],
{
    let mut v: Vec<String> = Vec::new();
    v.push(line);
    assert(lines_view(v@) =~= seq![line@]);
    v
}

fn no_lines() -> (v: Vec<String>)
    ensures
        lines_view(v@) == Seq::<Seq<char>>::empty(),
{
    let v: Vec<String> = Vec::new();
    assert(lines_view(v@) =~= Seq::<Seq<char>>::empty());
    v
}

fn fail_with(prefix: &str, detail: &str) -> (s: InstallStep)
    ensures
        s@ == failure(prefix@ + detail@),
{
    InstallStep::Finish { stderr_lines: one_line(text::join2(prefix, detail)), exit_code: 1 }
}

fn perform(stage: InstallStage, notes: Vec<String>) -> (s: InstallStep)
    ensures
        s@ == (Step::Perform { stage, notes: lines_view(notes@) }),
{
    InstallStep::Perform { stage, notes }
}

/// Starts installing `latest_tag` over the running version `current`, on
/// the given operating system and architecture.
pub fn start_install(
    current: &str,
    latest: &str,
    latest_tag: &str,
    os: &str,
    arch: &str,
) -> (r: (Option<Installer>, InstallStep))
    ensures
        r.1@ == first_step(current@, latest@, os@, arch@),
        match r.0 {
            Some(inst) => {
                &&& update::target_for(os@, arch@) matches Ok(t) && inst.plan.filename@
                    == update::archive_name(t) && inst.plan.tarball_url@ == update::release_base_url(
                    latest_tag@,
                ) + "/"@ + update::archive_name(t) && inst.plan.checksum_url@
                    == update::release_base_url(latest_tag@) + "/SHA256SUMS"@
                &&& inst.current@ == current@
                &&& inst.latest@ == latest@
                &&& inst.stage == InstallStage::MakeTempDir
                &&& inst.plan.filename@ == run_filename(os@, arch@)
                &&& progress_of(inst) == install_run(current@, latest@, os@, arch@, seq![], 0).0
            },
            None => update::target_for(os@, arch@) is Err,
        },
{
    let target = match update::detect_target(os, arch) {
        Ok(t) => t,
        Err(e) => return (None, fail_with("Error: ", e.as_str())),
    };
    let plan = update::build_download_plan(latest_tag, target.as_str());
    let mut note = String::from_str("Updating didyoumean v");
    note.append(current);
    note.append(" \u{2192} v");
    note.append(latest);
    note.append("...");
    let inst = Installer {
        current: String::from_str(current),
        latest: String::from_str(latest),
        plan,
        stage: InstallStage::MakeTempDir,
        checksums: String::new(),
        executable: String::new(),
    };
    (Some(inst), perform(InstallStage::MakeTempDir, one_line(note)))
}

/// Takes in how the current stage went and says what comes next.
pub fn advance_install(inst: Installer, event: InstallEvent) -> (r: (Installer, InstallStep))
    ensures
        r.1@ == next_step(
            inst.stage,
            event_view(event),
            inst.current@,
            inst.latest@,
            inst.plan.filename@,
            inst.checksums@,
            inst.executable@,
        ),
        r.0.current@ == inst.current@,
        r.0.latest@ == inst.latest@,
        r.0.plan.filename@ == inst.plan.filename@,
        r.0.plan.tarball_url@ == inst.plan.tarball_url@,
        r.0.plan.checksum_url@ == inst.plan.checksum_url@,
        r.1@ matches Step::Perform { stage, .. } ==> r.0.stage == stage && progress_of(r.0)
            == gather(progress_of(inst), event_view(event), stage),
        r.0.checksums@ == if inst.stage == InstallStage::ReadChecksums && event is Done {
            event_view(event)->Ok_0
        } else {
            inst.checksums@
        },
        r.0.executable@ == if inst.stage == InstallStage::FindExecutable && event is Done {
            event_view(event)->Ok_0
        } else {
            inst.executable@
        },
{
    let mut inst = inst;
    let step = match inst.stage {
        InstallStage::MakeTempDir => match event {
            InstallEvent::Done(_) => {
                let mut note = String::from_str("  Downloading ");
                note.append(inst.plan.filename.as_str());
                note.append("...");
                perform(InstallStage::FetchArchive, one_line(note))
            },
            InstallEvent::Failed(e) => fail_with("Error creating temp directory: ", e.as_str()),
        },
        InstallStage::FetchArchive => match event {
            InstallEvent::Done(_) => perform(InstallStage::FetchChecksums, no_lines()),
            InstallEvent::Failed(e) => fail_with("Error: ", e.as_str()),
        },
        InstallStage::FetchChecksums => match event {
            InstallEvent::Done(_) => perform(
                InstallStage::ReadChecksums,
                one_line(String::from_str("  Verifying checksum...")),
            ),
            InstallEvent::Failed(e) => fail_with("Error: ", e.as_str()),
        },
        InstallStage::ReadChecksums => match event {
            InstallEvent::Done(content) => {
                inst.checksums = content;
                perform(InstallStage::HashArchive, no_lines())
            },
            InstallEvent::Failed(e) => fail_with("Error reading checksums: ", e.as_str()),
        },
        InstallStage::HashArchive => match event {
            InstallEvent::Done(actual) => match update::verify_checksum(
                inst.checksums.as_str(),
                inst.plan.filename.as_str(),
                actual.as_str(),
            ) {
                Ok(()) => perform(InstallStage::Unpack, no_lines()),
                Err(e) => fail_with("Error: ", e.as_str()),
            },
            InstallEvent::Failed(e) => fail_with("Error: ", e.as_str()),
        },
        InstallStage::Unpack => match event {
            InstallEvent::Done(_) => perform(InstallStage::FindBinary, no_lines()),
            InstallEvent::Failed(_) => InstallStep::Finish {
                stderr_lines: one_line(String::from_str("Error: failed to extract archive")),
                exit_code: 1,
            },
        },
        InstallStage::FindBinary => match event {
            InstallEvent::Done(_) => perform(InstallStage::FindExecutable, no_lines()),
            InstallEvent::Failed(_) => InstallStep::Finish {
                stderr_lines: one_line(String::from_str("Error: binary not found in archive")),
                exit_code: 1,
            },
        },
        InstallStage::FindExecutable => match event {
            InstallEvent::Done(path) => {
                inst.executable = path;
                perform(InstallStage::ReplaceBinary, no_lines())
            },
            InstallEvent::Failed(e) => fail_with(
                "Error: could not determine binary path: ",
                e.as_str(),
            ),
        },
        InstallStage::ReplaceBinary => match event {
            InstallEvent::Done(_) => {
                let replaced = text::join2("  Replaced ", inst.executable.as_str());
                let mut done = String::from_str("Updated successfully (v");
                done.append(inst.current.as_str());
                done.append(" \u{2192} v");
                done.append(inst.latest.as_str());
                done.append(").");
                let mut lines: Vec<String> = Vec::new();
                lines.push(replaced);
                lines.push(done);
                assert(lines_view(lines@) =~= seq![
                    "  Replaced "@ + inst.executable@,
                    "Updated successfully (v"@ + inst.current@ + arrow() + inst.latest@ + ")."@,
                ]);
                InstallStep::Finish { stderr_lines: lines, exit_code: 0 }
            },
            InstallEvent::Failed(e) => fail_with("Error replacing binary: ", e.as_str()),
        },
    };
    if let InstallStep::Perform { stage, .. } = &step {
        inst.stage = *stage;
    }
    (inst, step)
}


/// The archive is unpacked only after its hash was found equal to the one
/// the checksum list gives for it; the installation ends with exit code 0
/// only after the binary was replaced, and every other end is exit code 1.
pub proof fn lemma_install_safety(
    stage: InstallStage,
    event: Result<Seq<char>, Seq<char>>,
    current: Seq<char>,
    latest: Seq<char>,
    filename: Seq<char>,
    checksums: Seq<char>,
    executable: Seq<char>,
)
    ensures
        ({
            let s = next_step(stage, event, current, latest, filename, checksums, executable);
            &&& (s matches Step::Perform { stage: next, .. } && next == InstallStage::Unpack) ==> (
            stage == InstallStage::HashArchive && (event matches Ok(actual)
                && update::checksum_of(checksums, filename) == Some(actual)))
            &&& s matches Step::Finish { exit_code, .. } ==> {
                &&& exit_code == 0 || exit_code == 1
                &&& (exit_code == 0) == (stage == InstallStage::ReplaceBinary && event is Ok)
            }
            &&& event is Err ==> s is Finish
        }),
{
}


/// The position of a stage in the installation's order.
pub open spec fn stage_order(s: InstallStage) -> nat {
    match s {
        InstallStage::MakeTempDir => 0,
        InstallStage::FetchArchive => 1,
        InstallStage::FetchChecksums => 2,
        InstallStage::ReadChecksums => 3,
        InstallStage::HashArchive => 4,
        InstallStage::Unpack => 5,
        InstallStage::FindBinary => 6,
        InstallStage::FindExecutable => 7,
        InstallStage::ReplaceBinary => 8,
    }
}

/// What an installation holds between steps: the stage under way, the
/// checksum list once read and the running executable's path once found.
pub struct Progress {
    pub stage: InstallStage,
    pub checksums: Seq<char>,
    pub executable: Seq<char>,
}

/// The `Installer` fields that `advance_install` carries from step to step.
pub open spec fn progress_of(inst: Installer) -> Progress {
    Progress { stage: inst.stage, checksums: inst.checksums@, executable: inst.executable@ }
}

/// The progress after `p.stage` ended with `event` and `next` is to come.
pub open spec fn gather(
    p: Progress,
    event: Result<Seq<char>, Seq<char>>,
    next: InstallStage,
) -> Progress {
    Progress {
        stage: next,
        checksums: if p.stage == InstallStage::ReadChecksums && event is Ok {
            event->Ok_0
        } else {
            p.checksums
        },
        executable: if p.stage == InstallStage::FindExecutable && event is Ok {
            event->Ok_0
        } else {
            p.executable
        },
    }
}

/// The archive that an installation on `os` and `arch` downloads.
pub open spec fn run_filename(os: Seq<char>, arch: Seq<char>) -> Seq<char> {
    match update::target_for(os, arch) {
        Ok(t) => update::archive_name(t),
        Err(_) => seq![],
    }
}

/// Where an installation begun by `start_install` stands once the first
/// `n` of `events` were handed to `advance_install` in turn: its progress
/// and the step it asks for. Once it has finished it stays finished.
pub open spec fn install_run(
    current: Seq<char>,
    latest: Seq<char>,
    os: Seq<char>,
    arch: Seq<char>,
    events: Seq<Result<Seq<char>, Seq<char>>>,
    n: nat,
) -> (Progress, Step)
    decreases n,
{
    if n == 0 {
        (
            Progress {
                stage: InstallStage::MakeTempDir,
                checksums: seq![],
                executable: seq![],
            },
            first_step(current, latest, os, arch),
        )
    } else {
        let (p, s) = install_run(current, latest, os, arch, events, (n - 1) as nat);
        match s {
            Step::Perform { .. } => {
                let e = events[n - 1];
                let next = next_step(
                    p.stage,
                    e,
                    current,
                    latest,
                    run_filename(os, arch),
                    p.checksums,
                    p.executable,
                );
                match next {
                    Step::Perform { stage, .. } => (gather(p, e, stage), next),
                    Step::Finish { .. } => (p, next),
                }
            },
            Step::Finish { .. } => (p, s),
        }
    }
}

/// Over a whole installation: each stage is asked for only after every
/// earlier one succeeded, in order; unpacking and everything after it,
/// replacing the binary included, is asked for only once the archive's
/// hash equals the one that the checksum list read gives for it; exit
/// code 0 comes only after the binary was replaced, and every other end is
/// exit code 1 with a single line that starts with "Error"; and a run in
/// which every stage succeeds and the hash matches ends with exit code 0.
pub proof fn lemma_install_run(
    current: Seq<char>,
    latest: Seq<char>,
    os: Seq<char>,
    arch: Seq<char>,
    events: Seq<Result<Seq<char>, Seq<char>>>,
    n: nat,
)
    requires
        n <= events.len(),
    ensures
        ({
            let (p, s) = install_run(current, latest, os, arch, events, n);
            let filename = run_filename(os, arch);
            let read = stage_order(InstallStage::ReadChecksums) as int;
            let hash = stage_order(InstallStage::HashArchive) as int;
            let found = stage_order(InstallStage::FindExecutable) as int;
            let replace = stage_order(InstallStage::ReplaceBinary) as int;
            let verified = update::checksum_of(events[read]->Ok_0, filename) == Some(
                events[hash]->Ok_0,
            );
            &&& (update::target_for(os, arch) is Ok && (forall|k: int| 0 <= k < n ==> events[k] is Ok)
                && (n > hash ==> verified)) ==> if n <= replace {
                s is Perform
            } else {
                s matches Step::Finish { exit_code, .. } && exit_code == 0
            }
            &&& s matches Step::Perform { stage, .. } ==> {
                &&& stage_order(stage) == n
                &&& p.stage == stage
                &&& update::target_for(os, arch) is Ok
                &&& forall|k: int| 0 <= k < n ==> events[k] is Ok
                &&& n > read ==> p.checksums == events[read]->Ok_0
                &&& n > found ==> p.executable == events[found]->Ok_0
                &&& n > hash ==> verified
            }
            &&& s matches Step::Finish { stderr_lines, exit_code } ==> if exit_code == 0 {
                &&& update::target_for(os, arch) is Ok
                &&& replace < n
                &&& forall|k: int| 0 <= k <= replace ==> events[k] is Ok
                &&& verified
                &&& stderr_lines == seq![
                    "  Replaced "@ + events[found]->Ok_0,
                    "Updated successfully (v"@ + current + arrow() + latest + ")."@,
                ]
            } else {
                &&& exit_code == 1
                &&& stderr_lines.len() == 1
                &&& "Error"@.is_prefix_of(stderr_lines[0])
            }
        }),
    decreases n,
{
    reveal_strlit("Error");
    reveal_strlit("Error: ");
    reveal_strlit("Error creating temp directory: ");
    reveal_strlit("Error reading checksums: ");
    reveal_strlit("Error: failed to extract archive");
    reveal_strlit("Error: binary not found in archive");
    reveal_strlit("Error: could not determine binary path: ");
    reveal_strlit("Error replacing binary: ");
    if n > 0 {
        lemma_install_run(current, latest, os, arch, events, (n - 1) as nat);
    }
    assert forall|line: Seq<char>| "Error"@.is_prefix_of("Error: "@ + line) by {
        assert(("Error: "@ + line).subrange(0, 5) =~= "Error"@);
    }
}

} // verus!
