use vstd::prelude::*;
use vstd::string::*;

use crate::text;

verus! {

broadcast use vstd::string::group_string_axioms;

// ---------------------------------------------------------------------------
// Versions
// ---------------------------------------------------------------------------

/// `s` without one leading `'v'`.
pub open spec fn strip_v(s: Seq<char>) -> Seq<char> {
    if s.len() > 0 && s[0] == 'v' {
        s.drop_first()
    } else {
        s
    }
}

pub open spec fn u32_of(s: Seq<char>) -> Option<nat> {
    text::parse_unsigned(s, 0xffff_ffff)
}

/// The version `major.minor.patch` that `version` spells, with an optional
/// leading `v`: exactly three dot-separated fields, each a `u32` as
/// `str::parse` reads it.
pub open spec fn semver_of(version: Seq<char>) -> Option<(u32, u32, u32)> {
    let parts = text::split_on(strip_v(version), '.');
    if parts.len() != 3 {
        None
    } else {
        match (u32_of(parts[0]), u32_of(parts[1]), u32_of(parts[2])) {
            (Some(a), Some(b), Some(c)) => Some((a as u32, b as u32, c as u32)),
            _ => None,
        }
    }
}

/// Lexicographic order on versions.
pub open spec fn version_lt(a: (u32, u32, u32), b: (u32, u32, u32)) -> bool {
    a.0 < b.0 || (a.0 == b.0 && (a.1 < b.1 || (a.1 == b.1 && a.2 < b.2)))
}

/// `latest` names a later version than `current`; false when either does not parse.
pub open spec fn is_newer(current: Seq<char>, latest: Seq<char>) -> bool {
    match (semver_of(current), semver_of(latest)) {
        (Some(c), Some(l)) => version_lt(c, l),
        _ => false,
    }
}

fn parse_u32_in(text: &Vec<char>, lo: usize, hi: usize) -> (r: Option<u32>)
    requires
        lo <= hi <= text@.len(),
    ensures
        match r {
            Some(v) => u32_of(text@.subrange(lo as int, hi as int)) == Some(v as nat),
            None => u32_of(text@.subrange(lo as int, hi as int)) is None,
        },
{
    match text::parse_unsigned_in(text, lo, hi, 0xffff_ffff) {
        Some(v) => Some(v as u32),
        None => None,
    }
}

/// Reads a version `major.minor.patch`, with an optional leading `v`.
pub fn parse_semver(version: &str) -> (r: Option<(u32, u32, u32)>)
    ensures
        r == semver_of(version@),
{
    let chars = text::chars_of(version);
    let len = chars.len();
    let start: usize = if len > 0 && chars[0] == 'v' {
        1
    } else {
        0
    };
    let ghost v = strip_v(version@);
    assert(v =~= chars@.subrange(start as int, len as int));
    let ghost parts = text::split_on(v, '.');
    let d1 = match text::find_char_in(&chars, start, len, '.') {
        Some(d) => d,
        None => {
            assert(parts.len() == 1);
            return None;
        },
    };
    let ghost r1 = v.skip(d1 - start + 1);
    assert(r1 =~= chars@.subrange(d1 + 1, len as int));
    assert(parts == seq![v.take(d1 - start)] + text::split_on(r1, '.'));
    let d2 = match text::find_char_in(&chars, d1 + 1, len, '.') {
        Some(d) => d,
        None => {
            assert(parts.len() == 2);
            return None;
        },
    };
    let ghost r2 = r1.skip(d2 - d1);
    assert(r2 =~= chars@.subrange(d2 + 1, len as int));
    assert(text::split_on(r1, '.') == seq![r1.take(d2 - d1 - 1)] + text::split_on(r2, '.'));
    if let Some(d3) = text::find_char_in(&chars, d2 + 1, len, '.') {
        proof {
            text::lemma_split_on_nonempty(r2.skip(d3 - d2), '.');
        }
        assert(text::split_on(r2, '.').len() >= 2);
        assert(parts.len() >= 4);
        return None;
    }
    assert(text::split_on(r2, '.') == seq![r2]);
    assert(parts.len() == 3);
    assert(parts[0] =~= chars@.subrange(start as int, d1 as int));
    assert(parts[1] =~= chars@.subrange(d1 + 1, d2 as int));
    assert(parts[2] =~= chars@.subrange(d2 + 1, len as int));
    let a = match parse_u32_in(&chars, start, d1) {
        Some(a) => a,
        None => return None,
    };
    let b = match parse_u32_in(&chars, d1 + 1, d2) {
        Some(b) => b,
        None => return None,
    };
    let c = match parse_u32_in(&chars, d2 + 1, len) {
        Some(c) => c,
        None => return None,
    };
    Some((a, b, c))
}


/// Whether `latest` names a later version than `current`.
pub fn is_newer_version(current: &str, latest: &str) -> (r: bool)
    ensures
        r == is_newer(current@, latest@),
{
    match (parse_semver(current), parse_semver(latest)) {
        (Some(c), Some(l)) => c.0 < l.0 || (c.0 == l.0 && (c.1 < l.1 || (c.1 == l.1 && c.2 < l.2))),
        _ => false,
    }
}

// ---------------------------------------------------------------------------
// Release metadata
// ---------------------------------------------------------------------------

/// The key that a release record names its tag with.
pub open spec fn tag_key() -> Seq<char> {
    "\"tag_name\""@
}

/// The tag of a release record: after the first `"tag_name"`, the first
/// `:`, then the text between the next two double quotes.
pub open spec fn latest_version_of(json: Seq<char>) -> Option<Seq<char>> {
    match text::find(json, tag_key()) {
        None => None,
        Some(p) => {
            let rest = json.skip(p + tag_key().len());
            match text::find(rest, seq![':']) {
                None => None,
                Some(c) => {
                    let after_colon = rest.skip(c + 1);
                    match text::find(after_colon, seq!['"']) {
                        None => None,
                        Some(q) => {
                            let after_quote = after_colon.skip(q + 1);
                            match text::find(after_quote, seq!['"']) {
                                None => None,
                                Some(e) => Some(after_quote.take(e)),
                            }
                        },
                    }
                },
            }
        },
    }
}

/// Reads the tag of the latest release out of the release record.
pub fn parse_latest_version(json: &str) -> (r: Option<String>)
    ensures
        match r {
            Some(v) => latest_version_of(json@) == Some(v@),
            None => latest_version_of(json@) is None,
        },
{
    let chars = text::chars_of(json);
    let len = chars.len();
    let key = text::chars_of("\"tag_name\"");
    assert(chars@.subrange(0, len as int) =~= json@);
    let p = match text::find_in(&chars, 0, len, &key) {
        Some(p) => p,
        None => return None,
    };
    let ghost rest = json@.skip(p + tag_key().len());
    proof {
        text::lemma_find_from_result(json@, tag_key(), 0);
    }
    let rest_start = p + key.len();
    assert(rest =~= chars@.subrange(rest_start as int, len as int));
    let c = match text::find_char_in(&chars, rest_start, len, ':') {
        Some(c) => c,
        None => return None,
    };
    let ghost after_colon = rest.skip(c - rest_start + 1);
    assert(after_colon =~= chars@.subrange(c + 1, len as int));
    let q = match text::find_char_in(&chars, c + 1, len, '"') {
        Some(q) => q,
        None => return None,
    };
    let ghost after_quote = after_colon.skip(q - c);
    assert(after_quote =~= chars@.subrange(q + 1, len as int));
    let e = match text::find_char_in(&chars, q + 1, len, '"') {
        Some(e) => e,
        None => return None,
    };
    assert(after_quote.take(e - q - 1) =~= json@.subrange(q + 1, e as int));
    Some(text::string_of_range(json, q + 1, e))
}

// ---------------------------------------------------------------------------
// Build target
// ---------------------------------------------------------------------------

/// The release target for an operating system and architecture, named as
/// `std::env::consts::OS` and `ARCH` name them.
pub open spec fn target_for(os: Seq<char>, arch: Seq<char>) -> Result<Seq<char>, Seq<char>> {
    if os != "linux"@ && os != "macos"@ {
        Err("unsupported OS"@)
    } else if arch != "x86_64"@ && arch != "aarch64"@ {
        Err("unsupported architecture"@)
    } else {
        let os_part = if os == "linux"@ {
            "unknown-linux-musl"@
        } else {
            "apple-darwin"@
        };
        Ok(arch + "-"@ + os_part)
    }
}

/// The release target triple for the given operating system and
/// architecture: Linux builds use musl, macOS builds Darwin; other systems
/// and architectures have no release.
pub fn detect_target(os: &str, arch: &str) -> (r: Result<String, String>)
    ensures
        match r {
            Ok(t) => target_for(os@, arch@) == Ok::<Seq<char>, Seq<char>>(t@),
            Err(e) => target_for(os@, arch@) == Err::<Seq<char>, Seq<char>>(e@),
        },
{
    let os_part = if text::same_text(os, "linux") {
        "unknown-linux-musl"
    } else if text::same_text(os, "macos") {
        "apple-darwin"
    } else {
        return Err(String::from_str("unsupported OS"));
    };
    if !text::same_text(arch, "x86_64") && !text::same_text(arch, "aarch64") {
        return Err(String::from_str("unsupported architecture"));
    }
    let mut t = String::from_str(arch);
    t.append("-");
    t.append(os_part);
    Ok(t)
}

// ---------------------------------------------------------------------------
// Checksums
// ---------------------------------------------------------------------------

/// The first of `ls` that contains `pat`.
pub open spec fn first_line_containing(ls: Seq<Seq<char>>, pat: Seq<char>) -> Option<Seq<char>>
    decreases ls.len(),
{
    if ls.len() == 0 {
        None
    } else if text::contains(ls[0], pat) {
        Some(ls[0])
    } else {
        first_line_containing(ls.drop_first(), pat)
    }
}

/// The checksum listed for `filename`: the first word of the first line
/// that mentions it.
pub open spec fn checksum_of(checksums: Seq<char>, filename: Seq<char>) -> Option<Seq<char>> {
    match first_line_containing(text::lines(checksums), filename) {
        Some(line) => text::first_word(line),
        None => None,
    }
}

/// Finds the checksum listed for `filename` in a checksum list.
pub fn parse_checksum_for_file(checksums: &str, filename: &str) -> (r: Option<String>)
    ensures
        match r {
            Some(h) => checksum_of(checksums@, filename@) == Some(h@),
            None => checksum_of(checksums@, filename@) is None,
        },
{
    let chars = text::chars_of(checksums);
    let name = text::chars_of(filename);
    let len = chars.len();
    let mut pos: usize = 0;
    assert(chars@.skip(0) =~= chars@);
    while pos < len
        invariant
            chars@ == checksums@,
            name@ == filename@,
            len == chars@.len(),
            pos <= len,
            checksum_of(checksums@, filename@) == match first_line_containing(
                text::lines(chars@.skip(pos as int)),
                filename@,
            ) {
                Some(line) => text::first_word(line),
                None => None,
            },
        decreases len - pos,
    {
        let ghost rest = chars@.skip(pos as int);
        assert(rest =~= chars@.subrange(pos as int, len as int));
        let (line_end, next) = match text::find_char_in(&chars, pos, len, '\n') {
            Some(nl) => {
                let end = if nl > pos && chars[nl - 1] == '\r' {
                    nl - 1
                } else {
                    nl
                };
                assert(text::strip_cr(rest.take(nl - pos)) =~= chars@.subrange(pos as int, end as int));
                assert(rest.skip(nl - pos + 1) =~= chars@.skip(nl + 1));
                (end, nl + 1)
            },
            None => (len, len),
        };
        let ghost line = chars@.subrange(pos as int, line_end as int);
        assert(text::lines(rest)[0] == line);
        assert(text::lines(rest).drop_first() =~= text::lines(chars@.skip(next as int)));
        if text::find_in(&chars, pos, line_end, &name).is_some() {
            return match text::first_word_bounds(&chars, pos, line_end) {
                Some((a, b)) => Some(text::string_of_range(checksums, a, b)),
                None => None,
            };
        }
        pos = next;
    }
    assert(text::lines(chars@.skip(pos as int)) =~= seq![]);
    None
}


// ---------------------------------------------------------------------------
// Cache of the latest known version
// ---------------------------------------------------------------------------

/// `base` joined with the relative path `rest`, as `Path::join` joins on
/// Unix: a `/` goes between them unless `base` is empty or already ends in one.
pub open spec fn path_join(base: Seq<char>, rest: Seq<char>) -> Seq<char> {
    if base.len() == 0 || base.last() == '/' {
        base + rest
    } else {
        base + "/"@ + rest
    }
}

/// The cache directory: `$XDG_CACHE_HOME/didyoumean` when that variable is
/// set, else `$HOME/.cache/didyoumean` when `HOME` is set.
pub open spec fn cache_dir_for(xdg_cache_home: Option<Seq<char>>, home: Option<Seq<char>>) -> Option<
    Seq<char>,
> {
    match xdg_cache_home {
        Some(x) => Some(path_join(x, "didyoumean"@)),
        None => match home {
            Some(h) => Some(path_join(h, ".cache/didyoumean"@)),
            None => None,
        },
    }
}

pub open spec fn opt_str_view(o: Option<&str>) -> Option<Seq<char>> {
    match o {
        Some(s) => Some(s@),
        None => None,
    }
}

pub open spec fn opt_string_view(o: Option<String>) -> Option<Seq<char>> {
    match o {
        Some(s) => Some(s@),
        None => None,
    }
}

pub(crate) fn join_path(base: &str, rest: &str) -> (r: String)
    ensures
        r@ == path_join(base@, rest@),
{
    let chars = text::chars_of(base);
    let mut r = String::from_str(base);
    if chars.len() > 0 && chars[chars.len() - 1] != '/' {
        r.append("/");
    }
    r.append(rest);
    r
}

/// The cache directory, from the values of `XDG_CACHE_HOME` and `HOME`.
pub fn cache_dir(xdg_cache_home: Option<&str>, home: Option<&str>) -> (r: Option<String>)
    ensures
        opt_string_view(r) == cache_dir_for(opt_str_view(xdg_cache_home), opt_str_view(home)),
{
    match xdg_cache_home {
        Some(x) => Some(join_path(x, "didyoumean")),
        None => match home {
            Some(h) => Some(join_path(h, ".cache/didyoumean")),
            None => None,
        },
    }
}

/// The file that holds the latest known version, inside the cache directory.
pub fn cache_version_path(xdg_cache_home: Option<&str>, home: Option<&str>) -> (r: Option<String>)
    ensures
        opt_string_view(r) == match cache_dir_for(opt_str_view(xdg_cache_home), opt_str_view(home)) {
            Some(d) => Some(path_join(d, "latest-version"@)),
            None => None,
        },
{
    match cache_dir(xdg_cache_home, home) {
        Some(d) => Some(join_path(d.as_str(), "latest-version")),
        None => None,
    }
}

/// How long a cached version stays fresh, in seconds.
pub const CHECK_INTERVAL_SECS: u64 = 86400;

/// Whether the cache should be refreshed, given its age in seconds (`None`
/// when the cache file or its modification time cannot be read).
pub fn cache_is_stale(age_secs: Option<u64>) -> (r: bool)
    ensures
        r == match age_secs {
            Some(a) => a > CHECK_INTERVAL_SECS,
            None => true,
        },
{
    match age_secs {
        Some(a) => a > CHECK_INTERVAL_SECS,
        None => true,
    }
}

/// The version recorded in the cache file: its trimmed content, if any.
pub open spec fn cached_version_of(content: Seq<char>) -> Option<Seq<char>> {
    if text::trim(content).len() == 0 {
        None
    } else {
        Some(text::trim(content))
    }
}

/// Reads the version out of the cache file's content (`None` when the file
/// could not be read).
pub fn cached_version(content: Option<&str>) -> (r: Option<String>)
    ensures
        opt_string_view(r) == match content {
            Some(c) => cached_version_of(c@),
            None => None,
        },
{
    let c = match content {
        Some(c) => c,
        None => return None,
    };
    let chars = text::chars_of(c);
    assert(chars@.subrange(0, chars@.len() as int) =~= c@);
    let (a, b) = text::trim_bounds(&chars, 0, chars.len());
    if a == b {
        return None;
    }
    Some(text::string_of_range(c, a, b))
}


// ---------------------------------------------------------------------------
// Update notice
// ---------------------------------------------------------------------------

/// What to tell the user about updates, and whether to refresh the cache.
#[derive(Debug)]
pub struct UpdateNotification {
    pub message: Option<String>,
    pub should_bg_check: bool,
}

/// The notice shown when the cached latest version is newer than the running one.
pub open spec fn notice_for(cached: Option<Seq<char>>, current: Seq<char>) -> Option<Seq<char>> {
    match cached {
        None => None,
        Some(latest) => {
            let clean = strip_v(latest);
            if is_newer(current, clean) {
                Some(
                    "[dym] v"@ + clean + " available (current: v"@ + current
                        + "). Run 'didyoumean update'"@,
                )
            } else {
                None
            }
        },
    }
}

/// `s` without one leading `'v'`, as a new `String`.
fn strip_v_string(s: &str) -> (r: String)
    ensures
        r@ == strip_v(s@),
{
    let chars = text::chars_of(s);
    if chars.len() > 0 && chars[0] == 'v' {
        text::string_of_range(s, 1, chars.len())
    } else {
        String::from_str(s)
    }
}

/// Decides the update notice from the cached latest version and the
/// running version, and asks for a background check when the cache is stale.
pub fn build_update_notification(
    cached_version: Option<&str>,
    current_version: &str,
    cache_is_stale: bool,
) -> (n: UpdateNotification)
    ensures
        opt_string_view(n.message) == notice_for(opt_str_view(cached_version), current_version@),
        n.should_bg_check == cache_is_stale,
{
    let message = match cached_version {
        None => None,
        Some(latest) => {
            let clean = strip_v_string(latest);
            if is_newer_version(current_version, clean.as_str()) {
                let mut m = String::from_str("[dym] v");
                m.append(clean.as_str());
                m.append(" available (current: v");
                m.append(current_version);
                m.append("). Run 'didyoumean update'");
                Some(m)
            } else {
                None
            }
        },
    };
    UpdateNotification { message, should_bg_check: cache_is_stale }
}

// ---------------------------------------------------------------------------
// Update decision
// ---------------------------------------------------------------------------

/// What `didyoumean update` found out.
#[derive(Debug)]
pub enum UpdateDecision {
    AlreadyUpToDate(String),
    CheckOnly { current: String, latest: String },
    NeedUpdate { current: String, latest: String, latest_tag: String },
    FetchError(String),
    ParseError,
}

/// The mathematical value of an `UpdateDecision`.
pub enum Decision {
    AlreadyUpToDate(Seq<char>),
    CheckOnly { current: Seq<char>, latest: Seq<char> },
    NeedUpdate { current: Seq<char>, latest: Seq<char>, latest_tag: Seq<char> },
    FetchError(Seq<char>),
    ParseError,
}

impl View for UpdateDecision {
    type V = Decision;

    open spec fn view(&self) -> Decision {
        match self {
            UpdateDecision::AlreadyUpToDate(v) => Decision::AlreadyUpToDate(v@),
            UpdateDecision::CheckOnly { current, latest } => Decision::CheckOnly {
                current: current@,
                latest: latest@,
            },
            UpdateDecision::NeedUpdate { current, latest, latest_tag } => Decision::NeedUpdate {
                current: current@,
                latest: latest@,
                latest_tag: latest_tag@,
            },
            UpdateDecision::FetchError(e) => Decision::FetchError(e@),
            UpdateDecision::ParseError => Decision::ParseError,
        }
    }
}

pub open spec fn fetch_view(r: Result<&str, &str>) -> Result<Seq<char>, Seq<char>> {
    match r {
        Ok(j) => Ok(j@),
        Err(e) => Err(e@),
    }
}

/// The decision for the running version `current`, given what fetching the
/// latest release record produced.
pub open spec fn decision_for(
    current: Seq<char>,
    fetched: Result<Seq<char>, Seq<char>>,
    check_only: bool,
) -> Decision {
    match fetched {
        Err(e) => Decision::FetchError(e),
        Ok(json) => match latest_version_of(json) {
            None => Decision::ParseError,
            Some(tag) => {
                let latest = strip_v(tag);
                if !is_newer(current, latest) {
                    Decision::AlreadyUpToDate(current)
                } else if check_only {
                    Decision::CheckOnly { current, latest }
                } else {
                    Decision::NeedUpdate { current, latest, latest_tag: tag }
                }
            },
        },
    }
}

/// Decides what `didyoumean update` does, from the fetched release record.
pub fn decide_update(current: &str, fetch_result: Result<&str, &str>, check_only: bool) -> (d:
    UpdateDecision)
    ensures
        d@ == decision_for(current@, fetch_view(fetch_result), check_only),
{
    let json = match fetch_result {
        Ok(j) => j,
        Err(e) => return UpdateDecision::FetchError(String::from_str(e)),
    };
    let latest_tag = match parse_latest_version(json) {
        Some(v) => v,
        None => return UpdateDecision::ParseError,
    };
    let latest = strip_v_string(latest_tag.as_str());
    if !is_newer_version(current, latest.as_str()) {
        return UpdateDecision::AlreadyUpToDate(String::from_str(current));
    }
    if check_only {
        return UpdateDecision::CheckOnly { current: String::from_str(current), latest };
    }
    UpdateDecision::NeedUpdate { current: String::from_str(current), latest, latest_tag }
}

// ---------------------------------------------------------------------------
// Download plan
// ---------------------------------------------------------------------------

/// Where to fetch a release from.
#[derive(Debug)]
pub struct DownloadPlan {
    pub filename: String,
    pub tarball_url: String,
    pub checksum_url: String,
}

pub open spec fn release_base_url(tag: Seq<char>) -> Seq<char> {
    "https://github.com/yhzion/didyoumean/releases/download/"@ + tag
}

pub open spec fn archive_name(target: Seq<char>) -> Seq<char> {
    "didyoumean-"@ + target + ".tar.gz"@
}

/// The archive name, archive URL and checksum-list URL of a release.
pub fn build_download_plan(latest_tag: &str, target: &str) -> (p: DownloadPlan)
    ensures
        p.filename@ == archive_name(target@),
        p.tarball_url@ == release_base_url(latest_tag@) + "/"@ + archive_name(target@),
        p.checksum_url@ == release_base_url(latest_tag@) + "/SHA256SUMS"@,
{
    let base = text::join2("https://github.com/yhzion/didyoumean/releases/download/", latest_tag);
    let mut filename = String::from_str("didyoumean-");
    filename.append(target);
    filename.append(".tar.gz");
    let mut tarball_url = base.clone();
    tarball_url.append("/");
    tarball_url.append(filename.as_str());
    let mut checksum_url = base;
    checksum_url.append("/SHA256SUMS");
    DownloadPlan { filename, tarball_url, checksum_url }
}

// ---------------------------------------------------------------------------
// Checksum verification
// ---------------------------------------------------------------------------

/// Accepts `actual_hash` exactly when the checksum list gives it for
/// `filename`; otherwise the error says which check failed.
pub open spec fn checksum_verdict(checksums: Seq<char>, filename: Seq<char>, actual_hash: Seq<char>) -> Result<
    (),
    Seq<char>,
> {
    match checksum_of(checksums, filename) {
        None => Err("checksum not found for "@ + filename),
        Some(expected) => if expected == actual_hash {
            Ok(())
        } else {
            Err("checksum mismatch\n  Expected: "@ + expected + "\n  Actual:   "@ + actual_hash)
        },
    }
}

/// The digest in a hashing tool's output (`sha256sum` or `shasum -a 256`
/// prints the hex digest, then the file name): its first word, `None` when
/// the output is blank.
pub fn checksum_from_tool_output(output: &str) -> (r: Option<String>)
    ensures
        match r {
            Some(h) => text::first_word(output@) == Some(h@),
            None => text::first_word(output@) is None,
        },
{
    let chars = text::chars_of(output);
    assert(chars@.subrange(0, chars@.len() as int) =~= output@);
    match text::first_word_bounds(&chars, 0, chars.len()) {
        Some((a, b)) => Some(text::string_of_range(output, a, b)),
        None => None,
    }
}

/// Checks a downloaded file's hash against the checksum list.
pub fn verify_checksum(checksums_content: &str, filename: &str, actual_hash: &str) -> (r: Result<(), String>)
    ensures
        match r {
            Ok(()) => checksum_verdict(checksums_content@, filename@, actual_hash@) == Ok::<
                (),
                Seq<char>,
            >(()),
            Err(e) => checksum_verdict(checksums_content@, filename@, actual_hash@) == Err::<
                (),
                Seq<char>,
            >(e@),
        },
{
    let expected = match parse_checksum_for_file(checksums_content, filename) {
        Some(e) => e,
        None => return Err(text::join2("checksum not found for ", filename)),
    };
    if !text::same_text(expected.as_str(), actual_hash) {
        let mut m = String::from_str("checksum mismatch\n  Expected: ");
        m.append(expected.as_str());
        m.append("\n  Actual:   ");
        m.append(actual_hash);
        return Err(m);
    }
    Ok(())
}


// ---------------------------------------------------------------------------
// Acting on the decision
// ---------------------------------------------------------------------------

/// What the update command does next: stop (printing lines, exiting with a
/// code, and recording a version in the cache), or download and install.
#[derive(Debug)]
pub enum UpdateAction {
    Exit { stderr_lines: Vec<String>, exit_code: i32, cache_value: Option<String> },
    DoUpdate { current: String, latest: String, latest_tag: String },
}

/// The mathematical value of an `UpdateAction`.
pub enum Action {
    Exit { stderr_lines: Seq<Seq<char>>, exit_code: i32, cache_value: Option<Seq<char>> },
    DoUpdate { current: Seq<char>, latest: Seq<char>, latest_tag: Seq<char> },
}

impl View for UpdateAction {
    type V = Action;

    open spec fn view(&self) -> Action {
        match self {
            UpdateAction::Exit { stderr_lines, exit_code, cache_value } => Action::Exit {
                stderr_lines: stderr_lines@.map_values(|l: String| l@),
                exit_code: *exit_code,
                cache_value: opt_string_view(*cache_value),
            },
            UpdateAction::DoUpdate { current, latest, latest_tag } => Action::DoUpdate {
                current: current@,
                latest: latest@,
                latest_tag: latest_tag@,
            },
        }
    }
}

pub open spec fn reinstall_hint() -> Seq<char> {
    "Reinstall: curl -sSfL https://raw.githubusercontent.com/yhzion/didyoumean/main/install.sh | bash"@
}

/// The action for each decision: errors exit with 1 and cache nothing; an
/// up-to-date or check-only answer exits with 0 and caches the version it
/// saw, with a leading `v`; a needed update goes on to install.
pub open spec fn action_for(d: Decision) -> Action {
    match d {
        Decision::FetchError(e) => Action::Exit {
            stderr_lines: seq!["Error: "@ + e, reinstall_hint()],
            exit_code: 1,
            cache_value: None,
        },
        Decision::ParseError => Action::Exit {
            stderr_lines: seq!["Error: could not parse latest version"@],
            exit_code: 1,
            cache_value: None,
        },
        Decision::AlreadyUpToDate(v) => Action::Exit {
            stderr_lines: seq!["Already up to date (v"@ + v + ")."@],
            exit_code: 0,
            cache_value: Some("v"@ + v),
        },
        Decision::CheckOnly { current, latest } => Action::Exit {
            stderr_lines: seq![
                "v"@ + latest + " available (current: v"@ + current + ")"@,
                "  Run 'didyoumean update' to install"@,
            ],
            exit_code: 0,
            cache_value: Some("v"@ + latest),
        },
        Decision::NeedUpdate { current, latest, latest_tag } => Action::DoUpdate {
            current,
            latest,
            latest_tag,
        },
    }
}

/// Turns an update decision into what the command prints and does.
pub fn format_update_decision(decision: UpdateDecision) -> (a: UpdateAction)
    ensures
        a@ == action_for(decision@),
{
    match decision {
        UpdateDecision::FetchError(e) => {
            let mut lines: Vec<String> = Vec::new();
            lines.push(text::join2("Error: ", e.as_str()));
            lines.push(
                String::from_str(
                    "Reinstall: curl -sSfL https://raw.githubusercontent.com/yhzion/didyoumean/main/install.sh | bash",
                ),
            );
            assert(lines@.map_values(|l: String| l@) =~= seq!["Error: "@ + e@, reinstall_hint()]);
            UpdateAction::Exit { stderr_lines: lines, exit_code: 1, cache_value: None }
        },
        UpdateDecision::ParseError => {
            let mut lines: Vec<String> = Vec::new();
            lines.push(String::from_str("Error: could not parse latest version"));
            assert(lines@.map_values(|l: String| l@) =~= seq![
                "Error: could not parse latest version"@,
            ]);
            UpdateAction::Exit { stderr_lines: lines, exit_code: 1, cache_value: None }
        },
        UpdateDecision::AlreadyUpToDate(v) => {
            let mut line = String::from_str("Already up to date (v");
            line.append(v.as_str());
            line.append(").");
            let mut lines: Vec<String> = Vec::new();
            lines.push(line);
            assert(lines@.map_values(|l: String| l@) =~= seq![
                "Already up to date (v"@ + v@ + ")."@,
            ]);
            UpdateAction::Exit {
                stderr_lines: lines,
                exit_code: 0,
                cache_value: Some(text::join2("v", v.as_str())),
            }
        },
        UpdateDecision::CheckOnly { current, latest } => {
            let mut first = String::from_str("v");
            first.append(latest.as_str());
            first.append(" available (current: v");
            first.append(current.as_str());
            first.append(")");
            let mut lines: Vec<String> = Vec::new();
            lines.push(first);
            lines.push(String::from_str("  Run 'didyoumean update' to install"));
            assert(lines@.map_values(|l: String| l@) =~= seq![
                "v"@ + latest@ + " available (current: v"@ + current@ + ")"@,
                "  Run 'didyoumean update' to install"@,
            ]);
            UpdateAction::Exit {
                stderr_lines: lines,
                exit_code: 0,
                cache_value: Some(text::join2("v", latest.as_str())),
            }
        },
        UpdateDecision::NeedUpdate { current, latest, latest_tag } => UpdateAction::DoUpdate {
            current,
            latest,
            latest_tag,
        },
    }
}

/// The background refresh: from what fetching the release record produced,
/// the exit code and the version to record in the cache (the tag as
/// published, when it can be read).
pub fn background_check(fetch_result: Result<&str, &str>) -> (r: (i32, Option<String>))
    ensures
        match fetch_view(fetch_result) {
            Err(_) => r.0 == 1 && r.1 is None,
            Ok(json) => match latest_version_of(json) {
                None => r.0 == 1 && r.1 is None,
                Some(tag) => r.0 == 0 && opt_string_view(r.1) == Some(tag),
            },
        },
{
    let json = match fetch_result {
        Ok(j) => j,
        Err(_) => return (1, None),
    };
    match parse_latest_version(json) {
        Some(version) => (0, Some(version)),
        None => (1, None),
    }
}


// ---------------------------------------------------------------------------
// Laws
// ---------------------------------------------------------------------------

/// "Newer than" is a strict order on version strings: never reflexive,
/// never both ways, and transitive.
pub proof fn lemma_newer_is_strict_order(a: Seq<char>, b: Seq<char>, c: Seq<char>)
    ensures
        !is_newer(a, a),
        is_newer(a, b) ==> !is_newer(b, a),
        is_newer(a, b) && is_newer(b, c) ==> is_newer(a, c),
{
}

/// The update command only ever moves to a strictly newer version, and it
/// exits successfully exactly when it found nothing to install or was only
/// asked to check; whatever it caches is the version it saw, with a `v`.
pub proof fn lemma_update_never_downgrades(
    current: Seq<char>,
    fetched: Result<Seq<char>, Seq<char>>,
    check_only: bool,
)
    ensures
        ({
            let d = decision_for(current, fetched, check_only);
            &&& d matches Decision::NeedUpdate { current: c, latest, latest_tag } ==> c == current
                && is_newer(current, latest) && latest == strip_v(latest_tag) && !check_only
            &&& d matches Decision::CheckOnly { current: c, latest } ==> c == current && is_newer(
                current,
                latest,
            ) && check_only
            &&& d is AlreadyUpToDate ==> fetched is Ok
            &&& d matches Decision::AlreadyUpToDate(v) ==> v == current
            &&& action_for(d) matches Action::Exit { exit_code, cache_value, .. } ==> {
                &&& (exit_code == 0) == (d is AlreadyUpToDate || d is CheckOnly)
                &&& (cache_value is Some) == (exit_code == 0)
            }
        }),
{
}

proof fn lemma_find_single(s: Seq<char>, c: char, m: int)
    requires
        0 <= m < s.len(),
        s[m] == c,
        forall|k: int| 0 <= k < m ==> s[k] != c,
    ensures
        text::find(s, seq![c]) == Some(m),
{
    assert(s.subrange(m, m + 1) =~= seq![c]);
    assert forall|k: int| 0 <= k < m implies !text::occurs_at(s, seq![c], k) by {
        assert(s.subrange(k, k + 1)[0] == s[k]);
    }
    text::lemma_find_from_found(s, seq![c], 0, m);
}

proof fn lemma_decimal_field(n: u32)
    ensures
        u32_of(text::decimal(n as nat)) == Some(n as nat),
        forall|i: int| 0 <= i < text::decimal(n as nat).len() ==> text::decimal(n as nat)[i] != '.',
        text::decimal(n as nat)[0] != 'v',
{
    let d = text::decimal(n as nat);
    text::lemma_decimal(n as nat);
    assert(text::is_digit(d[0]));
    assert(text::unsigned_digits(d) == d);
    assert forall|i: int| 0 <= i < d.len() implies d[i] != '.' by {
        assert(text::is_digit(d[i]));
    }
}

/// The text `major.minor.patch` of a version, each field in decimal.
pub open spec fn version_text(v: (u32, u32, u32)) -> Seq<char> {
    text::decimal(v.0 as nat) + seq!['.'] + text::decimal(v.1 as nat) + seq!['.'] + text::decimal(
        v.2 as nat,
    )
}

/// Versions compare field by field, major first: a higher major version is
/// newer whatever the rest; with equal majors a higher minor version is
/// newer whatever the patch levels; with equal majors and minors the higher
/// patch level is newer; and a version is never newer than itself.
pub proof fn lemma_newer_compares_fields_in_order(a: (u32, u32, u32), b: (u32, u32, u32))
    ensures
        ({
            let newer = is_newer(version_text(a), version_text(b));
            &&& a.0 < b.0 ==> newer
            &&& a.0 > b.0 ==> !newer
            &&& a.0 == b.0 && a.1 < b.1 ==> newer
            &&& a.0 == b.0 && a.1 > b.1 ==> !newer
            &&& a.0 == b.0 && a.1 == b.1 ==> (newer <==> a.2 < b.2)
            &&& is_newer(seq!['v'] + version_text(a), version_text(b)) == newer
            &&& is_newer(version_text(a), seq!['v'] + version_text(b)) == newer
            &&& !is_newer(version_text(a), Seq::<char>::empty())
            &&& !is_newer(Seq::<char>::empty(), version_text(b))
        }),
{
    text::lemma_find_from_absent(Seq::<char>::empty(), seq!['.'], 0);
    assert(text::split_on(Seq::<char>::empty(), '.').len() == 1);
    lemma_semver_roundtrip(a.0, a.1, a.2);
    lemma_semver_roundtrip(b.0, b.1, b.2);
}

/// A version written as `major.minor.patch` in decimal, with or without a
/// leading `v`, is read back as the same three numbers.
pub proof fn lemma_semver_roundtrip(major: u32, minor: u32, patch: u32)
    ensures
        ({
            let s = text::decimal(major as nat) + seq!['.'] + text::decimal(minor as nat) + seq!['.']
                + text::decimal(patch as nat);
            &&& semver_of(s) == Some((major, minor, patch))
            &&& semver_of(seq!['v'] + s) == Some((major, minor, patch))
        }),
{
    let da = text::decimal(major as nat);
    let db = text::decimal(minor as nat);
    let dc = text::decimal(patch as nat);
    lemma_decimal_field(major);
    lemma_decimal_field(minor);
    lemma_decimal_field(patch);
    let s = da + seq!['.'] + db + seq!['.'] + dc;
    assert(s[0] == da[0]);
    assert(strip_v(s) == s);
    assert((seq!['v'] + s).drop_first() =~= s);
    assert(strip_v(seq!['v'] + s) == s);
    assert forall|k: int| 0 <= k < da.len() implies s[k] != '.' by {
        assert(s[k] == da[k]);
    }
    lemma_find_single(s, '.', da.len() as int);
    let r1 = s.skip(da.len() + 1int);
    assert(r1 =~= db + seq!['.'] + dc);
    assert(s.take(da.len() as int) =~= da);
    assert forall|k: int| 0 <= k < db.len() implies r1[k] != '.' by {
        assert(r1[k] == db[k]);
    }
    lemma_find_single(r1, '.', db.len() as int);
    let r2 = r1.skip(db.len() + 1int);
    assert(r2 =~= dc);
    assert(r1.take(db.len() as int) =~= db);
    assert forall|k: int| 0 <= k && k + 1 <= dc.len() implies !text::occurs_at(dc, seq!['.'], k) by {
        assert(dc.subrange(k, k + 1)[0] == dc[k]);
    }
    text::lemma_find_from_absent(dc, seq!['.'], 0);
    assert(text::split_on(dc, '.') == seq![dc]);
    assert(text::split_on(r1, '.') == seq![db] + text::split_on(dc, '.'));
    assert(text::split_on(s, '.') == seq![da] + text::split_on(r1, '.'));
    assert(text::split_on(s, '.') =~= seq![da, db, dc]);
}

/// A release record `{"tag_name":"<tag>"}` is read back as `tag`, for any
/// tag without a double quote.
pub proof fn lemma_release_record_roundtrip(tag: Seq<char>)
    requires
        forall|i: int| 0 <= i < tag.len() ==> tag[i] != '"',
    ensures
        latest_version_of("{\"tag_name\":\""@ + tag + "\"}"@) == Some(tag),
{
    reveal_strlit("{\"tag_name\":\"");
    reveal_strlit("\"}");
    reveal_strlit("\"tag_name\"");
    let json = "{\"tag_name\":\""@ + tag + "\"}"@;
    let key = tag_key();
    assert(json.subrange(1, 11) =~= key);
    assert(!text::occurs_at(json, key, 0)) by {
        assert(json.subrange(0, 10)[0] != key[0]);
    }
    text::lemma_find_from_found(json, key, 0, 1);
    let rest = json.skip(11);
    assert(rest[0] == ':');
    lemma_find_single(rest, ':', 0);
    let after_colon = rest.skip(1);
    assert(after_colon[0] == '"');
    lemma_find_single(after_colon, '"', 0);
    let after_quote = after_colon.skip(1);
    assert(after_quote =~= tag + "\"}"@);
    assert(after_quote[tag.len() as int] == '"');
    lemma_find_single(after_quote, '"', tag.len() as int);
    assert(after_quote.take(tag.len() as int) =~= tag);
}

proof fn lemma_occurs_found(s: Seq<char>, pat: Seq<char>, i: int, m: int)
    requires
        0 <= i <= m,
        text::occurs_at(s, pat, m),
    ensures
        text::find_from(s, pat, i) is Some,
    decreases m - i,
{
    if i < m && !text::occurs_at(s, pat, i) {
        lemma_occurs_found(s, pat, i + 1, m);
    }
}

/// What `update` decides for a running version `current` when the latest
/// release record names the tag `v<latest>`: with `latest` later field by
/// field (major, then minor, then patch), an update to `latest` (or, when
/// only checking, a report of it); otherwise nothing to do, reported with
/// the running version. A failed fetch is reported with its error.
pub proof fn lemma_update_decision_by_versions(
    current: (u32, u32, u32),
    latest: (u32, u32, u32),
    check_only: bool,
    error: Seq<char>,
)
    ensures
        ({
            let cur = version_text(current);
            let tag = seq!['v'] + version_text(latest);
            let later = current.0 < latest.0 || (current.0 == latest.0 && (current.1 < latest.1 || (
            current.1 == latest.1 && current.2 < latest.2)));
            &&& decision_for(cur, Ok("{\"tag_name\":\""@ + tag + "\"}"@), check_only) == if !later {
                Decision::AlreadyUpToDate(cur)
            } else if check_only {
                Decision::CheckOnly { current: cur, latest: version_text(latest) }
            } else {
                Decision::NeedUpdate { current: cur, latest: version_text(latest), latest_tag: tag }
            }
            &&& decision_for(cur, Err(error), check_only) == Decision::FetchError(error)
        }),
{
    let t = version_text(latest);
    let tag = seq!['v'] + t;
    text::lemma_decimal(latest.0 as nat);
    text::lemma_decimal(latest.1 as nat);
    text::lemma_decimal(latest.2 as nat);
    let da = text::decimal(latest.0 as nat);
    let db = text::decimal(latest.1 as nat);
    let dc = text::decimal(latest.2 as nat);
    assert forall|i: int| 0 <= i < tag.len() implies tag[i] != '"' by {
        if i == 0 {
        } else if i <= da.len() {
            assert(tag[i] == da[i - 1]);
            assert(text::is_digit(da[i - 1]));
        } else if i == da.len() + 1 {
        } else if i <= da.len() + 1 + db.len() {
            assert(tag[i] == db[i - da.len() - 2]);
            assert(text::is_digit(db[i - da.len() - 2]));
        } else if i == da.len() + db.len() + 2 {
        } else {
            assert(tag[i] == dc[i - da.len() - db.len() - 3]);
            assert(text::is_digit(dc[i - da.len() - db.len() - 3]));
        }
    }
    lemma_release_record_roundtrip(tag);
    assert(tag.drop_first() =~= t);
    assert(strip_v(tag) == t);
    lemma_newer_compares_fields_in_order(current, latest);
}

/// A checksum list holding the line `<hash>  <filename>` accepts exactly
/// that hash for that file: what is written is read back. (The hash is a
/// word without whitespace; the file name has no line break and does not
/// end in a carriage return.)
pub proof fn lemma_checksum_roundtrip(hash: Seq<char>, filename: Seq<char>)
    requires
        hash.len() > 0,
        forall|i: int| 0 <= i < hash.len() ==> !text::is_white(hash[i]),
        forall|i: int| 0 <= i < filename.len() ==> filename[i] != '\n',
        filename.len() == 0 || filename.last() != '\r',
    ensures
        checksum_of(hash + "  "@ + filename + "\n"@, filename) == Some(hash),
        checksum_verdict(hash + "  "@ + filename + "\n"@, filename, hash) == Ok::<(), Seq<char>>(
            (),
        ),
{
    reveal_strlit("  ");
    reveal_strlit("\n");
    let line = hash + "  "@ + filename;
    let list = line + "\n"@;
    let n = line.len() as int;
    assert forall|k: int| 0 <= k < n implies list[k] != '\n' by {
        if k < hash.len() {
            assert(list[k] == hash[k]);
        } else if k >= hash.len() + 2 {
            assert(list[k] == filename[k - hash.len() - 2]);
        }
    }
    assert(list[n] == '\n');
    lemma_find_single(list, '\n', n);
    assert(list.take(n) =~= line);
    assert(list.skip(n + 1) =~= Seq::<char>::empty());
    assert(text::strip_cr(line) == line) by {
        if filename.len() == 0 {
            assert(line.last() == ' ');
        } else {
            assert(line.last() == filename.last());
        }
    }
    assert(text::lines(Seq::<char>::empty()) =~= Seq::<Seq<char>>::empty());
    assert(text::lines(list) == seq![text::strip_cr(list.take(n))] + text::lines(list.skip(n + 1)));
    assert(text::lines(list) =~= seq![line]);
    assert(line.subrange(hash.len() + 2int, n) =~= filename);
    lemma_occurs_found(line, filename, 0, hash.len() + 2int);
    assert(first_line_containing(text::lines(list), filename) == Some(line));
    let white = |c: char| text::is_white(c);
    let word = |c: char| text::not_white(c);
    assert(line[0] == hash[0]);
    text::lemma_prefix_len(line, white, 0);
    assert(line.skip(0) =~= line);
    assert forall|k: int| 0 <= k < hash.len() implies word(line[k]) by {
        assert(line[k] == hash[k]);
    }
    assert(line[hash.len() as int] == ' ');
    text::lemma_prefix_len(line, word, hash.len() as int);
    assert(line.take(hash.len() as int) =~= hash);
}

} // verus!
