use vstd::prelude::*;
use vstd::string::*;

use crate::cli::{self, views_of};
use crate::text;

verus! {

broadcast use vstd::string::group_string_axioms;

// ---------------------------------------------------------------------------
// The shell configuration block
// ---------------------------------------------------------------------------

/// The line that opens the block the installer adds to a shell's RC file.
pub const BLOCK_BEGIN: &'static str = "# >>> didyoumean initialize >>>";

/// The line that closes that block.
pub const BLOCK_END: &'static str = "# <<< didyoumean initialize <<<";

/// The first of `lines`, from index `from` on, that is `marker` once
/// surrounding whitespace is trimmed.
pub open spec fn first_marker(lines: Seq<Seq<char>>, marker: Seq<char>, from: int) -> Option<int>
    decreases lines.len() - from,
{
    if from < 0 || from >= lines.len() {
        None
    } else if text::trim(lines[from]) == marker {
        Some(from)
    } else {
        first_marker(lines, marker, from + 1)
    }
}

/// The RC file's text with its configuration block cut out: the lines from
/// the first opening marker through the first closing marker after it are
/// dropped and every other line is kept as it was; `None` when the text
/// holds no such block.
pub open spec fn without_init_block(rc: Seq<char>) -> Option<Seq<char>> {
    let lines = text::split_on(rc, '\n');
    match first_marker(lines, BLOCK_BEGIN@, 0) {
        None => None,
        Some(b) => match first_marker(lines, BLOCK_END@, b + 1) {
            None => None,
            Some(e) => Some(cli::join_with(lines.take(b) + lines.skip(e + 1), "\n"@)),
        },
    }
}

/// No line of `lines` holds a line break.
pub open spec fn single_lines(lines: Seq<Seq<char>>) -> bool {
    forall|i: int, k: int| 0 <= i < lines.len() && 0 <= k < lines[i].len() ==> lines[i][k] != '\n'
}

proof fn lemma_split_single(x: Seq<char>)
    requires
        forall|k: int| 0 <= k < x.len() ==> x[k] != '\n',
    ensures
        text::split_on(x, '\n') == seq![x],
{
    assert forall|k: int| 0 <= k && k + 1 <= x.len() implies !text::occurs_at(x, seq!['\n'], k) by {
        assert(x.subrange(k, k + 1)[0] == x[k]);
    }
    text::lemma_find_from_absent(x, seq!['\n'], 0);
}

proof fn lemma_split_cons(x: Seq<char>, y: Seq<char>)
    requires
        forall|k: int| 0 <= k < x.len() ==> x[k] != '\n',
    ensures
        text::split_on(x + seq!['\n'] + y, '\n') == seq![x] + text::split_on(y, '\n'),
{
    let s = x + seq!['\n'] + y;
    assert(s.subrange(x.len() as int, x.len() + 1int) =~= seq!['\n']);
    assert forall|k: int| 0 <= k < x.len() implies !text::occurs_at(s, seq!['\n'], k) by {
        assert(s.subrange(k, k + 1)[0] == x[k]);
    }
    text::lemma_find_from_found(s, seq!['\n'], 0, x.len() as int);
    text::lemma_find_from_result(s, seq!['\n'], 0);
    assert(s.take(x.len() as int) =~= x);
    assert(s.skip(x.len() + 1int) =~= y);
}

proof fn lemma_join_cons(x: Seq<char>, rest: Seq<Seq<char>>, sep: Seq<char>)
    requires
        rest.len() >= 1,
    ensures
        cli::join_with(seq![x] + rest, sep) == x + sep + cli::join_with(rest, sep),
    decreases rest.len(),
{
    let t = seq![x] + rest;
    assert(t.drop_last() =~= seq![x] + rest.drop_last());
    assert(t.last() == rest.last());
    if rest.len() == 1 {
        assert(seq![x] + rest.drop_last() =~= seq![x]);
        assert(cli::join_with(seq![x], sep) == x);
        assert(cli::join_with(t, sep) == cli::join_with(t.drop_last(), sep) + sep + t.last());
        assert(cli::join_with(rest, sep) == rest[0]);
    } else {
        lemma_join_cons(x, rest.drop_last(), sep);
        assert(x + sep + cli::join_with(rest.drop_last(), sep) + sep + rest.last() =~= x + sep + (
        cli::join_with(rest.drop_last(), sep) + sep + rest.last()));
    }
}

proof fn lemma_split_join(lines: Seq<Seq<char>>)
    requires
        lines.len() >= 1,
        single_lines(lines),
    ensures
        text::split_on(cli::join_with(lines, "\n"@), '\n') == lines,
    decreases lines.len(),
{
    reveal_strlit("\n");
    assert("\n"@ =~= seq!['\n']);
    if lines.len() == 1 {
        assert(forall|k: int| 0 <= k < lines[0].len() ==> lines[0][k] != '\n');
        lemma_split_single(lines[0]);
        assert(seq![lines[0]] =~= lines);
    } else {
        let rest = lines.skip(1);
        assert(lines =~= seq![lines[0]] + rest);
        assert(single_lines(rest)) by {
            assert forall|i: int, k: int| 0 <= i < rest.len() && 0 <= k < rest[i].len() implies rest[i][k]
                != '\n' by {
                assert(rest[i] == lines[i + 1]);
            }
        }
        lemma_join_cons(lines[0], rest, "\n"@);
        lemma_split_join(rest);
        assert(forall|k: int| 0 <= k < lines[0].len() ==> lines[0][k] != '\n');
        lemma_split_cons(lines[0], cli::join_with(rest, "\n"@));
    }
}

proof fn lemma_first_marker_at(lines: Seq<Seq<char>>, marker: Seq<char>, from: int, m: int)
    requires
        0 <= from <= m < lines.len(),
        text::trim(lines[m]) == marker,
        forall|k: int| from <= k < m ==> text::trim(lines[k]) != marker,
    ensures
        first_marker(lines, marker, from) == Some(m),
    decreases m - from,
{
    if from < m {
        lemma_first_marker_at(lines, marker, from + 1, m);
    }
}

/// A marker line is its own trimmed text.
proof fn lemma_marker_trimmed(marker: Seq<char>)
    requires
        marker.len() > 0,
        !text::is_white(marker[0]),
        !text::is_white(marker.last()),
    ensures
        text::trim(marker) == marker,
{
    text::lemma_prefix_len(marker, |c: char| text::is_white(c), 0);
    assert(marker.skip(0) =~= marker);
    text::lemma_suffix_len(marker, |c: char| text::is_white(c), marker.len() as int);
    assert(marker.take(marker.len() as int) =~= marker);
}

/// Removing the configuration block from an RC file made of the lines
/// `before`, the opening marker, the lines `inside`, the closing marker and
/// the lines `after` gives back exactly `before` followed by `after`,
/// provided that no line of `before` is an opening marker and no line of
/// `inside` a closing one.
pub proof fn lemma_block_removal(before: Seq<Seq<char>>, inside: Seq<Seq<char>>, after: Seq<Seq<char>>)
    requires
        single_lines(before),
        single_lines(inside),
        single_lines(after),
        forall|i: int| 0 <= i < before.len() ==> text::trim(#[trigger] before[i]) != BLOCK_BEGIN@,
        forall|i: int| 0 <= i < inside.len() ==> text::trim(#[trigger] inside[i]) != BLOCK_END@,
    ensures
        without_init_block(
            cli::join_with(before + seq![BLOCK_BEGIN@] + inside + seq![BLOCK_END@] + after, "\n"@),
        ) == Some(cli::join_with(before + after, "\n"@)),
{
    reveal_strlit("# >>> didyoumean initialize >>>");
    reveal_strlit("# <<< didyoumean initialize <<<");
    let lines = before + seq![BLOCK_BEGIN@] + inside + seq![BLOCK_END@] + after;
    let b = before.len() as int;
    let e = b + 1 + inside.len();
    assert forall|i: int, k: int| 0 <= i < lines.len() && 0 <= k < lines[i].len() implies lines[i][k]
        != '\n' by {
        if i < b {
            assert(lines[i] == before[i]);
        } else if i == b {
            assert(lines[i] == BLOCK_BEGIN@);
        } else if i < e {
            assert(lines[i] == inside[i - b - 1]);
        } else if i == e {
            assert(lines[i] == BLOCK_END@);
        } else {
            assert(lines[i] == after[i - e - 1]);
        }
    }
    lemma_split_join(lines);
    lemma_marker_trimmed(BLOCK_BEGIN@);
    lemma_marker_trimmed(BLOCK_END@);
    assert(lines[b] == BLOCK_BEGIN@);
    assert(lines[e] == BLOCK_END@);
    assert forall|k: int| 0 <= k < b implies text::trim(lines[k]) != BLOCK_BEGIN@ by {
        assert(lines[k] == before[k]);
    }
    lemma_first_marker_at(lines, BLOCK_BEGIN@, 0, b);
    assert forall|k: int| b + 1 <= k < e implies text::trim(lines[k]) != BLOCK_END@ by {
        assert(lines[k] == inside[k - b - 1]);
    }
    lemma_first_marker_at(lines, BLOCK_END@, b + 1, e);
    assert(lines.take(b) + lines.skip(e + 1) =~= before + after);
}

/// Splits `s` at each `c`.
fn split_text(s: &str, c: char) -> (r: Vec<String>)
    ensures
        views_of(r@) == text::split_on(s@, c),
{
    let chars = text::chars_of(s);
    let len = chars.len();
    let mut out: Vec<String> = Vec::new();
    let mut pos: usize = 0;
    assert(chars@.skip(0) =~= chars@);
    loop
        invariant
            chars@ == s@,
            len == chars@.len(),
            pos <= len,
            text::split_on(s@, c) == views_of(out@) + text::split_on(chars@.skip(pos as int), c),
        decreases len - pos,
    {
        let ghost rest = chars@.skip(pos as int);
        let ghost before = views_of(out@);
        assert(rest =~= chars@.subrange(pos as int, len as int));
        match text::find_char_in(&chars, pos, len, c) {
            Some(k) => {
                let ghost piece = rest.take(k - pos);
                assert(piece =~= s@.subrange(pos as int, k as int));
                assert(rest.skip(k - pos + 1) =~= chars@.skip(k + 1));
                out.push(text::string_of_range(s, pos, k));
                proof {
                    let tail = text::split_on(chars@.skip(k + 1), c);
                    assert(text::split_on(rest, c) == seq![piece] + tail);
                    assert(views_of(out@) =~= before.push(piece));
                    assert(views_of(out@) + tail =~= before + (seq![piece] + tail));
                }
                pos = k + 1;
            },
            None => {
                out.push(text::string_of_range(s, pos, len));
                proof {
                    assert(text::split_on(rest, c) == seq![rest]);
                    assert(views_of(out@) =~= before + seq![rest]);
                }
                return out;
            },
        }
    }
}

/// `parts` joined with `sep` between consecutive parts.
fn join_text(parts: &Vec<String>, sep: &str) -> (r: String)
    ensures
        r@ == cli::join_with(views_of(parts@), sep@),
{
    let ghost all = views_of(parts@);
    let mut r = String::new();
    let mut i: usize = 0;
    while i < parts.len()
        invariant
            all == views_of(parts@),
            i <= parts@.len(),
            r@ == cli::join_with(all.take(i as int), sep@),
        decreases parts@.len() - i,
    {
        if i > 0 {
            r.append(sep);
        }
        r.append(parts[i].as_str());
        proof {
            let t = all.take(i + 1);
            assert(t.drop_last() =~= all.take(i as int));
            if i > 0 {
                assert(cli::join_with(t, sep@) == cli::join_with(all.take(i as int), sep@) + sep@
                    + all[i as int]);
            } else {
                assert(cli::join_with(t, sep@) == all[0]);
            }
        }
        i += 1;
    }
    assert(all.take(parts@.len() as int) =~= all);
    r
}

/// Whether `line`, trimmed, is `marker`.
fn is_marker_line(line: &str, marker: &str) -> (r: bool)
    ensures
        r == (text::trim(line@) == marker@),
{
    let chars = text::chars_of(line);
    assert(chars@.subrange(0, chars@.len() as int) =~= line@);
    let (a, b) = text::trim_bounds(&chars, 0, chars.len());
    let trimmed = text::string_of_range(line, a, b);
    text::same_text(trimmed.as_str(), marker)
}

/// The index of the first of `lines`, from `from` on, that is `marker`.
fn find_marker(lines: &Vec<String>, marker: &str, from: usize) -> (r: Option<usize>)
    requires
        from <= lines@.len(),
    ensures
        match r {
            Some(k) => from <= k < lines@.len() && first_marker(views_of(lines@), marker@, from as int)
                == Some(k as int),
            None => first_marker(views_of(lines@), marker@, from as int) is None,
        },
{
    let ghost all = views_of(lines@);
    let mut i = from;
    while i < lines.len()
        invariant
            all == views_of(lines@),
            from <= i <= lines@.len(),
            first_marker(all, marker@, from as int) == first_marker(all, marker@, i as int),
        decreases lines@.len() - i,
    {
        if is_marker_line(lines[i].as_str(), marker) {
            return Some(i);
        }
        i += 1;
    }
    None
}

/// Cuts the configuration block out of an RC file's text; `None` when
/// there is no block to remove.
pub fn remove_init_block(rc: &str) -> (r: Option<String>)
    ensures
        match r {
            Some(t) => without_init_block(rc@) == Some(t@),
            None => without_init_block(rc@) is None,
        },
{
    let lines = split_text(rc, '\n');
    let ghost all = views_of(lines@);
    let b = match find_marker(&lines, BLOCK_BEGIN, 0) {
        Some(b) => b,
        None => return None,
    };
    assert(b < lines@.len() <= usize::MAX);
    let e = match find_marker(&lines, BLOCK_END, b + 1) {
        Some(e) => e,
        None => return None,
    };
    let mut kept: Vec<String> = Vec::new();
    let mut i: usize = 0;
    while i < lines.len()
        invariant
            all == views_of(lines@),
            b < e < lines@.len(),
            i <= lines@.len(),
            views_of(kept@) == if i <= b {
                all.take(i as int)
            } else if i <= e + 1 {
                all.take(b as int)
            } else {
                all.take(b as int) + all.subrange(e + 1, i as int)
            },
        decreases lines@.len() - i,
    {
        let ghost before = views_of(kept@);
        if i < b || i > e {
            kept.push(String::from_str(lines[i].as_str()));
            proof {
                assert(views_of(kept@) =~= before.push(all[i as int]));
                if i < b {
                    assert(all.take(i + 1) =~= all.take(i as int).push(all[i as int]));
                } else if i == e + 1 {
                    assert(all.subrange(e + 1, i + 1) =~= seq![all[i as int]]);
                    assert(views_of(kept@) =~= all.take(b as int) + all.subrange(e + 1, i + 1));
                } else {
                    assert(all.subrange(e + 1, i + 1) =~= all.subrange(e + 1, i as int).push(
                        all[i as int],
                    ));
                    assert(views_of(kept@) =~= all.take(b as int) + all.subrange(e + 1, i + 1));
                }
            }
        }
        i += 1;
    }
    proof {
        assert(all.subrange(e + 1, lines@.len() as int) =~= all.skip(e + 1));
        if e + 1 == lines@.len() {
            assert(all.skip(e + 1) =~= Seq::<Seq<char>>::empty());
            assert(all.take(b as int) + all.skip(e + 1) =~= all.take(b as int));
        }
    }
    let out = join_text(&kept, "\n");
    Some(out)
}


// ---------------------------------------------------------------------------
// Which RC file, and whether to go ahead
// ---------------------------------------------------------------------------

/// The last component of a path: what follows its last `/`.
pub open spec fn base_name(path: Seq<char>) -> Seq<char>
    decreases path.len(),
{
    if path.len() == 0 {
        path
    } else if path.last() == '/' {
        seq![]
    } else {
        base_name(path.drop_last()).push(path.last())
    }
}

/// The RC file of a login shell, by the shell's name: `.zshrc` for zsh,
/// `.bashrc` for bash, none for any other shell.
pub open spec fn rc_name_for(shell: Seq<char>) -> Option<Seq<char>> {
    if base_name(shell) == "zsh"@ {
        Some(".zshrc"@)
    } else if base_name(shell) == "bash"@ {
        Some(".bashrc"@)
    } else {
        None
    }
}

/// The RC file to clean, from the values of `HOME` and `SHELL`.
pub open spec fn rc_path_for(home: Option<Seq<char>>, shell: Option<Seq<char>>) -> Option<Seq<char>> {
    match (home, shell) {
        (Some(h), Some(s)) => match rc_name_for(s) {
            Some(name) => Some(crate::update::path_join(h, name)),
            None => None,
        },
        _ => None,
    }
}

fn base_name_of(path: &str) -> (r: String)
    ensures
        r@ == base_name(path@),
{
    let chars = text::chars_of(path);
    let len = chars.len();
    let mut i = len;
    assert(path@.take(len as int) =~= path@);
    assert(path@.subrange(len as int, len as int) =~= Seq::<char>::empty());
    while i > 0 && chars[i - 1] != '/'
        invariant
            chars@ == path@,
            len == chars@.len(),
            i <= len,
            base_name(path@) == base_name(path@.take(i as int)) + path@.subrange(i as int, len as int),
        decreases i,
    {
        proof {
            let t = path@.take(i as int);
            assert(t.drop_last() =~= path@.take(i - 1));
            assert(base_name(t) == base_name(path@.take(i - 1)).push(t.last()));
            assert(path@.subrange(i - 1, len as int) =~= seq![t.last()] + path@.subrange(
                i as int,
                len as int,
            ));
            assert(base_name(path@.take(i - 1)).push(t.last()) + path@.subrange(i as int, len as int)
                =~= base_name(path@.take(i - 1)) + path@.subrange(i - 1, len as int));
        }
        i -= 1;
    }
    proof {
        let t = path@.take(i as int);
        if i == 0 {
            assert(t =~= Seq::<char>::empty());
        } else {
            assert(t.last() == '/');
        }
        assert(base_name(t) =~= Seq::<char>::empty());
        assert(base_name(path@) =~= path@.subrange(i as int, len as int));
    }
    text::string_of_range(path, i, len)
}

/// The RC file that holds the configuration block, from the values of
/// `HOME` and `SHELL`; `None` when either is unset or the shell is neither
/// zsh nor bash.
pub fn rc_file_path(home: Option<&str>, shell: Option<&str>) -> (r: Option<String>)
    ensures
        match r {
            Some(p) => rc_path_for(
                crate::update::opt_str_view(home),
                crate::update::opt_str_view(shell),
            ) == Some(p@),
            None => rc_path_for(
                crate::update::opt_str_view(home),
                crate::update::opt_str_view(shell),
            ) is None,
        },
{
    let (h, s) = match (home, shell) {
        (Some(h), Some(s)) => (h, s),
        _ => return None,
    };
    let name = base_name_of(s);
    if text::same_text(name.as_str(), "zsh") {
        Some(crate::update::join_path(h, ".zshrc"))
    } else if text::same_text(name.as_str(), "bash") {
        Some(crate::update::join_path(h, ".bashrc"))
    } else {
        None
    }
}

/// Where the RC file is copied before it is rewritten.
pub fn backup_path(rc_path: &str) -> (r: String)
    ensures
        r@ == rc_path@ + ".dym.bak"@,
{
    text::join2(rc_path, ".dym.bak")
}

/// How uninstalling may go on: at once, or after the user confirms.
#[derive(Debug, Clone, Copy, PartialEq, Eq)]
pub enum Consent {
    Proceed,
    Ask,
}

/// Whether the arguments hold `--yes` or `-y`.
pub open spec fn has_yes_flag(args: Seq<Seq<char>>) -> bool {
    exists|i: int| 0 <= i < args.len() && (args[i] == "--yes"@ || args[i] == "-y"@)
}

/// What uninstalling needs before it starts: nothing with `--yes` or `-y`;
/// otherwise the user's answer when there is a terminal to ask on, and a
/// refusal that names `--yes` when there is not.
pub open spec fn consent_for(args: Seq<Seq<char>>, interactive: bool) -> Result<Consent, Seq<char>> {
    if has_yes_flag(args) {
        Ok(Consent::Proceed)
    } else if interactive {
        Ok(Consent::Ask)
    } else {
        Err("Error: refusing to uninstall without confirmation; pass --yes (or -y)"@)
    }
}

/// Decides, from the arguments after `uninstall` and whether standard
/// input is a terminal, whether uninstalling may go on.
pub fn uninstall_consent(args: &[String], interactive: bool) -> (r: Result<Consent, String>)
    ensures
        match r {
            Ok(c) => consent_for(views_of(args@), interactive) == Ok::<Consent, Seq<char>>(c),
            Err(m) => consent_for(views_of(args@), interactive) == Err::<Consent, Seq<char>>(m@),
        },
{
    let ghost all = views_of(args@);
    let mut i: usize = 0;
    while i < args.len()
        invariant
            all == views_of(args@),
            i <= args@.len(),
            forall|j: int| 0 <= j < i ==> !(all[j] == "--yes"@ || all[j] == "-y"@),
        decreases args@.len() - i,
    {
        if text::same_text(args[i].as_str(), "--yes") || text::same_text(args[i].as_str(), "-y") {
            assert(all[i as int] == args@[i as int]@);
            return Ok(Consent::Proceed);
        }
        i += 1;
    }
    if interactive {
        Ok(Consent::Ask)
    } else {
        Err(String::from_str("Error: refusing to uninstall without confirmation; pass --yes (or -y)"))
    }
}

/// Whether an answer to the confirmation prompt is yes: `y` or `yes` in
/// any case, around whitespace.
pub open spec fn is_yes(answer: Seq<char>) -> bool {
    cli::lowers_to(text::trim(answer), "y"@) || cli::lowers_to(text::trim(answer), "yes"@)
}

/// Reads the user's answer to the confirmation prompt.
pub fn confirms(answer: &str) -> (r: bool)
    ensures
        r == is_yes(answer@),
{
    let chars = text::chars_of(answer);
    assert(chars@.subrange(0, chars@.len() as int) =~= answer@);
    let (a, b) = text::trim_bounds(&chars, 0, chars.len());
    let t = text::string_of_range(answer, a, b);
    cli::lowercases_to(t.as_str(), "y") || cli::lowercases_to(t.as_str(), "yes")
}

/// What uninstalling reports of the RC file: the block removed (with the
/// backup's name), no block found, or no RC file known for the shell.
pub open spec fn cleanup_notice_for(rc_path: Option<Seq<char>>, removed: bool) -> Seq<char> {
    match rc_path {
        Some(p) => if removed {
            "[dym] Removed didyoumean block from "@ + p + " (backup: "@ + p + ".dym.bak)\n"@
        } else {
            "[dym] No didyoumean block in "@ + p + ", skipped\n"@
        },
        None => "[dym] Unknown shell, RC file cleanup skipped\n"@,
    }
}

/// The line that reports what became of the RC file.
pub fn cleanup_notice(rc_path: Option<&str>, removed: bool) -> (r: String)
    ensures
        r@ == cleanup_notice_for(crate::update::opt_str_view(rc_path), removed),
{
    match rc_path {
        Some(p) => if removed {
            let mut r = String::from_str("[dym] Removed didyoumean block from ");
            r.append(p);
            r.append(" (backup: ");
            r.append(p);
            r.append(".dym.bak)\n");
            r
        } else {
            let mut r = String::from_str("[dym] No didyoumean block in ");
            r.append(p);
            r.append(", skipped\n");
            r
        },
        None => String::from_str("[dym] Unknown shell, RC file cleanup skipped\n"),
    }
}

} // verus!
