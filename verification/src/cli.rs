use vstd::prelude::*;
use vstd::string::*;

use crate::suggest::{SuggestResult, Suggestion};
use crate::text;
use crate::shell;

verus! {

broadcast use vstd::string::group_string_axioms;

// ---------------------------------------------------------------------------
// Colour
// ---------------------------------------------------------------------------

/// Terminal colours used on standard error.
#[derive(Debug, Clone, Copy, PartialEq, Eq)]
pub enum Color {
    YellowBold,
    Green,
}

/// `text` wrapped in the ANSI escape codes of `color` when colour is enabled.
pub open spec fn colored(text: Seq<char>, color: Color, enabled: bool) -> Seq<char> {
    if !enabled {
        text
    } else {
        match color {
            Color::YellowBold => "\x1b[1;33m"@ + text + "\x1b[0m"@,
            Color::Green => "\x1b[32m"@ + text + "\x1b[0m"@,
        }
    }
}

/// Wraps `text` in the escape codes of `color`, when `enabled`.
pub fn colorize(text: &str, color: Color, enabled: bool) -> (r: String)
    ensures
        r@ == colored(text@, color, enabled),
{
    if !enabled {
        return String::from_str(text);
    }
    let mut r = match color {
        Color::YellowBold => String::from_str("\x1b[1;33m"),
        Color::Green => String::from_str("\x1b[32m"),
    };
    r.append(text);
    r.append("\x1b[0m");
    r
}

// ---------------------------------------------------------------------------
// Settings
// ---------------------------------------------------------------------------

/// `c` lower-cased (ASCII letters only) is `lower`.
pub open spec fn char_lowers_to(c: char, lower: char) -> bool {
    if 'A' <= c <= 'Z' {
        (c as u32) + 32 == (lower as u32)
    } else {
        c == lower
    }
}

/// `s` with its ASCII letters lower-cased is `lower`.
pub open spec fn lowers_to(s: Seq<char>, lower: Seq<char>) -> bool {
    s.len() == lower.len() && forall|i: int| 0 <= i < s.len() ==> char_lowers_to(s[i], lower[i])
}

/// Whether `s` lower-cased is `lower`.
pub(crate) fn lowercases_to(s: &str, lower: &str) -> (r: bool)
    ensures
        r == lowers_to(s@, lower@),
{
    let x = text::chars_of(s);
    let y = text::chars_of(lower);
    if x.len() != y.len() {
        return false;
    }
    let mut i: usize = 0;
    while i < x.len()
        invariant
            x@ == s@,
            y@ == lower@,
            x@.len() == y@.len(),
            i <= x@.len(),
            forall|k: int| 0 <= k < i ==> char_lowers_to(x@[k], y@[k]),
        decreases x@.len() - i,
    {
        let c = x[i];
        let d = y[i];
        let same = if 'A' <= c && c <= 'Z' {
            (c as u32) + 32 == (d as u32)
        } else {
            c == d
        };
        if !same {
            return false;
        }
        i += 1;
    }
    true
}

/// A numeric setting: the value read as a `usize` by `str::parse`, or the
/// default when it is unset or does not parse.
pub open spec fn usize_setting_of(value: Option<Seq<char>>, default: usize) -> usize {
    match value {
        Some(v) => match text::parse_unsigned(v, usize::MAX as nat) {
            Some(n) => n as usize,
            None => default,
        },
        None => default,
    }
}

/// Reads a numeric setting.
pub fn usize_setting(value: Option<&str>, default: usize) -> (r: usize)
    ensures
        r == usize_setting_of(crate::update::opt_str_view(value), default),
{
    match value {
        Some(v) => {
            let chars = text::chars_of(v);
            assert(chars@.subrange(0, chars@.len() as int) =~= v@);
            match text::parse_unsigned_in(&chars, 0, chars.len(), usize::MAX as u64) {
                Some(n) => n as usize,
                None => default,
            }
        },
        None => default,
    }
}

/// A numeric setting written in decimal is read as that number, for every
/// `usize`, with or without a leading `+`; a number too large for a `usize`,
/// an empty value or an unset variable gives the default.
pub proof fn lemma_setting_reads_every_usize(n: usize, big: nat, default: usize)
    requires
        big > usize::MAX,
    ensures
        usize_setting_of(Some(text::decimal(n as nat)), default) == n,
        usize_setting_of(Some(seq!['+'] + text::decimal(n as nat)), default) == n,
        usize_setting_of(Some(text::decimal(big)), default) == default,
        usize_setting_of(Some(seq!['0', '0'] + text::decimal(n as nat)), default) == n,
        usize_setting_of(Some(Seq::<char>::empty()), default) == default,
        usize_setting_of(Some(seq!['+']), default) == default,
        usize_setting_of(None, default) == default,
        forall|v: Seq<char>|
            (exists|i: int| 0 < i < v.len() && !('0' <= #[trigger] v[i] <= '9')) ==> usize_setting_of(
                Some(v),
                default,
            ) == default,
        forall|v: Seq<char>|
            v.len() > 0 && v[0] != '+' && !('0' <= v[0] <= '9') ==> usize_setting_of(Some(v), default)
                == default,
{
    text::lemma_decimal(n as nat);
    text::lemma_decimal(big);
    let d = text::decimal(n as nat);
    assert(text::is_digit(d[0]));
    assert(text::unsigned_digits(d) == d);
    assert((seq!['+'] + d).drop_first() =~= d);
    let e = text::decimal(big);
    assert(text::is_digit(e[0]));
    assert(text::unsigned_digits(e) == e);
    let z = seq!['0', '0'] + d;
    assert(text::all_digits(z)) by {
        assert forall|i: int| 0 <= i < z.len() implies text::is_digit(#[trigger] z[i]) by {
            if i >= 2 {
                assert(z[i] == d[i - 2]);
            }
        }
    }
    assert(text::unsigned_digits(z) == z);
    assert(z.drop_last() =~= seq!['0', '0'] + d.drop_last()) by {
        if d.len() == 0 {
        }
    }
    assert(text::digits_value(z) == text::digits_value(d)) by {
        lemma_leading_zeros(d);
    }
    assert forall|v: Seq<char>|
        (exists|i: int| 0 < i < v.len() && !('0' <= #[trigger] v[i] <= '9')) implies usize_setting_of(
        Some(v),
        default,
    ) == default by {
        let i = choose|i: int| 0 < i < v.len() && !('0' <= #[trigger] v[i] <= '9');
        let u = text::unsigned_digits(v);
        if v[0] == '+' {
            assert(u[i - 1] == v[i]);
        } else {
            assert(u[i] == v[i]);
        }
    }
    assert forall|v: Seq<char>|
        v.len() > 0 && v[0] != '+' && !('0' <= v[0] <= '9') implies usize_setting_of(Some(v), default)
        == default by {
        assert(text::unsigned_digits(v)[0] == v[0]);
    }
}

/// Leading zeros do not change the value of a string of digits.
proof fn lemma_leading_zeros(d: Seq<char>)
    ensures
        text::digits_value(seq!['0', '0'] + d) == text::digits_value(d),
    decreases d.len(),
{
    let z = seq!['0', '0'] + d;
    assert(text::digit_value('0') == 0);
    if d.len() == 0 {
        assert(z.drop_last() =~= seq!['0']);
        assert(seq!['0'].drop_last() =~= Seq::<char>::empty());
        assert(text::digits_value(seq!['0']) == text::digits_value(Seq::<char>::empty()) * 10
            + text::digit_value('0'));
        assert(text::digits_value(z) == text::digits_value(seq!['0']) * 10 + text::digit_value('0'));
    } else {
        assert(z.drop_last() =~= seq!['0', '0'] + d.drop_last());
        assert(z.last() == d.last());
        lemma_leading_zeros(d.drop_last());
        assert(text::digits_value(z) == text::digits_value(z.drop_last()) * 10 + text::digit_value(
            z.last(),
        ));
    }
}

/// Automatic correction is enabled by `on`, `1` or `true`, in any case.
/// (Lower-casing ASCII letters only gives the same answer as
/// `str::to_lowercase` here: no other character lower-cases to one of these.)
pub open spec fn auto_correct_of(value: Option<Seq<char>>) -> bool {
    match value {
        Some(v) => lowers_to(v, "on"@) || lowers_to(v, "1"@) || lowers_to(v, "true"@),
        None => false,
    }
}

/// How the corrector behaves, from its environment.
#[derive(Debug, Clone, Copy, PartialEq, Eq)]
pub struct SuggestConfig {
    pub max_distance: usize,
    pub max_suggestions: usize,
    pub auto_correct_enabled: bool,
    pub is_root: bool,
    pub is_korean: bool,
    pub use_color: bool,
}

/// Reads the settings from the values of `DYM_MAX_DISTANCE` (default 2),
/// `DYM_MAX_SUGGESTIONS` (default 5), `DYM_AUTO_CORRECT`, `EUID` (`0` is
/// root) and `LANG` (Korean when it starts with `ko`); colour is used when
/// `NO_COLOR` is unset and standard error is a terminal.
pub fn suggest_config(
    max_distance: Option<&str>,
    max_suggestions: Option<&str>,
    auto_correct: Option<&str>,
    euid: Option<&str>,
    lang: Option<&str>,
    no_color_set: bool,
    stderr_is_terminal: bool,
) -> (c: SuggestConfig)
    ensures
        c.max_distance == usize_setting_of(crate::update::opt_str_view(max_distance), 2),
        c.max_suggestions == usize_setting_of(crate::update::opt_str_view(max_suggestions), 5),
        c.auto_correct_enabled == auto_correct_of(crate::update::opt_str_view(auto_correct)),
        c.is_root == (euid matches Some(e) && e@ == "0"@),
        c.is_korean == (lang matches Some(l) && l@.len() >= 2 && l@.take(2) == "ko"@),
        c.use_color == (!no_color_set && stderr_is_terminal),
{
    let auto_correct_enabled = match auto_correct {
        Some(v) => lowercases_to(v, "on") || lowercases_to(v, "1") || lowercases_to(v, "true"),
        None => false,
    };
    let is_root = match euid {
        Some(e) => text::same_text(e, "0"),
        None => false,
    };
    let is_korean = match lang {
        Some(l) => {
            let chars = text::chars_of(l);
            let prefix = text::chars_of("ko");
            proof {
                reveal_strlit("ko");
            }
            if chars.len() >= 2 && chars[0] == prefix[0] && chars[1] == prefix[1] {
                assert(l@.take(2) =~= "ko"@);
                true
            } else {
                assert(chars.len() >= 2 ==> l@.take(2)[0] != "ko"@[0] || l@.take(2)[1] != "ko"@[1]);
                false
            }
        },
        None => false,
    };
    SuggestConfig {
        max_distance: usize_setting(max_distance, 2),
        max_suggestions: usize_setting(max_suggestions, 5),
        auto_correct_enabled,
        is_root,
        is_korean,
        use_color: !no_color_set && stderr_is_terminal,
    }
}


// ---------------------------------------------------------------------------
// What a command prints
// ---------------------------------------------------------------------------

/// The text a command writes to standard output and standard error, and
/// its exit code.
#[derive(Debug)]
pub struct CommandOutput {
    pub stdout: String,
    pub stderr: String,
    pub exit_code: i32,
}

pub open spec fn output_view(o: CommandOutput) -> (Seq<char>, Seq<char>, i32) {
    (o.stdout@, o.stderr@, o.exit_code)
}

/// `parts` joined with `sep` between consecutive parts.
pub open spec fn join_with(parts: Seq<Seq<char>>, sep: Seq<char>) -> Seq<char>
    decreases parts.len(),
{
    if parts.len() == 0 {
        seq![]
    } else if parts.len() == 1 {
        parts[0]
    } else {
        join_with(parts.drop_last(), sep) + sep + parts.last()
    }
}

/// The extra arguments as shown after a command: nothing, or a space and
/// the arguments separated by spaces.
pub open spec fn args_suffix(args: Seq<Seq<char>>) -> Seq<char> {
    if args.len() == 0 {
        seq![]
    } else {
        " "@ + join_with(args, " "@)
    }
}

/// One indented, coloured line per name.
pub open spec fn listing(names: Seq<Seq<char>>, color: bool) -> Seq<char>
    decreases names.len(),
{
    if names.len() == 0 {
        seq![]
    } else {
        listing(names.drop_last(), color) + "  "@ + colored(names.last(), Color::Green, color)
            + "\n"@
    }
}

/// One line per name.
pub open spec fn name_lines(names: Seq<Seq<char>>) -> Seq<char>
    decreases names.len(),
{
    if names.len() == 0 {
        seq![]
    } else {
        name_lines(names.drop_last()) + names.last() + "\n"@
    }
}

/// The notice that offers `names` as what `cmd` may have meant.
pub open spec fn suggestion_notice(
    cmd: Seq<char>,
    names: Seq<Seq<char>>,
    korean: bool,
    color: bool,
) -> Seq<char> {
    if names.len() == 1 {
        if korean {
            "[dym] 혹시 '"@ + colored(names[0], Color::Green, color) + "'을(를) 찾으셨나요?\n"@
        } else {
            "[dym] Did you mean '"@ + colored(names[0], Color::Green, color) + "'?\n"@
        }
    } else {
        (if korean {
            "[dym] '"@ + cmd + "' 대신 이 명령어를 찾으셨나요?\n"@
        } else {
            "[dym] Did you mean one of these? ("@ + cmd + ")\n"@
        }) + listing(names, color)
    }
}

/// What the corrector prints and returns for `cmd` typed with `args`:
/// exit 0 with the correction on standard output when it is confident (or
/// automatic correction is on) and the user is not root; exit 1 with the
/// candidates on standard output otherwise; exit 2 when nothing is close.
pub open spec fn suggest_output(
    cmd: Seq<char>,
    args: Seq<Seq<char>>,
    s: Suggestion,
    cfg: SuggestConfig,
) -> (Seq<char>, Seq<char>, i32) {
    let suffix = args_suffix(args);
    match s {
        Suggestion::ConfidentCorrect(c) if !cfg.is_root => (
            c + "\n"@,
            "[dym] '"@ + cmd + suffix + "' → '"@ + colored(c, Color::YellowBold, cfg.use_color)
                + suffix + "'\n"@,
            0,
        ),
        Suggestion::AutoCorrect(c) if cfg.auto_correct_enabled && !cfg.is_root => (
            c + "\n"@,
            if cfg.is_korean {
                "[dym] 자동 수정: '"@ + cmd + suffix + "' → '"@ + colored(
                    c,
                    Color::YellowBold,
                    cfg.use_color,
                ) + suffix + "'\n"@
            } else {
                "[dym] Correcting '"@ + cmd + suffix + "' to '"@ + colored(
                    c,
                    Color::YellowBold,
                    cfg.use_color,
                ) + suffix + "'\n"@
            },
            0,
        ),
        Suggestion::ConfidentCorrect(c) => (
            c + "\n"@,
            suggestion_notice(cmd, seq![c], cfg.is_korean, cfg.use_color),
            1,
        ),
        Suggestion::AutoCorrect(c) => (
            c + "\n"@,
            suggestion_notice(cmd, seq![c], cfg.is_korean, cfg.use_color),
            1,
        ),
        Suggestion::Suggestions(v) => (
            name_lines(v),
            suggestion_notice(cmd, v, cfg.is_korean, cfg.use_color),
            1,
        ),
        Suggestion::NoMatch => (
            seq![],
            if cfg.is_korean {
                "[dym] '"@ + cmd + "': 유사한 명령어를 찾을 수 없습니다\n"@
            } else {
                "[dym] Command '"@ + cmd + "' not found, no similar commands\n"@
            },
            2,
        ),
    }
}

/// The exit-code protocol that the shell integration relies on: 0 (run
/// the correction) only for a correction that is confident, or automatic
/// when the user opted in, and never for root; 2 exactly when nothing is
/// close; 1 otherwise. Standard output always carries the offered names,
/// one per line, so on exit 0 it is the correction alone.
pub proof fn lemma_exit_code_protocol(
    cmd: Seq<char>,
    args: Seq<Seq<char>>,
    s: Suggestion,
    cfg: SuggestConfig,
)
    ensures
        ({
            let (out, _err, code) = suggest_output(cmd, args, s, cfg);
            &&& (code == 0) == (!cfg.is_root && (s is ConfidentCorrect || (s is AutoCorrect
                && cfg.auto_correct_enabled)))
            &&& (code == 2) == (s is NoMatch)
            &&& code == 0 || code == 1 || code == 2
            &&& cfg.is_root ==> code != 0
            &&& out == name_lines(crate::suggest::offered(s))
        }),
{
    match s {
        Suggestion::ConfidentCorrect(c) => {
            assert(seq![c].drop_last() =~= Seq::<Seq<char>>::empty());
            assert(name_lines(seq![c]) == name_lines(Seq::<Seq<char>>::empty()) + c + "\n"@);
            assert(name_lines(seq![c]) =~= c + "\n"@);
        },
        Suggestion::AutoCorrect(c) => {
            assert(seq![c].drop_last() =~= Seq::<Seq<char>>::empty());
            assert(name_lines(seq![c]) == name_lines(Seq::<Seq<char>>::empty()) + c + "\n"@);
            assert(name_lines(seq![c]) =~= c + "\n"@);
        },
        _ => {},
    }
}

fn args_suffix_text(args: &[String]) -> (r: String)
    ensures
        r@ == args_suffix(args@.map_values(|a: String| a@)),
{
    let ghost all = args@.map_values(|a: String| a@);
    let mut r = String::new();
    let mut i: usize = 0;
    while i < args.len()
        invariant
            all == args@.map_values(|a: String| a@),
            i <= args@.len(),
            r@ == args_suffix(all.take(i as int)),
        decreases args@.len() - i,
    {
        r.append(" ");
        r.append(args[i].as_str());
        proof {
            let t = all.take(i + 1);
            assert(t.drop_last() =~= all.take(i as int));
            if i > 0 {
                assert(join_with(t, " "@) == join_with(all.take(i as int), " "@) + " "@ + all[i as int]);
            } else {
                assert(join_with(t, " "@) == all[0]);
            }
        }
        i += 1;
    }
    assert(all.take(args@.len() as int) =~= all);
    r
}

fn suggestion_notice_text(cmd: &str, names: &[String], korean: bool, color: bool) -> (r: String)
    ensures
        r@ == suggestion_notice(cmd@, names@.map_values(|a: String| a@), korean, color),
{
    let ghost all = names@.map_values(|a: String| a@);
    if names.len() == 1 {
        let shown = colorize(names[0].as_str(), Color::Green, color);
        if korean {
            let mut r = String::from_str("[dym] 혹시 '");
            r.append(shown.as_str());
            r.append("'을(를) 찾으셨나요?\n");
            return r;
        } else {
            let mut r = String::from_str("[dym] Did you mean '");
            r.append(shown.as_str());
            r.append("'?\n");
            return r;
        }
    }
    let mut r = if korean {
        let mut h = String::from_str("[dym] '");
        h.append(cmd);
        h.append("' 대신 이 명령어를 찾으셨나요?\n");
        h
    } else {
        let mut h = String::from_str("[dym] Did you mean one of these? (");
        h.append(cmd);
        h.append(")\n");
        h
    };
    let ghost head = r@;
    let mut i: usize = 0;
    while i < names.len()
        invariant
            all == names@.map_values(|a: String| a@),
            i <= names@.len(),
            r@ == head + listing(all.take(i as int), color),
        decreases names@.len() - i,
    {
        r.append("  ");
        let shown = colorize(names[i].as_str(), Color::Green, color);
        r.append(shown.as_str());
        r.append("\n");
        proof {
            assert(all.take(i + 1).drop_last() =~= all.take(i as int));
        }
        i += 1;
    }
    assert(all.take(names@.len() as int) =~= all);
    r
}

fn name_lines_text(names: &[String]) -> (r: String)
    ensures
        r@ == name_lines(names@.map_values(|a: String| a@)),
{
    let ghost all = names@.map_values(|a: String| a@);
    let mut r = String::new();
    let mut i: usize = 0;
    while i < names.len()
        invariant
            all == names@.map_values(|a: String| a@),
            i <= names@.len(),
            r@ == name_lines(all.take(i as int)),
        decreases names@.len() - i,
    {
        r.append(names[i].as_str());
        r.append("\n");
        proof {
            assert(all.take(i + 1).drop_last() =~= all.take(i as int));
        }
        i += 1;
    }
    assert(all.take(names@.len() as int) =~= all);
    r
}

/// What the corrector prints and returns for `cmd` typed with `extra_args`,
/// given the suggestion it found.
pub fn render_suggestion(
    cmd: &str,
    extra_args: &[String],
    result: &SuggestResult,
    config: &SuggestConfig,
) -> (o: CommandOutput)
    ensures
        output_view(o) == suggest_output(
            cmd@,
            extra_args@.map_values(|a: String| a@),
            result@,
            *config,
        ),
{
    let suffix = args_suffix_text(extra_args);
    match result {
        SuggestResult::ConfidentCorrect(c) if !config.is_root => {
            let mut err = String::from_str("[dym] '");
            err.append(cmd);
            err.append(suffix.as_str());
            err.append("' → '");
            err.append(colorize(c.as_str(), Color::YellowBold, config.use_color).as_str());
            err.append(suffix.as_str());
            err.append("'\n");
            CommandOutput { stdout: text::join2(c.as_str(), "\n"), stderr: err, exit_code: 0 }
        },
        SuggestResult::AutoCorrect(c) if config.auto_correct_enabled && !config.is_root => {
            let mut err = if config.is_korean {
                String::from_str("[dym] 자동 수정: '")
            } else {
                String::from_str("[dym] Correcting '")
            };
            err.append(cmd);
            err.append(suffix.as_str());
            if config.is_korean {
                err.append("' → '");
            } else {
                err.append("' to '");
            }
            err.append(colorize(c.as_str(), Color::YellowBold, config.use_color).as_str());
            err.append(suffix.as_str());
            err.append("'\n");
            CommandOutput { stdout: text::join2(c.as_str(), "\n"), stderr: err, exit_code: 0 }
        },
        SuggestResult::ConfidentCorrect(c) | SuggestResult::AutoCorrect(c) => {
            let mut one: Vec<String> = Vec::new();
            one.push(c.clone());
            assert(one@.map_values(|a: String| a@) =~= seq![c@]);
            CommandOutput {
                stdout: text::join2(c.as_str(), "\n"),
                stderr: suggestion_notice_text(cmd, one.as_slice(), config.is_korean, config.use_color),
                exit_code: 1,
            }
        },
        SuggestResult::Suggestions(v) => CommandOutput {
            stdout: name_lines_text(v.as_slice()),
            stderr: suggestion_notice_text(cmd, v.as_slice(), config.is_korean, config.use_color),
            exit_code: 1,
        },
        SuggestResult::NoMatch => {
            let err = if config.is_korean {
                let mut e = String::from_str("[dym] '");
                e.append(cmd);
                e.append("': 유사한 명령어를 찾을 수 없습니다\n");
                e
            } else {
                let mut e = String::from_str("[dym] Command '");
                e.append(cmd);
                e.append("' not found, no similar commands\n");
                e
            };
            CommandOutput { stdout: String::new(), stderr: err, exit_code: 2 }
        },
    }
}


// ---------------------------------------------------------------------------
// Shell integration command
// ---------------------------------------------------------------------------

/// What `didyoumean init <shell>` prints: the script for zsh or bash, or
/// an error for any other shell or a missing one.
pub open spec fn init_output(shell_arg: Option<Seq<char>>) -> (Seq<char>, Seq<char>, i32) {
    match shell_arg {
        Some(s) => if s == "zsh"@ {
            (shell::ZSH_SCRIPT@, seq![], 0)
        } else if s == "bash"@ {
            (shell::BASH_SCRIPT@, seq![], 0)
        } else {
            (seq![], "Error: unsupported shell '"@ + s + "'. Supported: zsh, bash\n"@, 1)
        },
        None => (
            seq![],
            "Error: specify shell type (zsh or bash)\nUsage: didyoumean init <zsh|bash>\n"@,
            1,
        ),
    }
}

/// Runs `didyoumean init` with its shell argument.
pub fn init_command(shell_arg: Option<&str>) -> (o: CommandOutput)
    ensures
        output_view(o) == init_output(crate::update::opt_str_view(shell_arg)),
{
    match shell_arg {
        Some(s) => {
            if text::same_text(s, "zsh") {
                CommandOutput { stdout: shell::init_zsh(), stderr: String::new(), exit_code: 0 }
            } else if text::same_text(s, "bash") {
                CommandOutput { stdout: shell::init_bash(), stderr: String::new(), exit_code: 0 }
            } else {
                let mut e = String::from_str("Error: unsupported shell '");
                e.append(s);
                e.append("'. Supported: zsh, bash\n");
                CommandOutput { stdout: String::new(), stderr: e, exit_code: 1 }
            }
        },
        None => CommandOutput {
            stdout: String::new(),
            stderr: String::from_str(
                "Error: specify shell type (zsh or bash)\nUsage: didyoumean init <zsh|bash>\n",
            ),
            exit_code: 1,
        },
    }
}

// ---------------------------------------------------------------------------
// Candidate lists
// ---------------------------------------------------------------------------

pub open spec fn views_of(v: Seq<String>) -> Seq<Seq<char>> {
    v.map_values(|s: String| s@)
}

/// Each name comes before the next, and none repeats.
pub open spec fn strictly_sorted(s: Seq<Seq<char>>) -> bool {
    forall|i: int, j: int|
        0 <= i < j < s.len() ==> text::text_le(#[trigger] s[i], #[trigger] s[j]) && s[i] != s[j]
}

proof fn lemma_insert_strictly_sorted(s: Seq<Seq<char>>, pos: int, x: Seq<char>)
    requires
        0 <= pos <= s.len(),
        strictly_sorted(s),
        forall|k: int| 0 <= k < pos ==> text::text_le(#[trigger] s[k], x) && s[k] != x,
        pos < s.len() ==> text::text_le(x, s[pos]) && s[pos] != x,
    ensures
        strictly_sorted(s.insert(pos, x)),
{
    let t = s.insert(pos, x);
    assert forall|i: int, j: int| 0 <= i < j < t.len() implies text::text_le(
        #[trigger] t[i],
        #[trigger] t[j],
    ) && t[i] != t[j] by {
        if j < pos {
            assert(t[i] == s[i] && t[j] == s[j]);
        } else if j == pos {
            assert(t[i] == s[i]);
        } else if i < pos {
            assert(t[i] == s[i] && t[j] == s[j - 1]);
            if pos < j - 1 {
                assert(text::text_le(s[pos], s[j - 1]));
                text::lemma_text_le_transitive(x, s[pos], s[j - 1]);
            }
            text::lemma_text_le_transitive(s[i], x, s[j - 1]);
            if s[i] == s[j - 1] {
                text::lemma_text_le_antisymmetric(s[i], x);
            }
        } else if i == pos {
            assert(t[j] == s[j - 1]);
            if pos < j - 1 {
                assert(text::text_le(s[pos], s[j - 1]));
                text::lemma_text_le_transitive(x, s[pos], s[j - 1]);
                if x == s[j - 1] {
                    text::lemma_text_le_antisymmetric(x, s[pos]);
                }
            }
        } else {
            assert(t[i] == s[i - 1] && t[j] == s[j - 1]);
        }
    }
}

/// A strictly sorted list is determined by the names it holds: two such
/// lists with the same names are the same list.
pub proof fn lemma_strictly_sorted_unique(a: Seq<Seq<char>>, b: Seq<Seq<char>>)
    requires
        strictly_sorted(a),
        strictly_sorted(b),
        a.to_set() == b.to_set(),
    ensures
        a == b,
    decreases a.len(),
{
    if a.len() == 0 || b.len() == 0 {
        if a.len() > 0 {
            assert(a.to_set().contains(a[0]));
            assert(b.contains(a[0]));
        }
        if b.len() > 0 {
            assert(b.to_set().contains(b[0]));
            assert(a.contains(b[0]));
        }
        assert(a =~= b);
    } else {
        assert(a.to_set().contains(a[0]));
        assert(b.contains(a[0]));
        let j = choose|j: int| 0 <= j < b.len() && b[j] == a[0];
        assert(b.to_set().contains(b[0]));
        assert(a.contains(b[0]));
        let i = choose|i: int| 0 <= i < a.len() && a[i] == b[0];
        if j > 0 && i > 0 {
            assert(text::text_le(b[0], b[j]));
            assert(text::text_le(a[0], a[i]));
            text::lemma_text_le_antisymmetric(a[0], b[0]);
        }
        assert(a[0] == b[0]);
        let a1 = a.drop_first();
        let b1 = b.drop_first();
        assert forall|x: Seq<char>| a1.contains(x) <==> b1.contains(x) by {
            if a1.contains(x) {
                let k = choose|k: int| 0 <= k < a1.len() && a1[k] == x;
                assert(a[k + 1] == x && a[0] != x);
                assert(a.to_set().contains(x));
                assert(b.contains(x));
                let m = choose|m: int| 0 <= m < b.len() && b[m] == x;
                assert(m != 0);
                assert(b1[m - 1] == x);
            }
            if b1.contains(x) {
                let k = choose|k: int| 0 <= k < b1.len() && b1[k] == x;
                assert(b[k + 1] == x && b[0] != x);
                assert(b.to_set().contains(x));
                assert(a.contains(x));
                let m = choose|m: int| 0 <= m < a.len() && a[m] == x;
                assert(m != 0);
                assert(a1[m - 1] == x);
            }
        }
        assert(a1.to_set() =~= b1.to_set());
        assert forall|p: int, q: int| 0 <= p < q < a1.len() implies text::text_le(
            #[trigger] a1[p],
            #[trigger] a1[q],
        ) && a1[p] != a1[q] by {
            assert(a1[p] == a[p + 1] && a1[q] == a[q + 1]);
        }
        assert forall|p: int, q: int| 0 <= p < q < b1.len() implies text::text_le(
            #[trigger] b1[p],
            #[trigger] b1[q],
        ) && b1[p] != b1[q] by {
            assert(b1[p] == b[p + 1] && b1[q] == b[q + 1]);
        }
        lemma_strictly_sorted_unique(a1, b1);
        assert(a =~= seq![a[0]] + a1);
        assert(b =~= seq![b[0]] + b1);
    }
}

/// The distinct names of `names`, in order.
pub fn sorted_unique(names: &[String]) -> (r: Vec<String>)
    ensures
        strictly_sorted(views_of(r@)),
        views_of(r@).to_set() == views_of(names@).to_set(),
{
    let ghost input = views_of(names@);
    let mut out: Vec<String> = Vec::new();
    let mut out_chars: Vec<Vec<char>> = Vec::new();
    for i in 0..names.len()
        invariant
            input == views_of(names@),
            out@.len() == out_chars@.len(),
            forall|k: int| 0 <= k < out@.len() ==> (#[trigger] out_chars@[k])@ == out@[k]@,
            strictly_sorted(views_of(out@)),
            views_of(out@).to_set() == input.take(i as int).to_set(),
    {
        let ghost before = views_of(out@);
        let c = text::chars_of(names[i].as_str());
        let mut pos: usize = 0;
        let mut dup = false;
        while pos < out.len() && !dup && text::text_le_exec(&out_chars[pos], &c)
            invariant
                out@.len() == out_chars@.len(),
                forall|k: int| 0 <= k < out@.len() ==> (#[trigger] out_chars@[k])@ == out@[k]@,
                before == views_of(out@),
                pos <= out@.len(),
                dup ==> pos < out@.len() && before[pos as int] == c@,
                forall|k: int| 0 <= k < pos ==> text::text_le(#[trigger] before[k], c@) && before[k] != c@,
            decreases out@.len() - pos + (if dup { 0int } else { 1int }),
        {
            if text::text_le_exec(&c, &out_chars[pos]) {
                proof {
                    text::lemma_text_le_antisymmetric(c@, before[pos as int]);
                }
                dup = true;
            } else {
                pos += 1;
            }
        }
        proof {
            assert(input.take(i + 1) =~= input.take(i as int).push(c@));
        }
        if dup {
            proof {
                assert(before[pos as int] == c@);
                assert(before.to_set().contains(c@));
                input.take(i as int).lemma_push_to_set_commute(c@);
                assert(input.take(i + 1).to_set() =~= input.take(i as int).to_set().insert(c@));
            }
        } else {
            proof {
                if pos < out@.len() {
                    text::lemma_text_le_total(before[pos as int], c@);
                    assert(!text::text_le(before[pos as int], c@));
                }
                lemma_insert_strictly_sorted(before, pos as int, c@);
            }
            let ghost old_out = out@;
            let ghost old_chars = out_chars@;
            out.insert(pos, names[i].clone());
            out_chars.insert(pos, c);
            proof {
                assert(views_of(out@) =~= before.insert(pos as int, c@));
                assert forall|k: int| 0 <= k < out@.len() implies (#[trigger] out_chars@[k])@ == out@[k]@ by {
                    if k < pos {
                        assert(out_chars@[k] == old_chars[k] && out@[k] == old_out[k]);
                    } else if k > pos {
                        assert(out_chars@[k] == old_chars[k - 1] && out@[k] == old_out[k - 1]);
                    }
                }
                let after = before.insert(pos as int, c@);
                assert forall|y: Seq<char>| after.contains(y) <==> before.contains(y) || y == c@ by {
                    if after.contains(y) {
                        let k = choose|k: int| 0 <= k < after.len() && after[k] == y;
                        if k < pos {
                            assert(before[k] == y);
                        } else if k > pos {
                            assert(before[k - 1] == y);
                        }
                    }
                    if before.contains(y) {
                        let k = choose|k: int| 0 <= k < before.len() && before[k] == y;
                        if k < pos {
                            assert(after[k] == y);
                        } else {
                            assert(after[k + 1] == y);
                        }
                    }
                    if y == c@ {
                        assert(after[pos as int] == y);
                    }
                }
                assert(after.to_set() =~= before.to_set().insert(c@));
                input.take(i as int).lemma_push_to_set_commute(c@);
            }
        }
    }
    proof {
        assert(input.take(names@.len() as int) =~= input);
    }
    out
}

/// The candidate names given one per line: each line trimmed, blank lines
/// dropped.
pub open spec fn candidate_names(lines: Seq<Seq<char>>) -> Seq<Seq<char>> {
    lines.map_values(|l: Seq<char>| text::trim(l)).filter(|t: Seq<char>| t.len() > 0)
}

/// The distinct candidate names read one per line, in order.
pub fn collect_candidates(lines: &[String]) -> (r: Vec<String>)
    ensures
        strictly_sorted(views_of(r@)),
        views_of(r@).to_set() == candidate_names(views_of(lines@)).to_set(),
{
    let ghost all = views_of(lines@);
    let mut names: Vec<String> = Vec::new();
    for i in 0..lines.len()
        invariant
            all == views_of(lines@),
            views_of(names@) == candidate_names(all.take(i as int)),
    {
        let line = lines[i].as_str();
        let chars = text::chars_of(line);
        assert(chars@.subrange(0, chars@.len() as int) =~= line@);
        let (a, b) = text::trim_bounds(&chars, 0, chars.len());
        let ghost before = views_of(names@);
        proof {
            let f = |l: Seq<char>| text::trim(l);
            assert(all.take(i + 1).map_values(f) =~= all.take(i as int).map_values(f).push(
                text::trim(line@),
            ));
            crate::suggest::lemma_filter_push(
                all.take(i as int).map_values(f),
                text::trim(line@),
                |t: Seq<char>| t.len() > 0,
            );
        }
        if a < b {
            names.push(text::string_of_range(line, a, b));
            proof {
                assert(views_of(names@) =~= before.push(text::trim(line@)));
            }
        }
    }
    proof {
        assert(all.take(lines@.len() as int) =~= all);
    }
    sorted_unique(names.as_slice())
}

/// The directories of a `PATH` value: the `:`-separated pieces that are not empty.
pub open spec fn path_dirs(path: Seq<char>) -> Seq<Seq<char>> {
    text::split_on(path, ':').filter(|d: Seq<char>| d.len() > 0)
}

/// Splits a `PATH` value into its directories.
pub fn path_entries(path: &str) -> (r: Vec<String>)
    ensures
        views_of(r@) == path_dirs(path@),
{
    let chars = text::chars_of(path);
    let len = chars.len();
    let ghost nonempty = |d: Seq<char>| d.len() > 0;
    let mut out: Vec<String> = Vec::new();
    let mut pos: usize = 0;
    assert(chars@.skip(0) =~= chars@);
    loop
        invariant
            chars@ == path@,
            len == chars@.len(),
            pos <= len,
            nonempty == (|d: Seq<char>| d.len() > 0),
            path_dirs(path@) == views_of(out@) + text::split_on(chars@.skip(pos as int), ':').filter(
                nonempty,
            ),
        decreases len - pos,
    {
        let ghost rest = chars@.skip(pos as int);
        let ghost before = views_of(out@);
        assert(rest =~= chars@.subrange(pos as int, len as int));
        match text::find_char_in(&chars, pos, len, ':') {
            Some(k) => {
                let ghost piece = rest.take(k - pos);
                assert(piece =~= path@.subrange(pos as int, k as int));
                assert(rest.skip(k - pos + 1) =~= chars@.skip(k + 1));
                proof {
                    let tail = text::split_on(chars@.skip(k + 1), ':');
                    assert(text::split_on(rest, ':') == seq![piece] + tail);
                    Seq::filter_distributes_over_add(seq![piece], tail, nonempty);
                    crate::suggest::lemma_filter_push(Seq::<Seq<char>>::empty(), piece, nonempty);
                    assert(seq![piece] =~= Seq::<Seq<char>>::empty().push(piece));
                    reveal(Seq::filter);
                }
                if k > pos {
                    out.push(text::string_of_range(path, pos, k));
                    proof {
                        assert(views_of(out@) =~= before.push(piece));
                        assert(views_of(out@) + text::split_on(chars@.skip(k + 1), ':').filter(
                            nonempty,
                        ) =~= before + (seq![piece] + text::split_on(chars@.skip(k + 1), ':').filter(
                            nonempty,
                        )));
                    }
                } else {
                    proof {
                        assert(before + text::split_on(chars@.skip(k + 1), ':').filter(nonempty)
                            =~= before + (Seq::<Seq<char>>::empty() + text::split_on(
                            chars@.skip(k + 1),
                            ':',
                        ).filter(nonempty)));
                    }
                }
                pos = k + 1;
            },
            None => {
                proof {
                    assert(text::split_on(rest, ':') == seq![rest]);
                    crate::suggest::lemma_filter_push(Seq::<Seq<char>>::empty(), rest, nonempty);
                    assert(seq![rest] =~= Seq::<Seq<char>>::empty().push(rest));
                    reveal(Seq::filter);
                }
                if len > pos {
                    out.push(text::string_of_range(path, pos, len));
                    proof {
                        assert(views_of(out@) =~= before + seq![rest]);
                    }
                } else {
                    proof {
                        assert(views_of(out@) =~= before + Seq::<Seq<char>>::empty());
                    }
                }
                return out;
            },
        }
    }
}


/// Whether a file mode grants execute permission to anyone.
pub open spec fn executable_mode(mode: u32) -> bool {
    mode & 0o111u32 != 0
}

/// Whether a Unix file mode has an execute bit set.
pub fn is_executable_mode(mode: u32) -> (r: bool)
    ensures
        r == executable_mode(mode),
{
    mode & 0o111u32 != 0
}

/// A directory entry found on `PATH`: its name, whether it is a regular
/// file, and its permission bits.
#[derive(Debug)]
pub struct PathEntry {
    pub name: String,
    pub is_file: bool,
    pub mode: u32,
}

/// An entry that can be run as a command: a regular file with an execute bit.
pub open spec fn runnable(e: PathEntry) -> bool {
    e.is_file && executable_mode(e.mode)
}

/// The names of the runnable entries among those listed from the `PATH`
/// directories, sorted and without repeats.
pub fn executable_names(entries: &[PathEntry]) -> (r: Vec<String>)
    ensures
        strictly_sorted(views_of(r@)),
        forall|s: Seq<char>|
            views_of(r@).contains(s) <==> exists|i: int|
                0 <= i < entries@.len() && runnable(entries@[i]) && #[trigger] entries@[i].name@ == s,
{
    let mut names: Vec<String> = Vec::new();
    for i in 0..entries.len()
        invariant
            forall|s: Seq<char>|
                views_of(names@).contains(s) <==> exists|j: int|
                    0 <= j < i && runnable(entries@[j]) && #[trigger] entries@[j].name@ == s,
    {
        let ghost before = views_of(names@);
        if entries[i].is_file && is_executable_mode(entries[i].mode) {
            names.push(String::from_str(entries[i].name.as_str()));
            proof {
                assert(views_of(names@) =~= before.push(entries@[i as int].name@));
                assert forall|s: Seq<char>|
                    (exists|j: int|
                        0 <= j < i + 1 && runnable(entries@[j]) && #[trigger] entries@[j].name@
                            == s) implies views_of(names@).contains(s) by {
                    let j = choose|j: int|
                        0 <= j < i + 1 && runnable(entries@[j]) && #[trigger] entries@[j].name@ == s;
                    if j < i {
                        assert(before.contains(s));
                        let k = choose|k: int| 0 <= k < before.len() && before[k] == s;
                        assert(views_of(names@)[k] == s);
                    } else {
                        assert(views_of(names@)[before.len() as int] == s);
                    }
                }
                assert forall|s: Seq<char>| views_of(names@).contains(s) implies exists|j: int|
                    0 <= j < i + 1 && runnable(entries@[j]) && #[trigger] entries@[j].name@ == s by {
                    let k = choose|k: int| 0 <= k < views_of(names@).len() && views_of(names@)[k] == s;
                    if k < before.len() {
                        assert(before[k] == s);
                        assert(before.contains(s));
                    } else {
                        assert(entries@[i as int].name@ == s);
                    }
                }
            }
        } else {
            proof {
                assert forall|s: Seq<char>|
                    views_of(names@).contains(s) <==> exists|j: int|
                        0 <= j < i + 1 && runnable(entries@[j]) && #[trigger] entries@[j].name@ == s by {
                    if exists|j: int|
                        0 <= j < i + 1 && runnable(entries@[j]) && #[trigger] entries@[j].name@ == s {
                        let j = choose|j: int|
                            0 <= j < i + 1 && runnable(entries@[j]) && #[trigger] entries@[j].name@ == s;
                        assert(j < i);
                    }
                }
            }
        }
    }
    let r = sorted_unique(names.as_slice());
    proof {
        assert forall|s: Seq<char>| views_of(r@).contains(s) <==> views_of(names@).contains(s) by {
            assert(views_of(r@).to_set().contains(s) == views_of(r@).contains(s));
            assert(views_of(names@).to_set().contains(s) == views_of(names@).contains(s));
        }
    }
    r
}

} // verus!
