use vstd::prelude::*;
use vstd::string::*;

verus! {

/// The zsh integration: a `command_not_found_handler` that pipes every known
/// command name into the corrector and runs the correction it prints.
pub const ZSH_SCRIPT: &'static str = "# >>> didyoumean initialize >>>
command_not_found_handler() {
    if [[ -n \"$__OOPS_RUNNING\" ]]; then
        echo \"zsh: command not found: $1\" >&2
        return 127
    fi
    export __OOPS_RUNNING=1

    local output exit_code
    output=$(print -l ${(ko)commands} | didyoumean \"$@\")
    exit_code=$?

    case $exit_code in
        0)
            \"$output\" \"${@:2}\"
            local ret=$?
            unset __OOPS_RUNNING
            return $ret
            ;;
        1|2)
            unset __OOPS_RUNNING
            return 127
            ;;
        *)
            unset __OOPS_RUNNING
            echo \"zsh: command not found: $1\" >&2
            return 127
            ;;
    esac
}
# <<< didyoumean initialize <<<";

/// The bash integration: a `command_not_found_handle` that pipes every known
/// command name into the corrector and runs the correction it prints.
pub const BASH_SCRIPT: &'static str = "# >>> didyoumean initialize >>>
command_not_found_handle() {
    if [[ -n \"$__OOPS_RUNNING\" ]]; then
        echo \"bash: $1: command not found\" >&2
        return 127
    fi
    export __OOPS_RUNNING=1

    local output exit_code
    output=$(compgen -c | sort -u | didyoumean \"$@\")
    exit_code=$?

    case $exit_code in
        0)
            \"$output\" \"${@:2}\"
            local ret=$?
            unset __OOPS_RUNNING
            return $ret
            ;;
        1|2)
            unset __OOPS_RUNNING
            return 127
            ;;
        *)
            unset __OOPS_RUNNING
            echo \"bash: $1: command not found\" >&2
            return 127
            ;;
    esac
}
# <<< didyoumean initialize <<<";

/// Returns the zsh integration script.
pub fn init_zsh() -> (script: String)
    ensures
        script@ == ZSH_SCRIPT@,
{
    String::from_str(ZSH_SCRIPT)
}

/// Returns the bash integration script.
pub fn init_bash() -> (script: String)
    ensures
        script@ == BASH_SCRIPT@,
{
    String::from_str(BASH_SCRIPT)
}

} // verus!
