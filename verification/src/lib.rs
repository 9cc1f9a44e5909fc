//! Shell command typo correction: ranking of candidate commands by edit
//! distance, shell integration scripts, release-version bookkeeping,
//! installing and uninstalling, and the text that the command-line front end
//! prints.

pub mod shell;
pub mod text;
pub mod suggest;
pub mod update;
pub mod cli;
pub mod install;
pub mod uninstall;
