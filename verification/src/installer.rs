//! What the hook installers of all agents share.
use crate::text::{contains, has_pattern};
use vstd::prelude::*;

verus! {

/// What is known of an agent's hooks on this machine.
#[derive(Debug, Clone, Copy, PartialEq, Eq, Structural)]
pub struct HookCheckResult {
    pub tool_installed: bool,
    pub hooks_installed: bool,
    pub hooks_up_to_date: bool,
}

/// A change of a configuration file: what it holds now, what it shall hold,
/// and whether it is to be written (a dry run only reports the change).
#[derive(Debug, PartialEq, Eq)]
pub struct ConfigEdit {
    pub before: String,
    pub after: String,
    pub write: bool,
}

/// Whether a command line names the git-ai program and its `checkpoint`
/// command.
pub open spec fn checkpoint_command(cmd: Seq<char>) -> bool {
    contains(cmd, "git-ai"@) && contains(cmd, "checkpoint"@)
}

/// Whether a command line runs a git-ai checkpoint.
pub fn is_git_ai_checkpoint_command(cmd: &str) -> (ours: bool)
    ensures
        ours == checkpoint_command(cmd@),
{
    has_pattern(cmd, "git-ai") && has_pattern(cmd, "checkpoint")
}

/// The text of a file, which is empty if the file is missing.
pub open spec fn file_text(existing: Option<&str>) -> Seq<char> {
    match existing {
        Some(text) => text@,
        None => Seq::empty(),
    }
}

/// The text of a file, which is empty if the file is missing.
pub fn text_or_empty(existing: Option<&str>) -> (text: String)
    ensures
        text@ == file_text(existing),
{
    match existing {
        Some(text) => text.to_owned(),
        None => String::new(),
    }
}

/// What one path becomes when another is appended to it: an absolute path
/// replaces it, any other is added after a `/`.
pub open spec fn path_joined(base: Seq<char>, part: Seq<char>) -> Seq<char> {
    if (part.len() > 0 && part[0] == '/') || base.len() == 0 {
        part
    } else if base.last() == '/' {
        base + part
    } else {
        base.push('/') + part
    }
}

/// Appends a path to another.
pub fn join_path(base: &str, part: &str) -> (path: String)
    ensures
        path@ == path_joined(base@, part@),
{
    let base_len = base.unicode_len();
    let absolute = part.unicode_len() > 0 && part.get_char(0) == '/';
    if absolute || base_len == 0 {
        part.to_owned()
    } else {
        let mut path = base.to_owned();
        if base.get_char(base_len - 1) != '/' {
            path.push('/');
        }
        path.append(part);
        path
    }
}

} // verus!
