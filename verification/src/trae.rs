//! Hook payloads of TRAE: what a payload on standard input asks to be
//! recorded.
use crate::error::GitAiError;
use crate::installer::{join_path, path_joined};
use crate::json::{json_outcome, read_json, Json, JsonModel};
use crate::lines::{split_lines, split_text};
use crate::text::{same_text, starts_with, strip_prefix, texts, trim, trimmed};
use vstd::prelude::*;

verus! {

/// What a tool does that is of interest.
#[derive(Debug, Clone, Copy, PartialEq, Eq, Structural)]
pub enum ToolClass {
    /// It edits files.
    FileEdit,
    /// It runs a command.
    Bash,
    /// Nothing.
    Skip,
}

/// The agent that a payload comes from.
#[derive(Debug, PartialEq, Eq)]
pub struct AgentId {
    pub tool: String,
    pub id: String,
    pub model: String,
}

/// What all events of a payload share.
#[derive(Debug, PartialEq, Eq)]
pub struct PresetContext {
    pub agent_id: AgentId,
    pub external_session_id: String,
    pub trace_id: String,
    pub cwd: String,
    pub metadata: Vec<(String, String)>,
}

/// A tool is about to edit files.
#[derive(Debug, PartialEq, Eq)]
pub struct PreFileEdit {
    pub context: PresetContext,
    pub file_paths: Vec<String>,
    pub dirty_files: Option<Vec<(String, String)>>,
    pub tool_use_id: Option<String>,
}

/// A tool has edited files.
#[derive(Debug, PartialEq, Eq)]
pub struct PostFileEdit {
    pub context: PresetContext,
    pub file_paths: Vec<String>,
    pub dirty_files: Option<Vec<(String, String)>>,
    pub stream_source: Option<String>,
    pub tool_use_id: Option<String>,
}

/// A tool is about to run a command.
#[derive(Debug, PartialEq, Eq)]
pub struct PreBashCall {
    pub context: PresetContext,
    pub tool_use_id: String,
    pub command: Option<String>,
}

/// A tool has run a command.
#[derive(Debug, PartialEq, Eq)]
pub struct PostBashCall {
    pub context: PresetContext,
    pub tool_use_id: String,
    pub command: Option<String>,
    pub stream_source: Option<String>,
}

/// What a payload reports.
#[derive(Debug, PartialEq, Eq)]
pub enum ParsedHookEvent {
    PreFileEdit(PreFileEdit),
    PostFileEdit(PostFileEdit),
    PreBashCall(PreBashCall),
    PostBashCall(PostBashCall),
}

/// What the tool with a given name does.
pub open spec fn class_of(name: Seq<char>) -> ToolClass {
    if name == "Write"@ || name == "Edit"@ || name == "ApplyPatch"@ {
        ToolClass::FileEdit
    } else if name == "RunCommand"@ || name == "Bash"@ {
        ToolClass::Bash
    } else {
        ToolClass::Skip
    }
}

/// What the tool of a payload does.
pub open spec fn payload_class(data: JsonModel) -> ToolClass {
    match data.text_at("tool_name"@) {
        Some(name) => class_of(name),
        None => ToolClass::Skip,
    }
}

/// The text at a key of a payload, or a default if there is none.
pub open spec fn text_or(data: JsonModel, key: Seq<char>, default: Seq<char>) -> Seq<char> {
    match data.text_at(key) {
        Some(text) => text,
        None => default,
    }
}

/// The command that the tool of a payload runs, if one is given.
pub open spec fn payload_command(data: JsonModel) -> Option<Seq<char>> {
    match data.get("tool_input"@) {
        Some(input) => input.text_at("command"@),
        None => None,
    }
}

/// The file that a line of a patch announces, if it announces one.
pub open spec fn announced_file(line: Seq<char>) -> Option<Seq<char>> {
    if starts_with(line, "*** Update File: "@) {
        Some(trimmed(line.skip("*** Update File: "@.len() as int)))
    } else if starts_with(line, "*** Add File: "@) {
        Some(trimmed(line.skip("*** Add File: "@.len() as int)))
    } else if starts_with(line, "*** Delete File: "@) {
        Some(trimmed(line.skip("*** Delete File: "@.len() as int)))
    } else {
        None
    }
}

/// The files that the lines of a patch announce, in order, as paths below
/// `cwd`.
pub open spec fn patch_paths(lines: Seq<Seq<char>>, cwd: Seq<char>) -> Seq<Seq<char>>
    decreases lines.len(),
{
    if lines.len() == 0 {
        Seq::empty()
    } else {
        let before = patch_paths(lines.drop_last(), cwd);
        match announced_file(lines.last()) {
            Some(path) => before.push(path_joined(cwd, path)),
            None => before,
        }
    }
}

/// The files that the tool of a payload edits: the one at `file_path` of its
/// input, or else those that the patch at `patch` announces.
pub open spec fn payload_paths(data: JsonModel, cwd: Seq<char>) -> Seq<Seq<char>> {
    match data.get("tool_input"@) {
        Some(input) => match input.text_at("file_path"@) {
            Some(path) => seq![path_joined(cwd, path)],
            None => match input.text_at("patch"@) {
                Some(patch) => patch_paths(split_text(patch), cwd),
                None => Seq::empty(),
            },
        },
        None => Seq::empty(),
    }
}

/// Whether a context is that of a payload.
pub open spec fn is_context(
    context: PresetContext,
    data: JsonModel,
    cwd: Seq<char>,
    trace_id: Seq<char>,
) -> bool {
    &&& context.agent_id.tool@ == "trae"@
    &&& context.agent_id.id@ == text_or(data, "session_id"@, "unknown"@)
    &&& context.agent_id.model@ == "unknown"@
    &&& context.external_session_id@ == text_or(data, "session_id"@, "unknown"@)
    &&& context.trace_id@ == trace_id
    &&& context.cwd@ == cwd
    &&& context.metadata@.len() == 0
}

/// Whether an optional string holds an optional text.
pub open spec fn holds_text(string: Option<String>, text: Option<Seq<char>>) -> bool {
    match string {
        Some(string) => text == Some(string@),
        None => text is None,
    }
}

/// Whether an event is what a payload of a given class and phase reports.
pub open spec fn is_event(
    event: ParsedHookEvent,
    data: JsonModel,
    cwd: Seq<char>,
    trace_id: Seq<char>,
    bash: bool,
    before: bool,
) -> bool {
    let tool_use_id = text_or(data, "tool_use_id"@, "bash"@);
    match event {
        ParsedHookEvent::PreBashCall(call) => {
            &&& bash && before
            &&& is_context(call.context, data, cwd, trace_id)
            &&& call.tool_use_id@ == tool_use_id
            &&& holds_text(call.command, payload_command(data))
        },
        ParsedHookEvent::PreFileEdit(edit) => {
            &&& !bash && before
            &&& is_context(edit.context, data, cwd, trace_id)
            &&& texts(edit.file_paths@) == payload_paths(data, cwd)
            &&& edit.dirty_files is None
            &&& holds_text(edit.tool_use_id, Some(tool_use_id))
        },
        ParsedHookEvent::PostBashCall(call) => {
            &&& bash && !before
            &&& is_context(call.context, data, cwd, trace_id)
            &&& call.tool_use_id@ == tool_use_id
            &&& holds_text(call.command, payload_command(data))
            &&& call.stream_source is None
        },
        ParsedHookEvent::PostFileEdit(edit) => {
            &&& !bash && !before
            &&& is_context(edit.context, data, cwd, trace_id)
            &&& texts(edit.file_paths@) == payload_paths(data, cwd)
            &&& edit.dirty_files is None
            &&& edit.stream_source is None
            &&& holds_text(edit.tool_use_id, Some(tool_use_id))
        },
    }
}

/// Whether events are what a payload reports: one for a tool that edits files
/// or runs a command, before and after it does; none for other tools and
/// other hook events. A payload of such a tool has to name the directory that
/// the tool runs in.
pub open spec fn reports_events(
    parsed: Result<Vec<ParsedHookEvent>, GitAiError>,
    data: JsonModel,
    trace_id: Seq<char>,
) -> bool {
    let class = payload_class(data);
    let hook = data.text_at("hook_event_name"@);
    if class == ToolClass::Skip {
        parsed matches Ok(events) && events@.len() == 0
    } else {
        match data.text_at("cwd"@) {
            None => parsed matches Err(GitAiError::PresetError(message)) && message@
                == "cwd not found in hook_input"@,
            Some(cwd) => if hook == Some("PreToolUse"@) || hook == Some("PostToolUse"@) {
                parsed matches Ok(events) && events@.len() == 1 && is_event(
                    events@[0],
                    data,
                    cwd,
                    trace_id,
                    class == ToolClass::Bash,
                    hook == Some("PreToolUse"@),
                )
            } else {
                parsed matches Ok(events) && events@.len() == 0
            },
        }
    }
}

/// What the tool with a given name does.
pub fn classify_tool(name: &str) -> (class: ToolClass)
    ensures
        class == class_of(name@),
{
    if same_text(name, "Write") || same_text(name, "Edit") || same_text(name, "ApplyPatch") {
        ToolClass::FileEdit
    } else if same_text(name, "RunCommand") || same_text(name, "Bash") {
        ToolClass::Bash
    } else {
        ToolClass::Skip
    }
}

/// The text at a key of a payload, or a default if there is none.
fn str_or_default(data: &Json, key: &str, default: &str) -> (text: String)
    ensures
        text@ == text_or(data@, key@, default@),
{
    match data.str_at(key) {
        Some(text) => text.to_owned(),
        None => default.to_owned(),
    }
}

/// The command that the tool of a payload runs, if one is given.
pub fn bash_command_from_hook_input(data: &Json) -> (command: Option<String>)
    ensures
        holds_text(command, payload_command(data@)),
{
    match data.get("tool_input") {
        Some(input) => match input.str_at("command") {
            Some(command) => Some(command.to_owned()),
            None => None,
        },
        None => None,
    }
}

/// The file that a line of a patch announces, if it announces one.
fn file_announced(line: &str) -> (path: Option<&str>)
    ensures
        match path {
            Some(path) => announced_file(line@) == Some(path@),
            None => announced_file(line@) is None,
        },
{
    if let Some(path) = strip_prefix(line, "*** Update File: ") {
        Some(trim(path))
    } else if let Some(path) = strip_prefix(line, "*** Add File: ") {
        Some(trim(path))
    } else if let Some(path) = strip_prefix(line, "*** Delete File: ") {
        Some(trim(path))
    } else {
        None
    }
}

/// The files that a patch announces, in order, as paths below `cwd`.
fn paths_in_patch(patch: &str, cwd: &str) -> (paths: Vec<String>)
    ensures
        texts(paths@) == patch_paths(split_text(patch@), cwd@),
{
    let (lines, _) = split_lines(patch);
    let ghost all = texts(lines@);
    let mut paths: Vec<String> = Vec::new();
    let mut i: usize = 0;
    assert(texts(paths@) =~= Seq::empty());
    assert(all.take(0) =~= Seq::empty());
    while i < lines.len()
        invariant
            i <= lines@.len(),
            all == texts(lines@),
            texts(paths@) == patch_paths(all.take(i as int), cwd@),
        decreases lines@.len() - i,
    {
        proof {
            assert(all.take(i + 1).drop_last() =~= all.take(i as int));
            assert(all.take(i + 1).last() == lines@[i as int]@);
        }
        if let Some(path) = file_announced(&lines[i]) {
            let ghost before = texts(paths@);
            paths.push(join_path(cwd, path));
            assert(texts(paths@) =~= before.push(path_joined(cwd@, path@)));
        }
        i += 1;
    }
    assert(all.take(all.len() as int) =~= all);
    paths
}

/// The files that the tool of a payload edits.
pub fn file_paths_from_tool_input(data: &Json, cwd: &str) -> (paths: Vec<String>)
    ensures
        texts(paths@) == payload_paths(data@, cwd@),
{
    let none: Vec<String> = Vec::new();
    assert(texts(none@) =~= Seq::empty());
    match data.get("tool_input") {
        Some(input) => match input.str_at("file_path") {
            Some(path) => {
                let mut paths: Vec<String> = Vec::new();
                paths.push(join_path(cwd, path));
                assert(texts(paths@) =~= seq![path_joined(cwd@, path@)]);
                paths
            },
            None => match input.str_at("patch") {
                Some(patch) => paths_in_patch(patch, cwd),
                None => none,
            },
        },
        None => none,
    }
}

/// Preset for the TRAE (TraeCode) hook system.
///
/// TraeCode fires hook events with payloads of its own: stdin JSON carries
/// `session_id`, `cwd`, `hook_event_name`, `tool_use_id`, the standardized
/// `tool_name` (`Write`/`Edit` for file edits, `RunCommand` for terminal
/// commands), and `tool_input` with the file path or command. TRAE payloads do
/// not carry a transcript path or model name, so no stream source is attached
/// and the model stays "unknown".
pub struct TraePreset;

impl TraePreset {
    /// What a payload reports.
    pub fn parse(&self, hook_input: &str, trace_id: &str) -> (parsed: Result<
        Vec<ParsedHookEvent>,
        GitAiError,
    >)
        ensures
            match json_outcome(hook_input@) {
                Ok(data) => reports_events(parsed, data, trace_id@),
                Err(said) => parsed matches Err(GitAiError::PresetError(message)) && message@
                    == "Invalid JSON in hook_input: "@ + said,
            },
    {
        match read_json(hook_input) {
            Ok(data) => events_of_payload(&data, trace_id),
            Err(said) => {
                let mut message = "Invalid JSON in hook_input: ".to_owned();
                message.append(&said);
                Err(GitAiError::PresetError(message))
            },
        }
    }
}

/// What a payload reports, once it is read.
pub fn events_of_payload(data: &Json, trace_id: &str) -> (parsed: Result<
    Vec<ParsedHookEvent>,
    GitAiError,
>)
    ensures
        reports_events(parsed, data@, trace_id@),
{
    let class = match data.str_at("tool_name") {
        Some(name) => classify_tool(name),
        None => ToolClass::Skip,
    };
    if class == ToolClass::Skip {
        return Ok(Vec::new());
    }
    let cwd = match data.str_at("cwd") {
        Some(cwd) => cwd,
        None => return Err(
            GitAiError::PresetError("cwd not found in hook_input".to_owned()),
        ),
    };
    let session_id = str_or_default(data, "session_id", "unknown");
    let tool_use_id = str_or_default(data, "tool_use_id", "bash");
    let is_bash = class == ToolClass::Bash;
    let (is_pre, is_post) = match data.str_at("hook_event_name") {
        Some(hook) => (same_text(hook, "PreToolUse"), same_text(hook, "PostToolUse")),
        None => (false, false),
    };
    if !is_pre && !is_post {
        // Other TRAE hook events (SessionStart, UserPromptSubmit, Stop,
        // Notification) are not edit checkpoints.
        return Ok(Vec::new());
    }
    let context = PresetContext {
        agent_id: AgentId {
            tool: "trae".to_owned(),
            id: session_id.clone(),
            // TRAE hook payloads do not include the model name.
            model: "unknown".to_owned(),
        },
        external_session_id: session_id,
        trace_id: trace_id.to_owned(),
        cwd: cwd.to_owned(),
        metadata: Vec::new(),
    };
    let event = if is_bash {
        let command = bash_command_from_hook_input(data);
        if is_pre {
            ParsedHookEvent::PreBashCall(PreBashCall { context, tool_use_id, command })
        } else {
            ParsedHookEvent::PostBashCall(
                PostBashCall { context, tool_use_id, command, stream_source: None },
            )
        }
    } else {
        let file_paths = file_paths_from_tool_input(data, cwd);
        if is_pre {
            ParsedHookEvent::PreFileEdit(
                PreFileEdit {
                    context,
                    file_paths,
                    dirty_files: None,
                    tool_use_id: Some(tool_use_id),
                },
            )
        } else {
            ParsedHookEvent::PostFileEdit(
                PostFileEdit {
                    context,
                    file_paths,
                    dirty_files: None,
                    stream_source: None,
                    tool_use_id: Some(tool_use_id),
                },
            )
        }
    };
    let mut events: Vec<ParsedHookEvent> = Vec::new();
    events.push(event);
    Ok(events)
}

} // verus!
