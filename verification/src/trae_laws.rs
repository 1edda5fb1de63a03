//! What a payload of TRAE reports, said of its members.
use crate::error::GitAiError;
use crate::installer::path_joined;
use crate::json::JsonModel;
use crate::json_laws::{lemma_list_at, member_at, same_member};
use crate::lines::split_text;
use crate::text::{is_whitespace, starts_with, texts};
use crate::text_laws::{has_ink, law_searching, law_trimming, reads_at};
use crate::trae::{
    announced_file, class_of, patch_paths, payload_command, payload_paths, reports_events,
    ParsedHookEvent, PresetContext, ToolClass,
};
use vstd::prelude::*;

verus! {

/// The text at a key of a payload, if there is one.
pub open spec fn text_member(data: JsonModel, key: Seq<char>) -> Option<Seq<char>> {
    if let JsonModel::Str(text) = member_at(data, key) {
        Some(text)
    } else {
        None
    }
}

/// The session that a payload comes from.
pub open spec fn session_of(data: JsonModel) -> Seq<char> {
    if let Some(id) = text_member(data, "session_id"@) {
        id
    } else {
        "unknown"@
    }
}

/// The use of a tool that a payload comes from.
pub open spec fn tool_use_of(data: JsonModel) -> Seq<char> {
    if let Some(id) = text_member(data, "tool_use_id"@) {
        id
    } else {
        "bash"@
    }
}

/// The context of an event.
pub open spec fn context_of(event: ParsedHookEvent) -> PresetContext {
    match event {
        ParsedHookEvent::PreFileEdit(edit) => edit.context,
        ParsedHookEvent::PostFileEdit(edit) => edit.context,
        ParsedHookEvent::PreBashCall(call) => call.context,
        ParsedHookEvent::PostBashCall(call) => call.context,
    }
}

/// Whether a tool edits files.
pub open spec fn edits_files(name: Seq<char>) -> bool {
    name == "Write"@ || name == "Edit"@ || name == "ApplyPatch"@
}

/// Whether a tool runs a command.
pub open spec fn runs_command(name: Seq<char>) -> bool {
    name == "RunCommand"@ || name == "Bash"@
}

/// What is found as text at a key.
proof fn lemma_text_member(data: JsonModel, key: Seq<char>)
    ensures
        data.text_at(key) == text_member(data, key),
        data.get(key) is None ==> member_at(data, key) == JsonModel::Null,
        data.get(key) is Some ==> data.get(key) == Some(member_at(data, key)),
{
    lemma_list_at(data, key);
}

/// A tool edits files, or runs a command, or is of no interest.
pub proof fn law_tool_class(name: Seq<char>)
    ensures
        (class_of(name) == ToolClass::FileEdit) == edits_files(name),
        (class_of(name) == ToolClass::Bash) == runs_command(name),
        !(edits_files(name) && runs_command(name)),
{
    reveal_strlit("Write");
    reveal_strlit("Edit");
    reveal_strlit("ApplyPatch");
    reveal_strlit("RunCommand");
    reveal_strlit("Bash");
    assert("Write"@.len() == 5 && "Edit"@.len() == 4 && "ApplyPatch"@.len() == 10);
    assert("RunCommand"@.len() == 10 && "Bash"@.len() == 4);
    assert("Edit"@[0] == 'E' && "Bash"@[0] == 'B');
    assert("ApplyPatch"@[0] == 'A' && "RunCommand"@[0] == 'R');
}

/// Each event that a payload reports comes from the session that the payload
/// names, or else from the session `unknown`, under both of its names. It
/// happened in the directory that the payload names, and bears the trace id it
/// was given.
pub proof fn law_payload_context(
    parsed: Result<Vec<ParsedHookEvent>, GitAiError>,
    data: JsonModel,
    trace_id: Seq<char>,
)
    requires
        reports_events(parsed, data, trace_id),
    ensures
        parsed matches Ok(events) ==> forall|i: int|
            0 <= i < events@.len() ==> {
                let context = context_of(#[trigger] events@[i]);
                &&& context.agent_id.id@ == session_of(data)
                &&& context.external_session_id@ == session_of(data)
                &&& context.agent_id.id@ == context.external_session_id@
                &&& context.agent_id.tool@ == "trae"@
                &&& context.agent_id.model@ == "unknown"@
                &&& context.trace_id@ == trace_id
                &&& text_member(data, "cwd"@) == Some(context.cwd@)
                &&& context.metadata@.len() == 0
            },
{
    lemma_text_member(data, "cwd"@);
    lemma_text_member(data, "session_id"@);
}

/// Whether payloads have the same members as far as these matter.
pub open spec fn is_same_payload(a: JsonModel, b: JsonModel) -> bool {
    &&& same_member(a, b, "tool_name"@)
    &&& same_member(a, b, "cwd"@)
    &&& same_member(a, b, "session_id"@)
    &&& same_member(a, b, "hook_event_name"@)
    &&& same_member(a, b, "tool_use_id"@)
    &&& same_member(a, b, "tool_input"@)
}

/// The same at a key.
proof fn lemma_same_read(a: JsonModel, b: JsonModel, key: Seq<char>)
    requires
        same_member(a, b, key),
    ensures
        a.get(key) == b.get(key),
        a.text_at(key) == b.text_at(key),
{
    lemma_list_at(a, key);
    lemma_list_at(b, key);
}

/// Payloads that agree on the tool, its use and input, the directory, the
/// session and the hook event report the same, whatever else they hold.
pub proof fn law_other_members_do_not_matter(
    parsed: Result<Vec<ParsedHookEvent>, GitAiError>,
    a: JsonModel,
    b: JsonModel,
    trace_id: Seq<char>,
)
    requires
        is_same_payload(a, b),
        reports_events(parsed, a, trace_id),
    ensures
        reports_events(parsed, b, trace_id),
{
    lemma_same_read(a, b, "tool_name"@);
    lemma_same_read(a, b, "cwd"@);
    lemma_same_read(a, b, "session_id"@);
    lemma_same_read(a, b, "hook_event_name"@);
    lemma_same_read(a, b, "tool_use_id"@);
    lemma_same_read(a, b, "tool_input"@);
    assert(payload_command(a) == payload_command(b));
    assert(forall|cwd: Seq<char>| payload_paths(a, cwd) == payload_paths(b, cwd));
}

/// Whether a payload is of a tool that is of interest.
pub open spec fn has_known_tool(data: JsonModel) -> bool {
    text_member(data, "tool_name"@) matches Some(name) && (edits_files(name) || runs_command(name))
}

/// Whether a payload is of the hook event `name`.
pub open spec fn is_hook(data: JsonModel, name: Seq<char>) -> bool {
    text_member(data, "hook_event_name"@) == Some(name)
}

/// A payload reports nothing if its tool neither edits files nor runs a
/// command. If it does, the payload has to name a directory, and reports one
/// event before the tool is used and one after it, and nothing else.
pub proof fn law_payload_reports(
    parsed: Result<Vec<ParsedHookEvent>, GitAiError>,
    data: JsonModel,
    trace_id: Seq<char>,
)
    requires
        reports_events(parsed, data, trace_id),
    ensures
        (parsed is Err) == (has_known_tool(data) && text_member(data, "cwd"@) is None),
        parsed matches Err(error) ==> error matches GitAiError::PresetError(message) && message@
            == "cwd not found in hook_input"@,
        parsed matches Ok(events) ==> events@.len() == (if has_known_tool(data) && (is_hook(
            data,
            "PreToolUse"@,
        ) || is_hook(data, "PostToolUse"@)) {
            1nat
        } else {
            0nat
        }),
{
    lemma_text_member(data, "tool_name"@);
    lemma_text_member(data, "cwd"@);
    lemma_text_member(data, "hook_event_name"@);
    if let Some(name) = text_member(data, "tool_name"@) {
        law_tool_class(name);
    }
}

/// An event tells whether the tool is used now or was, and whether it edits
/// files or runs a command. It holds what the payload says of this.
pub proof fn law_payload_event(
    parsed: Result<Vec<ParsedHookEvent>, GitAiError>,
    data: JsonModel,
    trace_id: Seq<char>,
    name: Seq<char>,
    cwd: Seq<char>,
)
    requires
        reports_events(parsed, data, trace_id),
        text_member(data, "tool_name"@) == Some(name),
        text_member(data, "cwd"@) == Some(cwd),
    ensures
        parsed matches Ok(events) ==> forall|i: int|
            0 <= i < events@.len() ==> match #[trigger] events@[i] {
                ParsedHookEvent::PreFileEdit(edit) => {
                    &&& is_hook(data, "PreToolUse"@)
                    &&& edits_files(name)
                    &&& edit.tool_use_id matches Some(id) && id@ == tool_use_of(data)
                    &&& texts(edit.file_paths@) == payload_paths(data, cwd)
                    &&& edit.dirty_files is None
                },
                ParsedHookEvent::PostFileEdit(edit) => {
                    &&& is_hook(data, "PostToolUse"@)
                    &&& edits_files(name)
                    &&& edit.tool_use_id matches Some(id) && id@ == tool_use_of(data)
                    &&& texts(edit.file_paths@) == payload_paths(data, cwd)
                    &&& edit.dirty_files is None
                    &&& edit.stream_source is None
                },
                ParsedHookEvent::PreBashCall(call) => {
                    &&& is_hook(data, "PreToolUse"@)
                    &&& runs_command(name)
                    &&& call.tool_use_id@ == tool_use_of(data)
                    &&& match call.command {
                        Some(command) => payload_command(data) == Some(command@),
                        None => payload_command(data) is None,
                    }
                },
                ParsedHookEvent::PostBashCall(call) => {
                    &&& is_hook(data, "PostToolUse"@)
                    &&& runs_command(name)
                    &&& call.tool_use_id@ == tool_use_of(data)
                    &&& match call.command {
                        Some(command) => payload_command(data) == Some(command@),
                        None => payload_command(data) is None,
                    }
                    &&& call.stream_source is None
                },
            },
{
    lemma_text_member(data, "tool_name"@);
    lemma_text_member(data, "cwd"@);
    lemma_text_member(data, "hook_event_name"@);
    lemma_text_member(data, "tool_use_id"@);
    law_tool_class(name);
}

/// The command that is run is the text at `command` of the tool's input.
pub proof fn law_payload_command(data: JsonModel)
    ensures
        payload_command(data) == text_member(member_at(data, "tool_input"@), "command"@),
{
    lemma_text_member(data, "tool_input"@);
    lemma_text_member(member_at(data, "tool_input"@), "command"@);
}

/// The file that is edited is the one at `file_path` of the tool's input. If
/// there is none, they are those that the lines of its `patch` announce, and
/// none at all if there is no patch.
pub proof fn law_payload_paths(data: JsonModel, cwd: Seq<char>)
    ensures
        ({
            let input = member_at(data, "tool_input"@);
            let paths = payload_paths(data, cwd);
            match (text_member(input, "file_path"@), text_member(input, "patch"@)) {
                (Some(path), _) => paths == seq![path_joined(cwd, path)],
                (None, Some(patch)) => paths == patch_paths(split_text(patch), cwd),
                (None, None) => paths.len() == 0,
            }
        }),
{
    let input = member_at(data, "tool_input"@);
    lemma_text_member(data, "tool_input"@);
    lemma_text_member(input, "file_path"@);
    lemma_text_member(input, "patch"@);
}

/// The files that two pieces of a patch announce are those of the first piece
/// and then those of the second.
pub proof fn law_patch_in_pieces(a: Seq<Seq<char>>, b: Seq<Seq<char>>, cwd: Seq<char>)
    ensures
        patch_paths(a + b, cwd) == patch_paths(a, cwd) + patch_paths(b, cwd),
    decreases b.len(),
{
    if b.len() > 0 {
        law_patch_in_pieces(a, b.drop_last(), cwd);
        assert((a + b).drop_last() =~= a + b.drop_last());
        assert((a + b).last() == b.last());
    } else {
        assert(a + b =~= a);
    }
}

/// Whether a text announces a file, whose path follows it on a line.
pub open spec fn is_announcement(text: Seq<char>) -> bool {
    text == "*** Update File: "@ || text == "*** Add File: "@ || text == "*** Delete File: "@
}

/// A line of a patch that begins with an announcement gives one path, which
/// is what follows, without the whitespace around it, below the directory. Any
/// other line gives none.
pub proof fn law_patch_line(
    text: Seq<char>,
    a: Seq<char>,
    path: Seq<char>,
    b: Seq<char>,
    other: Seq<char>,
    cwd: Seq<char>,
)
    requires
        is_announcement(text),
        !has_ink(a),
        !has_ink(b),
        path.len() > 0 ==> !is_whitespace(path[0]) && !is_whitespace(path.last()),
        forall|start: Seq<char>| #[trigger] is_announcement(start) ==> !reads_at(other, 0, start),
    ensures
        patch_paths(seq![text + (a + path + b)], cwd) == seq![path_joined(cwd, path)],
        patch_paths(seq![other], cwd).len() == 0,
{
    let line = text + (a + path + b);
    law_trimming(a, path, b);
    reveal_strlit("*** Update File: ");
    reveal_strlit("*** Add File: ");
    reveal_strlit("*** Delete File: ");
    assert("*** Update File: "@[4] == 'U');
    assert("*** Add File: "@[4] == 'A');
    assert("*** Delete File: "@[4] == 'D');
    assert(line[4] == text[4]);
    assert(line.take(text.len() as int) =~= text);
    assert(line.skip(text.len() as int) =~= a + path + b);
    assert(!starts_with(line, "*** Update File: "@) || text == "*** Update File: "@) by {
        if starts_with(line, "*** Update File: "@) {
            assert(line.take("*** Update File: "@.len() as int)[4] == line[4]);
        }
    }
    assert(!starts_with(line, "*** Add File: "@) || text == "*** Add File: "@) by {
        if starts_with(line, "*** Add File: "@) {
            assert(line.take("*** Add File: "@.len() as int)[4] == line[4]);
        }
    }
    assert(starts_with(line, text));
    assert(announced_file(line) == Some(path));
    let lines = seq![line];
    assert(lines.drop_last() =~= Seq::empty());
    assert(lines.last() == line);
    assert(patch_paths(lines.drop_last(), cwd) == Seq::<Seq<char>>::empty());
    assert(patch_paths(lines, cwd) =~= seq![path_joined(cwd, path)]);
    law_searching(other, "*** Update File: "@);
    law_searching(other, "*** Add File: "@);
    law_searching(other, "*** Delete File: "@);
    assert(is_announcement("*** Update File: "@));
    assert(is_announcement("*** Add File: "@));
    assert(is_announcement("*** Delete File: "@));
    let others = seq![other];
    assert(others.drop_last() =~= Seq::empty());
    assert(others.last() == other);
    assert(patch_paths(others, cwd) == patch_paths(others.drop_last(), cwd));
}

} // verus!
