//! Hook payloads of TRAE and of the TRAE CLI.
use agent_hooks::error::GitAiError;
use agent_hooks::trae::{
    bash_command_from_hook_input, classify_tool, events_of_payload, file_paths_from_tool_input,
    ParsedHookEvent, ToolClass, TraePreset,
};
use agent_hooks::json::{read_json, Json};
use serde_json::Value;

fn object(members: &[(&str, Value)]) -> Value {
    let mut map = serde_json::Map::new();
    for (key, value) in members {
        map.insert(key.to_string(), value.clone());
    }
    Value::Object(map)
}

fn text(s: &str) -> Value {
    Value::from(s)
}

fn make_trae_hook_input(event: &str, tool: &str) -> String {
    object(&[
        ("session_id", text("sess-1")),
        ("cwd", text("/home/user/project")),
        ("hook_event_name", text(event)),
        ("workspace_roots", Value::Array(vec![text("/home/user/project")])),
        ("tool_use_id", text("tu-1")),
        ("tool_name", text(tool)),
        ("llm_tool_name", text(tool)),
        ("tool_input", object(&[("file_path", text("src/main.rs"))])),
    ])
    .to_string()
}

fn parse(input: &str) -> Result<Vec<ParsedHookEvent>, GitAiError> {
    TraePreset.parse(input, "t_test123456789a")
}

#[test]
fn test_trae_pre_file_edit() {
    let input = make_trae_hook_input("PreToolUse", "Write");
    let events = parse(&input).unwrap();
    assert_eq!(events.len(), 1);
    match &events[0] {
        ParsedHookEvent::PreFileEdit(e) => {
            assert_eq!(e.context.agent_id.tool, "trae");
            assert_eq!(e.context.external_session_id, "sess-1");
            assert_eq!(e.context.agent_id.model, "unknown");
            assert_eq!(e.context.trace_id, "t_test123456789a");
            assert_eq!(e.context.cwd, "/home/user/project");
            assert_eq!(e.file_paths, vec!["/home/user/project/src/main.rs".to_string()]);
            assert_eq!(e.tool_use_id.as_deref(), Some("tu-1"));
        }
        _ => panic!("Expected PreFileEdit"),
    }
}

#[test]
fn test_trae_post_file_edit() {
    let input = make_trae_hook_input("PostToolUse", "Edit");
    let events = parse(&input).unwrap();
    assert_eq!(events.len(), 1);
    match &events[0] {
        ParsedHookEvent::PostFileEdit(e) => {
            assert_eq!(e.context.agent_id.tool, "trae");
            assert_eq!(e.context.external_session_id, "sess-1");
            assert_eq!(e.file_paths, vec!["/home/user/project/src/main.rs".to_string()]);
            assert!(e.stream_source.is_none());
            assert_eq!(e.tool_use_id.as_deref(), Some("tu-1"));
        }
        _ => panic!("Expected PostFileEdit"),
    }
}

#[test]
fn test_trae_pre_bash_call() {
    let input = object(&[
        ("session_id", text("sess-1")),
        ("cwd", text("/home/user/project")),
        ("hook_event_name", text("PreToolUse")),
        ("tool_use_id", text("tu-2")),
        ("tool_name", text("RunCommand")),
        ("tool_input", object(&[("command", text("cargo test"))])),
    ])
    .to_string();
    let events = parse(&input).unwrap();
    assert_eq!(events.len(), 1);
    match &events[0] {
        ParsedHookEvent::PreBashCall(e) => {
            assert_eq!(e.context.agent_id.tool, "trae");
            assert_eq!(e.tool_use_id, "tu-2");
            assert_eq!(e.command.as_deref(), Some("cargo test"));
        }
        _ => panic!("Expected PreBashCall"),
    }
}

#[test]
fn test_trae_post_bash_call() {
    let input = object(&[
        ("session_id", text("sess-1")),
        ("cwd", text("/home/user/project")),
        ("hook_event_name", text("PostToolUse")),
        ("tool_use_id", text("tu-2")),
        ("tool_name", text("RunCommand")),
        ("tool_input", object(&[("command", text("cargo test"))])),
        ("tool_response", object(&[("exit_code", Value::from(0))])),
    ])
    .to_string();
    let events = parse(&input).unwrap();
    assert_eq!(events.len(), 1);
    match &events[0] {
        ParsedHookEvent::PostBashCall(e) => {
            assert_eq!(e.context.agent_id.tool, "trae");
            assert_eq!(e.tool_use_id, "tu-2");
            assert_eq!(e.command.as_deref(), Some("cargo test"));
            assert!(e.stream_source.is_none());
        }
        _ => panic!("Expected PostBashCall"),
    }
}

#[test]
fn test_trae_ignores_read_only_and_unsupported_tools() {
    for hook_event in ["PreToolUse", "PostToolUse"] {
        for tool_name in [
            "Read",
            "Glob",
            "Grep",
            "LS",
            "WebSearch",
            "WebFetch",
            "AskUserQuestion",
            "Skill",
            "mcp__Git__git_status",
            "UnknownTool",
        ] {
            let input = object(&[
                ("hook_event_name", text(hook_event)),
                ("tool_name", text(tool_name)),
                ("session_id", text("sess-1")),
                ("cwd", text("/home/user/project")),
                ("tool_input", object(&[])),
            ])
            .to_string();

            let events = parse(&input).unwrap();
            assert!(
                events.is_empty(),
                "{hook_event} {tool_name} unexpectedly produced events"
            );
        }
    }
}

#[test]
fn test_trae_skips_non_tool_events() {
    for hook_event in ["SessionStart", "UserPromptSubmit", "Stop", "Notification"] {
        let input = object(&[
            ("hook_event_name", text(hook_event)),
            ("tool_name", text("Write")),
            ("session_id", text("sess-1")),
            ("cwd", text("/home/user/project")),
            ("tool_input", object(&[("file_path", text("src/main.rs"))])),
        ])
        .to_string();

        let events = parse(&input).unwrap();
        assert!(events.is_empty(), "{hook_event} unexpectedly produced events");
    }
}

#[test]
fn test_trae_defaults_session_id_and_tool_use_id() {
    let input = object(&[
        ("cwd", text("/home/user/project")),
        ("hook_event_name", text("PreToolUse")),
        ("tool_name", text("Write")),
        ("tool_input", object(&[("file_path", text("src/main.rs"))])),
    ])
    .to_string();
    let events = parse(&input).unwrap();
    match &events[0] {
        ParsedHookEvent::PreFileEdit(e) => {
            assert_eq!(e.context.external_session_id, "unknown");
            assert_eq!(e.tool_use_id.as_deref(), Some("bash"));
        }
        _ => panic!("Expected PreFileEdit"),
    }
}

#[test]
fn test_trae_missing_cwd_is_error() {
    let input = object(&[
        ("hook_event_name", text("PreToolUse")),
        ("tool_name", text("Write")),
        ("tool_input", object(&[("file_path", text("src/main.rs"))])),
    ])
    .to_string();
    assert!(parse(&input).is_err());
}

#[test]
fn test_trae_ignored_hook_produces_no_checkpoint_requests() {
    let input = object(&[
        ("hook_event_name", text("PostToolUse")),
        ("tool_name", text("Read")),
        ("session_id", text("sess-1")),
        ("cwd", text("/home/user/project")),
    ])
    .to_string();

    // A request is made for each event, so none is made where there is none.
    let events = parse(&input).unwrap();
    assert!(events.is_empty());
}

/// A TRAE (TraeCode) hook payload in the documented stdin format.
fn trae_hook_input(event: &str, tool: &str, tool_input: Value, repo_dir: &str) -> String {
    object(&[
        ("session_id", text("trae-session-1")),
        ("cwd", text(repo_dir)),
        ("hook_event_name", text(event)),
        ("workspace_roots", Value::Array(vec![text(repo_dir)])),
        ("tool_use_id", text("toolu_01ABC")),
        ("tool_name", text(tool)),
        ("llm_tool_name", text(tool)),
        ("tool_input", tool_input),
    ])
    .to_string()
}

fn parse_trae(hook_input: &str) -> Result<Vec<ParsedHookEvent>, GitAiError> {
    TraePreset.parse(hook_input, "t_test")
}

/// A TraeCLI (`trae-cli`) hook payload in the documented stdin format: the
/// shape of TraeCode's, with fields of its own, with `Bash` as the name of the
/// terminal tool and `ApplyPatch` for file edits.
fn trae_cli_hook_input(event: &str, tool: &str, tool_input: Value, repo_dir: &str) -> String {
    object(&[
        ("session_id", text("trae-cli-session-1")),
        ("agent_id", text("550e8400-e29b-41d4-a716-446655440000")),
        ("agent_type", text("Explore")),
        ("cwd", text(repo_dir)),
        ("permission_mode", text("default")),
        ("hook_event_name", text(event)),
        ("tool_use_id", text("toolu_cli_01ABC")),
        ("tool_name", text(tool)),
        ("tool_input", tool_input),
    ])
    .to_string()
}

#[test]
fn test_trae_pre_file_edit_parse() {
    let hook_input = trae_hook_input(
        "PreToolUse",
        "Write",
        object(&[("file_path", text("src/main.rs"))]),
        "/home/user/project",
    );
    let events = parse_trae(&hook_input).unwrap();
    assert_eq!(events.len(), 1);
    match &events[0] {
        ParsedHookEvent::PreFileEdit(e) => {
            assert_eq!(e.context.agent_id.tool, "trae");
            assert_eq!(e.context.external_session_id, "trae-session-1");
            assert_eq!(e.context.cwd, "/home/user/project");
            assert_eq!(e.file_paths, vec!["/home/user/project/src/main.rs".to_string()]);
            assert_eq!(e.tool_use_id.as_deref(), Some("toolu_01ABC"));
        }
        _ => panic!("Expected PreFileEdit"),
    }
}

#[test]
fn test_trae_post_file_edit_parse() {
    let hook_input = trae_hook_input(
        "PostToolUse",
        "Edit",
        object(&[("file_path", text("src/main.rs"))]),
        "/home/user/project",
    );
    let events = parse_trae(&hook_input).unwrap();
    assert_eq!(events.len(), 1);
    match &events[0] {
        ParsedHookEvent::PostFileEdit(e) => {
            assert_eq!(e.context.agent_id.tool, "trae");
            assert_eq!(e.file_paths, vec!["/home/user/project/src/main.rs".to_string()]);
            // TRAE payloads carry no transcript path, so no stream source.
            assert!(e.stream_source.is_none());
        }
        _ => panic!("Expected PostFileEdit"),
    }
}

#[test]
fn test_trae_run_command_parse() {
    for event in ["PreToolUse", "PostToolUse"] {
        let hook_input = trae_hook_input(
            event,
            "RunCommand",
            object(&[("command", text("cargo test"))]),
            "/home/user/project",
        );
        let events = parse_trae(&hook_input).unwrap();
        assert_eq!(events.len(), 1);
        let expected_variant = if event == "PreToolUse" {
            "PreBashCall"
        } else {
            "PostBashCall"
        };
        match &events[0] {
            ParsedHookEvent::PreBashCall(e) => {
                assert_eq!(expected_variant, "PreBashCall");
                assert_eq!(e.tool_use_id, "toolu_01ABC");
                assert_eq!(e.command.as_deref(), Some("cargo test"));
            }
            ParsedHookEvent::PostBashCall(e) => {
                assert_eq!(expected_variant, "PostBashCall");
                assert_eq!(e.tool_use_id, "toolu_01ABC");
                assert_eq!(e.command.as_deref(), Some("cargo test"));
            }
            _ => panic!("Expected a bash call event for {event}"),
        }
    }
}

#[test]
fn test_trae_ignores_unsupported_tools() {
    for tool in [
        "Read",
        "Glob",
        "Grep",
        "LS",
        "WebSearch",
        "Skill",
        "mcp__server__tool",
    ] {
        let hook_input = trae_hook_input(
            "PostToolUse",
            tool,
            object(&[("file_path", text("src/main.rs"))]),
            "/home/user/project",
        );
        assert!(
            parse_trae(&hook_input).unwrap().is_empty(),
            "{tool} unexpectedly produced events"
        );
    }
}

#[test]
fn trae_test_trae_skips_non_tool_events() {
    for event in ["SessionStart", "UserPromptSubmit", "Stop", "Notification"] {
        let hook_input = trae_hook_input(
            event,
            "Write",
            object(&[("file_path", text("src/main.rs"))]),
            "/home/user/project",
        );
        assert!(
            parse_trae(&hook_input).unwrap().is_empty(),
            "{event} unexpectedly produced events"
        );
    }
}

#[test]
fn test_trae_cli_bash_parse() {
    for event in ["PreToolUse", "PostToolUse"] {
        let hook_input = trae_cli_hook_input(
            event,
            "Bash",
            object(&[
                ("command", text("cargo test")),
                ("description", text("run tests")),
                ("timeout", Value::from(30000)),
            ]),
            "/home/user/project",
        );
        let events = parse_trae(&hook_input).unwrap();
        assert_eq!(events.len(), 1, "{event} should produce one event");
        let expected_variant = if event == "PreToolUse" {
            "PreBashCall"
        } else {
            "PostBashCall"
        };
        match &events[0] {
            ParsedHookEvent::PreBashCall(e) => {
                assert_eq!(expected_variant, "PreBashCall");
                assert_eq!(e.context.agent_id.tool, "trae");
                assert_eq!(e.tool_use_id, "toolu_cli_01ABC");
                assert_eq!(e.command.as_deref(), Some("cargo test"));
            }
            ParsedHookEvent::PostBashCall(e) => {
                assert_eq!(expected_variant, "PostBashCall");
                assert_eq!(e.context.agent_id.tool, "trae");
                assert_eq!(e.tool_use_id, "toolu_cli_01ABC");
                assert_eq!(e.command.as_deref(), Some("cargo test"));
            }
            _ => panic!("Expected a bash call event for {event}"),
        }
    }
}

#[test]
fn test_trae_cli_apply_patch_parse() {
    let patch = "*** Begin Patch\n*** Update File: src/main.rs\n@@\n-old\n+new\n*** Update File: src/lib.rs\n@@\n-a\n+b\n*** End Patch";
    let hook_input = trae_cli_hook_input(
        "PostToolUse",
        "ApplyPatch",
        object(&[("patch", text(patch))]),
        "/home/user/project",
    );
    let events = parse_trae(&hook_input).unwrap();
    assert_eq!(events.len(), 1);
    match &events[0] {
        ParsedHookEvent::PostFileEdit(e) => {
            assert_eq!(e.context.agent_id.tool, "trae");
            assert_eq!(
                e.file_paths,
                vec![
                    "/home/user/project/src/main.rs".to_string(),
                    "/home/user/project/src/lib.rs".to_string(),
                ]
            );
        }
        _ => panic!("Expected PostFileEdit"),
    }
}

#[test]
fn test_trae_cli_ignores_read_only_tools() {
    for tool in [
        "Read",
        "Glob",
        "Grep",
        "BashOutput",
        "TodoWrite",
        "AskUserQuestion",
    ] {
        let hook_input = trae_cli_hook_input(
            "PostToolUse",
            tool,
            object(&[("file_path", text("src/main.rs"))]),
            "/home/user/project",
        );
        assert!(
            parse_trae(&hook_input).unwrap().is_empty(),
            "{tool} unexpectedly produced events"
        );
    }
}

#[test]
fn trae_test_trae_ignored_hook_produces_no_checkpoint_requests() {
    let hook_input = trae_hook_input(
        "PostToolUse",
        "Read",
        object(&[("file_path", text("test.txt"))]),
        "/home/user/project",
    );

    // A request is made for each event, so none is made where there is none.
    let events = parse_trae(&hook_input).unwrap();
    assert!(events.is_empty());
}

#[test]
fn a_payload_that_is_not_json_is_refused_with_what_is_wrong() {
    let expected = serde_json::from_str::<Value>("{\"cwd\": ")
        .unwrap_err()
        .to_string();
    assert_eq!(
        parse("{\"cwd\": "),
        Err(GitAiError::PresetError(format!(
            "Invalid JSON in hook_input: {expected}"
        )))
    );
    assert!(expected.len() > 0);
}

#[test]
fn a_missing_directory_is_named_in_the_error() {
    let input = object(&[
        ("hook_event_name", text("PreToolUse")),
        ("tool_name", text("Bash")),
    ])
    .to_string();
    assert_eq!(
        parse(&input),
        Err(GitAiError::PresetError(
            "cwd not found in hook_input".to_string()
        ))
    );
    // A directory that is no text is none.
    let input = object(&[
        ("hook_event_name", text("PreToolUse")),
        ("tool_name", text("Bash")),
        ("cwd", Value::from(7)),
    ])
    .to_string();
    assert!(parse(&input).is_err());
}

#[test]
fn a_tool_that_is_skipped_needs_no_directory() {
    let input = object(&[
        ("hook_event_name", text("PreToolUse")),
        ("tool_name", text("Read")),
    ])
    .to_string();
    assert_eq!(parse(&input), Ok(vec![]));
    assert_eq!(parse("{}"), Ok(vec![]));
    assert_eq!(parse("[1, 2]"), Ok(vec![]));
    assert_eq!(parse("{\"tool_name\": null}"), Ok(vec![]));
}

#[test]
fn a_payload_without_an_event_name_reports_nothing() {
    let input = object(&[
        ("cwd", text("/home/user/project")),
        ("tool_name", text("Write")),
    ])
    .to_string();
    assert_eq!(parse(&input), Ok(vec![]));
}

#[test]
fn absolute_paths_stay_and_others_are_below_the_directory() {
    let data = read_json(
        &object(&[("tool_input", object(&[("file_path", text("/etc/hosts"))]))]).to_string(),
    )
    .unwrap();
    assert_eq!(
        file_paths_from_tool_input(&data, "/home/user"),
        vec!["/etc/hosts".to_string()]
    );
    let data = read_json(
        &object(&[("tool_input", object(&[("file_path", text("a/b.rs"))]))]).to_string(),
    )
    .unwrap();
    assert_eq!(
        file_paths_from_tool_input(&data, "/home/user/"),
        vec!["/home/user/a/b.rs".to_string()]
    );
}

#[test]
fn a_patch_announces_updated_added_and_deleted_files() {
    let patch = "*** Begin Patch\r\n*** Add File: new.rs\r\n+x\r\n*** Delete File:  old.rs \n*** Update File: /abs.rs\n*** End Patch";
    let data = read_json(
        &object(&[("tool_input", object(&[("patch", text(patch))]))]).to_string(),
    )
    .unwrap();
    assert_eq!(
        file_paths_from_tool_input(&data, "/w"),
        vec![
            "/w/new.rs".to_string(),
            "/w/old.rs".to_string(),
            "/abs.rs".to_string(),
        ]
    );
    let none = read_json("{\"tool_input\": {\"other\": 1}}").unwrap();
    assert_eq!(file_paths_from_tool_input(&none, "/w"), Vec::<String>::new());
    assert_eq!(
        file_paths_from_tool_input(&Json::Null, "/w"),
        Vec::<String>::new()
    );
}

#[test]
fn commands_are_taken_from_the_tool_input() {
    let data = read_json("{\"tool_input\": {\"command\": \"ls -l\"}}").unwrap();
    assert_eq!(bash_command_from_hook_input(&data), Some("ls -l".to_string()));
    let data = read_json("{\"tool_input\": {\"command\": 3}}").unwrap();
    assert_eq!(bash_command_from_hook_input(&data), None);
    assert_eq!(bash_command_from_hook_input(&Json::Bool(true)), None);
}

#[test]
fn tools_are_classified_by_name() {
    for name in ["Write", "Edit", "ApplyPatch"] {
        assert_eq!(classify_tool(name), ToolClass::FileEdit);
    }
    for name in ["RunCommand", "Bash"] {
        assert_eq!(classify_tool(name), ToolClass::Bash);
    }
    for name in ["", "write", "BashOutput", "Read"] {
        assert_eq!(classify_tool(name), ToolClass::Skip);
    }
}

#[test]
fn events_of_a_payload_that_is_read_are_those_that_are_parsed() {
    let input = make_trae_hook_input("PostToolUse", "Bash");
    let data = read_json(&input).unwrap();
    assert_eq!(
        events_of_payload(&data, "t_test123456789a"),
        parse(&input)
    );
    match &parse(&input).unwrap()[0] {
        ParsedHookEvent::PostBashCall(e) => {
            assert_eq!(e.context.agent_id.id, "sess-1");
            assert_eq!(e.context.metadata.len(), 0);
            assert_eq!(e.command, None);
        }
        _ => panic!("Expected PostBashCall"),
    }
}
