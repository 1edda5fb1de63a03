//! Hooks in the configuration file of ZCode.
use agent_hooks::error::GitAiError;
use agent_hooks::installer::{ConfigEdit, HookCheckResult};
use agent_hooks::zcode::ZCodeInstaller;
use serde_json::Value;

const HOOK_EVENTS: [&str; 2] = ["PreToolUse", "PostToolUse"];

fn expected_cmd() -> String {
    ZCodeInstaller::desired_command("/usr/local/bin/git-ai")
}

fn object(members: &[(&str, Value)]) -> Value {
    let mut map = serde_json::Map::new();
    for (key, value) in members {
        map.insert(key.to_string(), value.clone());
    }
    Value::Object(map)
}

fn text(s: &str) -> Value {
    Value::from(s)
}

/// A hook that runs a command.
fn hook(cmd: &str) -> Value {
    object(&[("type", text("command")), ("command", text(cmd))])
}

/// A hook as it is installed.
fn full_hook(cmd: &str) -> Value {
    object(&[
        ("type", text("command")),
        ("command", text(cmd)),
        ("timeoutMs", Value::from(30000)),
    ])
}

fn block(matcher: &str, hooks: Vec<Value>) -> Value {
    object(&[("matcher", text(matcher)), ("hooks", Value::Array(hooks))])
}

/// The text of a configuration with the given matcher blocks.
fn config_text(enabled: bool, events: &[(&str, Value)]) -> String {
    serde_json::to_string_pretty(&object(&[(
        "hooks",
        object(&[("enabled", Value::Bool(enabled)), ("events", object(events))]),
    )]))
    .unwrap()
}

fn read_config(content: &str) -> Value {
    serde_json::from_str(content).unwrap()
}

fn installed(existing: Option<&str>) -> String {
    let edit = ZCodeInstaller::install_hooks_at(existing, &expected_cmd(), false)
        .unwrap()
        .unwrap();
    assert!(edit.write);
    assert_eq!(edit.before, existing.unwrap_or(""));
    edit.after
}

fn hooks_in_catch_all<'a>(hooks: &'a Value, event: &str) -> Vec<&'a Value> {
    let Some(blocks) = hooks
        .get("hooks")
        .and_then(|h| h.get("events"))
        .and_then(|e| e.get(event))
        .and_then(|v| v.as_array())
    else {
        return Vec::new();
    };
    blocks
        .iter()
        .find(|b| {
            b.get("matcher")
                .and_then(|m| m.as_str())
                .map(|m| m == "*")
                .unwrap_or(false)
        })
        .and_then(|b| b.get("hooks").and_then(|h| h.as_array()))
        .map(|v| v.iter().collect())
        .unwrap_or_default()
}

#[test]
fn test_zcode_installer_id() {
    assert_eq!(ZCodeInstaller.id(), "zcode");
    assert_eq!(ZCodeInstaller.name(), "ZCode");
}

#[test]
fn zcode_s1_fresh_install_creates_hooks_block() {
    let plan = ZCodeInstaller::install_hooks_at(None, &expected_cmd(), false).unwrap();
    assert!(plan.is_some(), "should produce a diff");

    let config = read_config(&plan.unwrap().after);
    assert_eq!(
        config.get("hooks").and_then(|h| h.get("enabled")),
        Some(&Value::Bool(true))
    );
    for event in HOOK_EVENTS {
        let catch_all = hooks_in_catch_all(&config, event);
        assert_eq!(catch_all.len(), 1, "{event}: expected 1 hook in catch-all");
        assert_eq!(
            catch_all[0]
                .get("command")
                .and_then(|c| c.as_str())
                .unwrap(),
            expected_cmd()
        );
        assert_eq!(
            catch_all[0].get("type").and_then(|t| t.as_str()).unwrap(),
            "command"
        );
    }
}

#[test]
fn s2_idempotent_already_installed() {
    let cmd = expected_cmd();
    let existing = config_text(
        true,
        &[
            ("PreToolUse", Value::Array(vec![block("*", vec![full_hook(&cmd)])])),
            ("PostToolUse", Value::Array(vec![block("*", vec![full_hook(&cmd)])])),
        ],
    );

    let plan = ZCodeInstaller::install_hooks_at(Some(&existing), &cmd, false).unwrap();
    assert!(plan.is_none(), "should return None when already up-to-date");
}

#[test]
fn s3_install_preserves_user_hooks_and_other_matchers() {
    let cmd = expected_cmd();
    let existing = config_text(
        true,
        &[
            (
                "PreToolUse",
                Value::Array(vec![block("Write|Edit", vec![hook("echo before")])]),
            ),
            (
                "PostToolUse",
                Value::Array(vec![block("*", vec![hook("prettier --write")])]),
            ),
        ],
    );

    let config = read_config(&installed(Some(&existing)));

    // PreToolUse: user matcher block untouched, catch-all created.
    let pre_blocks = config
        .get("hooks")
        .and_then(|h| h.get("events"))
        .and_then(|e| e.get("PreToolUse"))
        .and_then(|v| v.as_array())
        .unwrap();
    assert_eq!(pre_blocks.len(), 2, "user block + catch-all block");
    assert_eq!(pre_blocks[0], block("Write|Edit", vec![hook("echo before")]));

    // PostToolUse: user hook in catch-all preserved alongside ours.
    let post_catch_all = hooks_in_catch_all(&config, "PostToolUse");
    assert_eq!(post_catch_all.len(), 2, "user hook + git-ai hook");
    assert!(post_catch_all
        .iter()
        .any(|h| h.get("command").and_then(|c| c.as_str()).unwrap_or("") == "prettier --write"));
    assert!(post_catch_all
        .iter()
        .any(|h| h.get("command").and_then(|c| c.as_str()).unwrap_or("") == cmd));
}

#[test]
fn zcode_s4_install_updates_stale_command() {
    let stale_cmd = "/old/path/git-ai checkpoint zcode --hook-input stdin";
    let existing = config_text(
        true,
        &[
            ("PreToolUse", Value::Array(vec![block("*", vec![hook(stale_cmd)])])),
            ("PostToolUse", Value::Array(vec![block("*", vec![hook(stale_cmd)])])),
        ],
    );

    let config = read_config(&installed(Some(&existing)));
    for event in HOOK_EVENTS {
        let catch_all = hooks_in_catch_all(&config, event);
        assert_eq!(
            catch_all.len(),
            1,
            "{event}: expected exactly one git-ai hook"
        );
        assert_eq!(
            catch_all[0]
                .get("command")
                .and_then(|c| c.as_str())
                .unwrap(),
            expected_cmd()
        );
    }
}

#[test]
fn zcode_s5_install_dedupes_git_ai_hooks() {
    let cmd = expected_cmd();
    let dup_cmd = "/other/path/git-ai checkpoint zcode --hook-input stdin";
    let existing = config_text(
        true,
        &[
            (
                "PreToolUse",
                Value::Array(vec![block("*", vec![hook(&cmd), hook(dup_cmd)])]),
            ),
            ("PostToolUse", Value::Array(vec![block("*", vec![hook(&cmd)])])),
        ],
    );

    let config = read_config(&installed(Some(&existing)));
    let pre_catch_all = hooks_in_catch_all(&config, "PreToolUse");
    assert_eq!(pre_catch_all.len(), 1, "duplicate git-ai hook removed");
}

#[test]
fn s6_install_sets_enabled_true() {
    let existing = config_text(false, &[]);

    let config = read_config(&installed(Some(&existing)));
    assert_eq!(
        config.get("hooks").and_then(|h| h.get("enabled")),
        Some(&Value::Bool(true)),
        "hooks.enabled must be set to true"
    );
}

#[test]
fn s7_dry_run_does_not_write() {
    let plan = ZCodeInstaller::install_hooks_at(None, &expected_cmd(), true).unwrap();
    assert!(plan.is_some());
    assert!(!plan.unwrap().write, "dry run must not create the file");
}

#[test]
fn s8_uninstall_removes_git_ai_hooks_only() {
    let cmd = expected_cmd();
    let existing = config_text(
        true,
        &[
            (
                "PreToolUse",
                Value::Array(vec![block("*", vec![hook("echo user-hook"), hook(&cmd)])]),
            ),
            ("PostToolUse", Value::Array(vec![block("*", vec![hook(&cmd)])])),
        ],
    );

    let plan = ZCodeInstaller::uninstall_hooks_at(Some(&existing), false).unwrap();
    assert!(plan.is_some(), "should produce a diff");

    let config = read_config(&plan.unwrap().after);
    let pre_catch_all = hooks_in_catch_all(&config, "PreToolUse");
    assert_eq!(pre_catch_all.len(), 1, "user hook preserved");
    assert_eq!(
        pre_catch_all[0]
            .get("command")
            .and_then(|c| c.as_str())
            .unwrap(),
        "echo user-hook"
    );

    // PostToolUse catch-all block only held our hook; it must be removed.
    let post_blocks = config
        .get("hooks")
        .and_then(|h| h.get("events"))
        .and_then(|e| e.get("PostToolUse"))
        .and_then(|v| v.as_array())
        .unwrap();
    assert!(
        post_blocks.is_empty(),
        "emptied matcher block should be removed"
    );
}

#[test]
fn s9_uninstall_no_hooks_is_noop() {
    let existing = config_text(
        true,
        &[(
            "PreToolUse",
            Value::Array(vec![block("*", vec![hook("echo user-hook")])]),
        )],
    );

    let plan = ZCodeInstaller::uninstall_hooks_at(Some(&existing), false).unwrap();
    assert!(
        plan.is_none(),
        "should return None when nothing to uninstall"
    );
}

#[test]
fn s10_uninstall_missing_file_is_noop() {
    let plan = ZCodeInstaller::uninstall_hooks_at(None, false).unwrap();
    assert!(plan.is_none());
}

#[test]
fn a_fresh_configuration_is_written_exactly() {
    let cmd = "/usr/local/bin/git-ai checkpoint zcode --hook-input stdin";
    assert_eq!(expected_cmd(), cmd);
    let blocks = Value::Array(vec![block("*", vec![full_hook(cmd)])]);
    let expected = config_text(
        true,
        &[("PreToolUse", blocks.clone()), ("PostToolUse", blocks)],
    );
    assert_eq!(installed(None), expected);
    assert_eq!(installed(Some(" \n")), expected);
    assert!(expected.starts_with("{\n  \"hooks\": {\n    \"enabled\": true,\n"));
}

#[test]
fn other_content_is_kept() {
    let existing = "{\"b\": [1, -2, 3.5, 1e400, null, true], \"a\": {\"x\": \"\\u00e9\\n\"}, \"hooks\": {\"note\": \"mine\", \"events\": {\"Stop\": 1}}}";
    // A number out of range is not JSON that can be read.
    assert!(ZCodeInstaller::install_hooks_at(Some(existing), &expected_cmd(), false).is_err());
    let existing = "{\"b\": [1, -2, 3.5, 18446744073709551615, null, true], \"a\": {\"x\": \"\\u00e9\\n\"}, \"hooks\": {\"note\": \"mine\", \"events\": {\"Stop\": 1}}}";
    let before = read_config(existing);
    let after = read_config(&installed(Some(existing)));
    assert_eq!(after["a"], before["a"]);
    assert_eq!(after["b"], before["b"]);
    assert_eq!(after["hooks"]["note"], "mine");
    assert_eq!(after["hooks"]["events"]["Stop"], 1);
}

#[test]
fn a_hook_that_runs_the_command_keeps_its_other_members() {
    let cmd = expected_cmd();
    let mine = object(&[("command", text(&cmd)), ("note", text("kept"))]);
    let existing = config_text(
        true,
        &[(
            "PreToolUse",
            Value::Array(vec![block("*", vec![mine.clone(), hook("git-ai checkpoint")])]),
        )],
    );
    let after = read_config(&installed(Some(&existing)));
    assert_eq!(hooks_in_catch_all(&after, "PreToolUse"), vec![&mine]);
    assert_eq!(
        hooks_in_catch_all(&after, "PostToolUse"),
        vec![&full_hook(&cmd)]
    );
}

#[test]
fn a_configuration_of_another_form_stays_as_it_is() {
    for existing in ["[]", "7", "\"text\"", "null"] {
        assert_eq!(
            ZCodeInstaller::install_hooks_at(Some(existing), &expected_cmd(), false),
            Ok(None)
        );
        assert_eq!(
            ZCodeInstaller::uninstall_hooks_at(Some(existing), false),
            Ok(None)
        );
    }
    assert_eq!(
        ZCodeInstaller::install_hooks_at(Some("{\"hooks\": null}"), &expected_cmd(), false),
        Ok(None)
    );
    let after = read_config(&installed(Some("{\"hooks\": {\"events\": []}}")));
    assert_eq!(after["hooks"]["events"], Value::Array(vec![]));
    assert_eq!(after["hooks"]["enabled"], true);
}

#[test]
fn text_that_is_not_json_is_reported() {
    let expected = serde_json::from_str::<Value>("{").unwrap_err().to_string();
    let error = || GitAiError::JsonError(expected.clone());
    assert_eq!(
        ZCodeInstaller::install_hooks_at(Some("{"), &expected_cmd(), false),
        Err(error())
    );
    assert_eq!(
        ZCodeInstaller::uninstall_hooks_at(Some("{"), false),
        Err(error())
    );
    assert!(ZCodeInstaller::uninstall_hooks_at(Some(" "), false).is_err());
}

#[test]
fn zcode_hooks_are_found_or_not() {
    let result = |tool_installed: bool, hooks: bool| HookCheckResult {
        tool_installed,
        hooks_installed: hooks,
        hooks_up_to_date: hooks,
    };
    assert_eq!(ZCodeInstaller.check_hooks(false, None), Ok(result(false, false)));
    assert_eq!(ZCodeInstaller.check_hooks(true, None), Ok(result(true, false)));
    assert_eq!(
        ZCodeInstaller.check_hooks(false, Some("not json")),
        Ok(result(true, false))
    );
    let text = installed(None);
    assert_eq!(
        ZCodeInstaller.check_hooks(false, Some(&text)),
        Ok(result(true, true))
    );
    // One event alone does not do.
    let half = config_text(
        true,
        &[(
            "PreToolUse",
            Value::Array(vec![block("Edit", vec![hook("git-ai checkpoint")])]),
        )],
    );
    assert_eq!(
        ZCodeInstaller.check_hooks(false, Some(&half)),
        Ok(result(true, false))
    );
    let removed = ZCodeInstaller::uninstall_hooks_at(Some(&text), false)
        .unwrap()
        .unwrap()
        .after;
    assert_eq!(
        ZCodeInstaller.check_hooks(false, Some(&removed)),
        Ok(result(true, false))
    );
}

#[test]
fn zcode_edits_are_settled_after_one_round() {
    let cmd = expected_cmd();
    let stale = config_text(
        false,
        &[(
            "PreToolUse",
            Value::Array(vec![
                block("Edit", vec![hook("git-ai checkpoint old")]),
                block("*", vec![hook("echo"), hook("git-ai checkpoint old"), hook(&cmd)]),
            ]),
        )],
    );
    for existing in ["", "{}", &stale] {
        let text = installed(Some(existing));
        assert_eq!(
            ZCodeInstaller::install_hooks_at(Some(&text), &cmd, false),
            Ok(None)
        );
        let removed = ZCodeInstaller::uninstall_hooks_at(Some(&text), false)
            .unwrap()
            .unwrap()
            .after;
        assert_eq!(
            ZCodeInstaller::uninstall_hooks_at(Some(&removed), false),
            Ok(None)
        );
        // The hooks of the user are those that were there.
        let config = read_config(&removed);
        let left = hooks_in_catch_all(&config, "PreToolUse");
        if existing == stale {
            assert_eq!(left, vec![&hook("echo")]);
        } else {
            assert!(left.is_empty());
        }
    }
}

#[test]
fn removing_gives_the_configuration_back() {
    let removed = |text: &str| {
        ZCodeInstaller::uninstall_hooks_at(Some(text), false)
            .unwrap()
            .unwrap()
            .after
    };
    let existing = config_text(
        true,
        &[
            ("PreToolUse", Value::Array(vec![block("Edit", vec![hook("a")])])),
            (
                "PostToolUse",
                Value::Array(vec![
                    block("*", vec![hook("echo")]),
                    block("*", vec![]),
                    text("odd"),
                ]),
            ),
            ("Stop", Value::Array(vec![block("*", vec![hook("b")])])),
        ],
    );
    assert_eq!(
        read_config(&removed(&installed(Some(&existing)))),
        read_config(&existing)
    );
    // So it is with floating point numbers, and other hooks beside them.
    let mut config = read_config(&existing);
    config["temperature"] = Value::from(0.7);
    config["limits"] = Value::Array(vec![Value::from(8e307), Value::from(-2.5e-300)]);
    let with_floats = serde_json::to_string(&config).unwrap();
    let text = installed(Some(&with_floats));
    assert_eq!(
        ZCodeInstaller::install_hooks_at(Some(&text), &expected_cmd(), true),
        Ok(None)
    );
    let left = read_config(&removed(&text));
    assert_eq!(left["hooks"], config["hooks"]);
    assert_eq!(left["temperature"], config["temperature"]);
    assert!(left["limits"][0].as_f64().unwrap() > 7.9e307);
    // An empty block that the hook was put into is dropped with it.
    let events = |blocks: Vec<Value>| {
        config_text(
            true,
            &[
                ("PreToolUse", Value::Array(blocks)),
                ("PostToolUse", Value::Array(vec![])),
            ],
        )
    };
    assert_eq!(
        read_config(&removed(&installed(Some(&events(vec![block("*", vec![])]))))),
        read_config(&events(vec![]))
    );
}

#[test]
fn blocks_that_had_no_hooks_stay() {
    let existing = config_text(
        true,
        &[(
            "PreToolUse",
            Value::Array(vec![
                block("A", vec![]),
                block("B", vec![hook("git-ai checkpoint")]),
                text("odd"),
            ]),
        )],
    );
    let edit = ZCodeInstaller::uninstall_hooks_at(Some(&existing), true)
        .unwrap()
        .unwrap();
    assert!(!edit.write);
    assert_eq!(
        read_config(&edit.after)["hooks"]["events"]["PreToolUse"],
        Value::Array(vec![block("A", vec![]), text("odd")])
    );
}

#[test]
fn the_zcode_installer_plans_for_a_program() {
    assert_eq!(
        ZCodeInstaller.install_hooks(None, "/usr/local/bin/git-ai", true),
        Ok(Some(ConfigEdit {
            before: String::new(),
            after: installed(None),
            write: false,
        }))
    );
    assert_eq!(ZCodeInstaller.uninstall_hooks(None, true), Ok(None));
    assert_eq!(ZCodeInstaller.process_names(), vec!["zcode"]);
    assert_eq!(
        ZCodeInstaller::config_path("/home/user"),
        "/home/user/.zcode/cli/config.json"
    );
}

#[test]
fn other_hooks_are_kept_whatever_the_command_is() {
    let existing = config_text(
        true,
        &[(
            "PreToolUse",
            Value::Array(vec![block(
                "*",
                vec![hook("a"), hook("git-ai checkpoint"), hook("b"), hook("git-ai checkpoint x")],
            )]),
        )],
    );
    let edit = ZCodeInstaller::install_hooks_at(Some(&existing), "echo", true)
        .unwrap()
        .unwrap();
    assert_eq!(
        hooks_in_catch_all(&read_config(&edit.after), "PreToolUse"),
        vec![&hook("a"), &full_hook("echo"), &hook("b")]
    );
}

#[test]
fn floating_point_numbers_do_not_stand_in_the_way() {
    let cmd = expected_cmd();
    let existing = "{\"temperature\": 0.7, \"list\": [1e16, -0.0, 123456789.125]}";
    let text = installed(Some(existing));
    assert_eq!(
        ZCodeInstaller::install_hooks_at(Some(&text), &cmd, false),
        Ok(None)
    );
    let result = ZCodeInstaller.check_hooks(false, Some(&text)).unwrap();
    assert!(result.hooks_installed);
    assert_eq!(read_config(&text)["temperature"], 0.7);
    assert_eq!(read_config(&text)["list"], read_config(existing)["list"]);
    let removed = ZCodeInstaller::uninstall_hooks_at(Some(&text), false)
        .unwrap()
        .unwrap()
        .after;
    assert_eq!(
        ZCodeInstaller::uninstall_hooks_at(Some(&removed), false),
        Ok(None)
    );
}
