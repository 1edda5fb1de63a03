//! Hooks in the configuration file of the TRAE CLI.
use agent_hooks::error::GitAiError;
use agent_hooks::hooks_block::{parse_hooks_block, DEFAULT_ENTRY_INDENT};
use agent_hooks::installer::{is_git_ai_checkpoint_command, ConfigEdit, HookCheckResult};
use agent_hooks::lines::{join_lines, split_lines};
use agent_hooks::trae_cli::{
    merge_hooks_entry, rebuild_file, remove_hooks_entries, render_entry, unquote_yaml_value,
    TraeCliInstaller,
};

fn expected_cmd() -> String {
    TraeCliInstaller::desired_command("/usr/local/bin/git-ai")
}

fn expected_entry(cmd: &str) -> String {
    render_entry(cmd, DEFAULT_ENTRY_INDENT).join("\n")
}

/// What a file holds after an installation that changes it.
fn installed(existing: Option<&str>, cmd: &str) -> String {
    let edit = TraeCliInstaller::install_hooks_at(existing, cmd, false)
        .unwrap()
        .unwrap();
    assert!(edit.write);
    assert_eq!(edit.before, existing.unwrap_or(""));
    edit.after
}

/// What a file holds after a removal that changes it.
fn removed(existing: &str) -> String {
    let edit = TraeCliInstaller::uninstall_hooks_at(Some(existing), false)
        .unwrap()
        .unwrap();
    assert!(edit.write);
    assert_eq!(edit.before, existing);
    edit.after
}

fn command_lines(content: &str) -> Vec<String> {
    content.lines().map(str::to_string).collect()
}

fn git_ai_command_lines(content: &str) -> Vec<String> {
    command_lines(content)
        .into_iter()
        .filter(|l| l.trim_start().starts_with("command:"))
        .filter(|l| is_git_ai_checkpoint_command(l))
        .collect()
}

#[test]
fn test_trae_cli_installer_id() {
    assert_eq!(TraeCliInstaller.id(), "trae-cli");
    assert_eq!(TraeCliInstaller.name(), "TRAE CLI");
}

#[test]
fn s0_config_path_uses_underscore_filename() {
    // trae-cli reads `~/.trae/trae_cli.yaml` (underscore), matching the file
    // it writes at login.
    let home = std::path::Path::new("/home/user");
    let path = TraeCliInstaller::config_path("/home/user");
    let path = std::path::Path::new(&path);
    assert_eq!(path.parent().unwrap(), home.join(".trae"));
    assert_eq!(path.file_name().unwrap(), "trae_cli.yaml");
}

#[test]
fn trae_cli_s1_fresh_install_creates_hooks_block() {
    let plan = TraeCliInstaller::install_hooks_at(None, &expected_cmd(), false).unwrap();
    assert!(plan.is_some(), "should produce a diff");

    let content = plan.unwrap().after;
    let expected = format!("hooks:\n{}\n", expected_entry(&expected_cmd()));
    assert_eq!(content, expected);
}

#[test]
fn s2_fresh_install_preserves_existing_keys() {
    let content = installed(
        Some("trae_login_base_url: https://example.com\n"),
        &expected_cmd(),
    );
    assert!(
        content.starts_with("trae_login_base_url: https://example.com\n"),
        "existing keys must be preserved"
    );
    assert!(content.contains("hooks:\n"));
    assert_eq!(git_ai_command_lines(&content).len(), 1);
}

#[test]
fn s3_idempotent_already_installed() {
    let cmd = expected_cmd();
    let existing = format!(
        "trae_login_base_url: https://example.com\nhooks:\n{}\n",
        expected_entry(&cmd)
    );

    let plan = TraeCliInstaller::install_hooks_at(Some(&existing), &cmd, false).unwrap();
    assert!(plan.is_none(), "should return None when already up-to-date");
}

#[test]
fn trae_cli_s4_install_updates_stale_command() {
    let stale_cmd = "/old/path/git-ai checkpoint trae --hook-input stdin";
    let existing = format!(
        "hooks:\n  - type: command\n    command: '{stale_cmd}'\n    timeout: '30s'\n    matchers:\n      - event: pre_tool_use\n      - event: post_tool_use\n"
    );

    let content = installed(Some(&existing), &expected_cmd());

    let commands = git_ai_command_lines(&content);
    assert_eq!(commands.len(), 1, "expected exactly one git-ai command");
    assert!(commands[0].contains(&expected_cmd()));
}

#[test]
fn trae_cli_s5_install_dedupes_git_ai_hooks() {
    let cmd = expected_cmd();
    let dup_cmd = "/other/path/git-ai checkpoint trae --hook-input stdin";
    let existing = format!(
        "hooks:\n  - type: command\n    command: '{cmd}'\n    matchers:\n      - event: pre_tool_use\n  - type: command\n    command: '{dup_cmd}'\n    matchers:\n      - event: post_tool_use\n"
    );

    let content = installed(Some(&existing), &cmd);

    assert_eq!(git_ai_command_lines(&content).len(), 1, "duplicate removed");
}

#[test]
fn s6_install_preserves_user_hooks() {
    let existing = "hooks:\n  - type: command\n    command: 'prettier --write .'\n    matchers:\n      - event: post_tool_use\n        tool: 'Write'\n  - type: http\n    url: 'https://example.com/hook'\n    matchers:\n      - event: stop\n";

    let plan = TraeCliInstaller::install_hooks_at(Some(existing), &expected_cmd(), false).unwrap();
    assert!(plan.is_some());

    let content = plan.unwrap().after;
    assert!(content.contains("command: 'prettier --write .'"));
    assert!(content.contains("url: 'https://example.com/hook'"));
    assert!(content.contains("- event: stop"));
    assert_eq!(git_ai_command_lines(&content).len(), 1);
}

#[test]
fn s7_install_appends_to_existing_block() {
    let content = installed(
        Some(
            "hooks:\n  - type: command\n    command: 'echo hi'\n    matchers:\n      - event: stop\n",
        ),
        &expected_cmd(),
    );

    let lines = command_lines(&content);
    let user_idx = lines.iter().position(|l| l.contains("echo hi")).unwrap();
    let ours_idx = lines
        .iter()
        .position(|l| is_git_ai_checkpoint_command(l))
        .unwrap();
    assert!(
        user_idx < ours_idx,
        "our entry must be appended after user entries"
    );
    assert_eq!(lines[0], "hooks:");
}

#[test]
fn s8_install_matches_custom_indent() {
    let content = installed(
        Some(
            "hooks:\n    - type: command\n        command: 'echo hi'\n        matchers:\n            - event: stop\n",
        ),
        &expected_cmd(),
    );

    let lines = command_lines(&content);
    let ours_idx = lines
        .iter()
        .position(|l| is_git_ai_checkpoint_command(l))
        .unwrap();
    // The command line of a 4-space-indented entry body sits at indent 6.
    assert!(
        lines[ours_idx].starts_with("      command:"),
        "entry must match the block's 4-space indent, got: {}",
        lines[ours_idx]
    );
}

#[test]
fn s9_install_handles_crlf_files() {
    let content = "trae_login_base_url: https://example.com\r\nhooks:\r\n  - type: command\r\n    command: 'echo hi'\r\n    matchers:\r\n      - event: stop\r\n";

    let written = installed(Some(content), &expected_cmd());
    assert!(written.starts_with(content), "existing content preserved");
    for line in written.split('\n') {
        assert!(
            line.is_empty() || line.ends_with('\r'),
            "no bare LF line endings introduced: {:?}",
            line
        );
    }
}

#[test]
fn s10_dry_run_does_not_write() {
    let plan = TraeCliInstaller::install_hooks_at(None, &expected_cmd(), true).unwrap();
    assert!(plan.is_some());
    assert!(!plan.unwrap().write, "dry run must not create the file");
}

#[test]
fn s11_install_flow_style_hooks_errors() {
    let result = TraeCliInstaller::install_hooks_at(Some("hooks: []\n"), &expected_cmd(), false);
    assert!(result.is_err(), "flow-style hooks must fail closed");
}

#[test]
fn s12_install_nested_hooks_key_errors() {
    let result = TraeCliInstaller::install_hooks_at(
        Some("agent:\n  hooks:\n    - type: command\n"),
        &expected_cmd(),
        false,
    );
    assert!(result.is_err(), "nested hooks key must fail closed");
}

#[test]
fn s13_uninstall_removes_git_ai_hooks_only() {
    let cmd = expected_cmd();
    let existing = format!(
        "hooks:\n  - type: command\n    command: 'echo user-hook'\n    matchers:\n      - event: stop\n  - type: command\n    command: '{cmd}'\n    timeout: '30s'\n    matchers:\n      - event: pre_tool_use\n      - event: post_tool_use\n"
    );

    let plan = TraeCliInstaller::uninstall_hooks_at(Some(&existing), false).unwrap();
    assert!(plan.is_some(), "should produce a diff");

    let content = plan.unwrap().after;
    assert!(content.contains("echo user-hook"), "user hook preserved");
    assert!(
        !is_git_ai_checkpoint_command(&content),
        "git-ai hook removed"
    );
    assert!(content.contains("hooks:"));
}

#[test]
fn s14_uninstall_removes_emptied_block() {
    let cmd = expected_cmd();
    let existing = format!(
        "trae_login_base_url: https://example.com\nhooks:\n  - type: command\n    command: '{cmd}'\n    timeout: '30s'\n    matchers:\n      - event: pre_tool_use\n      - event: post_tool_use\n",
    );

    let plan = TraeCliInstaller::uninstall_hooks_at(Some(&existing), false).unwrap();
    assert!(plan.is_some());

    let content = plan.unwrap().after;
    assert_eq!(
        content, "trae_login_base_url: https://example.com\n",
        "other keys preserved, emptied block dropped, trailing newline kept"
    );
}

#[test]
fn s15_uninstall_no_git_ai_hooks_is_noop() {
    let plan = TraeCliInstaller::uninstall_hooks_at(
        Some("hooks:\n  - type: command\n    command: 'echo user-hook'\n"),
        false,
    )
    .unwrap();
    assert!(
        plan.is_none(),
        "should return None when nothing to uninstall"
    );
}

#[test]
fn s16_uninstall_missing_file_is_noop() {
    let plan = TraeCliInstaller::uninstall_hooks_at(None, false).unwrap();
    assert!(plan.is_none());
}

#[test]
fn s17_uninstall_keeps_block_with_only_comments_left() {
    let cmd = expected_cmd();
    let existing = format!(
        "hooks:\n  # my hooks\n  - type: command\n    command: '{cmd}'\n    matchers:\n      - event: pre_tool_use\n",
    );

    let plan = TraeCliInstaller::uninstall_hooks_at(Some(&existing), false).unwrap();
    assert!(plan.is_some());

    let content = plan.unwrap().after;
    assert!(content.contains("# my hooks"), "comment preserved");
    assert!(
        content.contains("hooks:"),
        "hooks key kept for remaining comment"
    );
    assert!(!is_git_ai_checkpoint_command(&content));
}

#[test]
fn s18_install_without_trailing_newline() {
    let content = installed(
        Some("trae_login_base_url: https://example.com"),
        &expected_cmd(),
    );
    assert!(
        content.starts_with("trae_login_base_url: https://example.com\nhooks:\n"),
        "newline inserted before the appended block"
    );
}

#[test]
fn the_entry_is_rendered_exactly() {
    assert_eq!(
        render_entry("it's git-ai", 3),
        vec![
            "   - type: command".to_string(),
            "     command: 'it''s git-ai'".to_string(),
            "     timeout: '30s'".to_string(),
            "     matchers:".to_string(),
            "       - event: pre_tool_use".to_string(),
            "       - event: post_tool_use".to_string(),
        ]
    );
    assert_eq!(
        expected_cmd(),
        "/usr/local/bin/git-ai checkpoint trae --hook-input stdin"
    );
}

#[test]
fn each_layout_that_is_refused_has_its_message() {
    let cases = [
        (
            "hooks: [] # none\n",
            "trae_cli.yaml uses a flow-style `hooks:` value; refusing to edit it automatically",
        ),
        (
            "hooks:\nother: 1\nhooks: # again\n",
            "trae_cli.yaml has duplicate top-level `hooks:` keys",
        ),
        (
            "agent:\n  hooks:\n",
            "trae_cli.yaml has a nested `hooks:` key; refusing to edit it automatically",
        ),
        (
            "hooks:\n    - a\n  - b\n",
            "trae_cli.yaml `hooks:` entries have inconsistent indentation; refusing to edit it automatically",
        ),
    ];
    for (text, message) in cases {
        let error = GitAiError::Generic(message.to_string());
        assert_eq!(merge_hooks_entry(text, "git-ai checkpoint"), Err(error));
        let error = GitAiError::Generic(message.to_string());
        assert_eq!(remove_hooks_entries(text), Err(error));
        let error = GitAiError::Generic(message.to_string());
        assert_eq!(
            TraeCliInstaller.check_hooks(true, Some(text), "git-ai"),
            Err(error)
        );
    }
    // A `hooks:` in a comment is none.
    assert_eq!(remove_hooks_entries("  # hooks: []\n"), Ok(None));
}

#[test]
fn the_hooks_are_found_or_not() {
    let binary = "/usr/local/bin/git-ai";
    let result = |hooks_installed: bool, hooks_up_to_date: bool| HookCheckResult {
        tool_installed: true,
        hooks_installed,
        hooks_up_to_date,
    };
    assert_eq!(
        TraeCliInstaller.check_hooks(false, Some("hooks: []"), binary),
        Ok(HookCheckResult {
            tool_installed: false,
            hooks_installed: false,
            hooks_up_to_date: false,
        })
    );
    assert_eq!(
        TraeCliInstaller.check_hooks(true, None, binary),
        Ok(result(false, false))
    );
    let text = installed(None, &expected_cmd());
    assert_eq!(
        TraeCliInstaller.check_hooks(true, Some(&text), binary),
        Ok(result(true, true))
    );
    assert_eq!(
        TraeCliInstaller.check_hooks(true, Some(&text), "/opt/git-ai"),
        Ok(result(true, false))
    );
    let beside = "hooks:\n- type: command\n  command: '/opt/git-ai checkpoint trae --hook-input stdin'\n";
    assert_eq!(
        TraeCliInstaller.check_hooks(true, Some(beside), "/opt/git-ai"),
        Ok(result(false, false)),
        "text in the first column ends the block"
    );
    let double =
        "hooks:\n  - type: command\n    command: \"/opt/git-ai checkpoint trae --hook-input stdin\"\n";
    assert_eq!(
        TraeCliInstaller.check_hooks(true, Some(double), "/opt/git-ai"),
        Ok(result(true, true))
    );
    let text = removed(double);
    assert_eq!(
        TraeCliInstaller.check_hooks(true, Some(&text), "/opt/git-ai"),
        Ok(result(false, false))
    );
}

#[test]
fn quotes_are_stripped_in_pairs() {
    assert_eq!(unquote_yaml_value(" 'a b' "), "a b");
    assert_eq!(unquote_yaml_value("\"a\""), "a");
    assert_eq!(unquote_yaml_value("'a\""), "'a\"");
    assert_eq!(unquote_yaml_value("'"), "'");
    assert_eq!(unquote_yaml_value("''"), "");
}

#[test]
fn installing_again_has_nothing_to_do() {
    let cmd = expected_cmd();
    let stale = "hooks:\n    # mine\n    - type: command\n      command: echo\n\n    - x: y\n      command: git-ai checkpoint\n    -\n      command: old git-ai checkpoint\n\nother: 1\n";
    for existing in [
        "",
        "a: 1",
        "hooks:",
        "hooks:\r\n  # c\r\n",
        "hooks:\n",
        stale,
    ] {
        let text = installed(Some(existing), &cmd);
        assert_eq!(
            merge_hooks_entry(&text, &cmd),
            Ok(None),
            "a second installation in {existing:?}"
        );
        assert_eq!(git_ai_command_lines(&text).len(), 1);
        assert_eq!(remove_hooks_entries(&removed(&text)), Ok(None));
    }
}

#[test]
fn installing_keeps_other_lines() {
    let cmd = expected_cmd();
    let existing = "a: 1\nhooks:\n  # mine\n  - type: command\n    command: git-ai checkpoint\n  - command: 'echo hi'\n\n  -\n    command: old git-ai checkpoint\n\nb: 2\n";
    let expected = format!(
        "a: 1\nhooks:\n  # mine\n{}\n  - command: 'echo hi'\n\n\nb: 2\n",
        expected_entry(&cmd)
    );
    assert_eq!(installed(Some(existing), &cmd), expected);
    assert_eq!(
        removed(existing),
        "a: 1\nhooks:\n  # mine\n  - command: 'echo hi'\n\n\nb: 2\n"
    );
}

#[test]
fn removing_undoes_installing() {
    let cmd = expected_cmd();
    for existing in [
        "",
        "a: 1\n",
        "a: 1\r\nb: 2\r\n",
        "hooks:\n  # mine\n",
        "hooks:\n  - command: 'echo hi'\n\n\nother: 1\n",
        "x: y\r\nhooks:\r\n\t- command: 'echo hi'",
        "x: y\r\nhooks:\n  - command: 'echo hi'\r\n\nz: 1\n",
        "a: 1\r\nb: 2\n",
    ] {
        let text = installed(Some(existing), &cmd);
        assert_eq!(removed(&text), existing);
    }
    // A line feed that was missing is there afterwards.
    assert_eq!(removed(&installed(Some("a: 1"), &cmd)), "a: 1\n");
    assert_eq!(
        removed(&installed(Some("a: 1\r\nb: 2"), &cmd)),
        "a: 1\r\nb: 2\n"
    );
    // A block without content is dropped.
    assert_eq!(removed(&installed(Some("hooks:\n"), &cmd)), "");
}

#[test]
fn an_emptied_block_leaves_the_blank_lines_after_it() {
    let cmd = expected_cmd();
    let existing = format!("a: 1\nhooks:\n{}\n\nb: 2\n", expected_entry(&cmd));
    assert_eq!(removed(&existing), "a: 1\n\nb: 2\n");
}

#[test]
fn each_line_keeps_its_ending() {
    let existing = "hooks:\r\n  - a\nb: 2\n";
    let content = installed(Some(existing), "git-ai checkpoint");
    assert_eq!(
        content,
        format!(
            "hooks:\r\n  - a\n{}\r\nb: 2\n",
            render_entry("git-ai checkpoint", 2).join("\r\n")
        )
    );
    assert_eq!(removed(&content), existing);
    // A line that was the last one ends as the file's lines do.
    let existing = "x: 1\r\nhooks:\n  - a";
    let content = installed(Some(existing), "git-ai checkpoint");
    assert_eq!(
        content,
        format!(
            "x: 1\r\nhooks:\n  - a\r\n{}",
            render_entry("git-ai checkpoint", 2).join("\r\n")
        )
    );
    assert_eq!(removed(&content), existing);
}

#[test]
fn stray_returns_stay_where_they_are() {
    let cmd = "git-ai checkpoint";
    let plain = render_entry(cmd, 2).join("\n");
    let crlf = render_entry(cmd, 2).join("\r\n");
    // At the end of a file, a line feed and the entry come behind them.
    let cases = [
        ("hooks:\n  - a\r", format!("hooks:\n  - a\r\n{plain}")),
        ("hooks:\n    -\r\r", format!("hooks:\n    -\r\r\n{plain}")),
        (
            "hooks:\n  # mine\r\r\n  - a\r",
            format!("hooks:\n  # mine\r\r\n  - a\r\n{crlf}"),
        ),
        (
            "hooks:\r\r\n  - a\r\r\nb: 2\r",
            format!("hooks:\r\r\n  - a\r\r\n{crlf}\r\nb: 2\r"),
        ),
    ];
    for (existing, expected) in &cases {
        let text = installed(Some(existing), cmd);
        assert_eq!(&text, expected);
        assert_eq!(merge_hooks_entry(&text, cmd), Ok(None));
        let (lines, _) = split_lines(existing);
        // A single one that came to be a part of a line ending goes with it.
        let single = text.ends_with("post_tool_use") && !lines[lines.len() - 1].ends_with('\r');
        let end = existing.len() - usize::from(single);
        assert_eq!(removed(&text), existing[..end]);
    }
    // One behind an entry goes with the entry.
    assert_eq!(removed(&format!("hooks:\n  - a\n{plain}\r")), "hooks:\n  - a");
    assert_eq!(
        removed(&format!("hooks:\r\n  - a\r\n{crlf}")),
        "hooks:\r\n  - a"
    );
}

#[test]
fn a_file_with_nothing_to_change_stays_as_it_is() {
    let lines = |texts: &[&str]| -> Vec<String> { texts.iter().map(|t| t.to_string()).collect() };
    let cases = [
        (lines(&["hooks:", "  - a\r"]), vec![false, false]),
        (lines(&["hooks:", "  - a\r"]), vec![true, true]),
        (lines(&["hooks:", "  - a"]), vec![false, true]),
        (
            lines(&["a: 1", "hooks:", "  # c", "  - x", "", "  - y", "", "b: 2", ""]),
            vec![true, false, true, false, false, true, true, false, false],
        ),
    ];
    for (lines, crlf) in &cases {
        let block = parse_hooks_block(lines).unwrap().unwrap();
        let other = vec!["other".to_string()];
        assert_eq!(
            rebuild_file(lines, crlf, &block, &[], None, &other, false),
            join_lines(lines, crlf)
        );
    }
}

#[test]
fn blank_lines_and_comments_after_an_entry_are_the_users() {
    let cmd = expected_cmd();
    let entry = expected_entry(&cmd);
    let user = "  - type: http\n    url: x\n";
    // They do not make an entry out of date.
    for between in ["", "\n", "  # mine\n", "\n  # mine\n\n"] {
        let existing = format!("hooks:\n{entry}\n{between}{user}");
        assert_eq!(merge_hooks_entry(&existing, &cmd), Ok(None));
        assert_eq!(
            remove_hooks_entries(&existing),
            Ok(Some(format!("hooks:\n{between}{user}")))
        );
        // They stay behind an entry that is replaced.
        let stale =
            format!("hooks:\n  - type: command\n    command: git-ai checkpoint\n{between}{user}");
        assert_eq!(merge_hooks_entry(&stale, &cmd), Ok(Some(existing)));
    }
    // So do those after the last entry.
    let existing = format!("hooks:\n{user}{entry}\n  # mine\n\nb: 2\n");
    assert_eq!(merge_hooks_entry(&existing, &cmd), Ok(None));
    assert_eq!(
        removed(&existing),
        format!("hooks:\n{user}  # mine\n\nb: 2\n")
    );
    // A comment keeps the block.
    assert_eq!(
        removed(&format!("hooks:\n{entry}\n  # mine\n")),
        "hooks:\n  # mine\n"
    );
    // Blank lines between two entries of ours do not.
    assert_eq!(
        removed(&format!("a: 1\nhooks:\n{entry}\n\n{entry}\n\nb: 2\n")),
        "a: 1\n\nb: 2\n"
    );
}

#[test]
fn the_hooks_are_found_once_they_are_installed() {
    let stale = "x: 1\r\nhooks:\n  # c\n  - a: 1\n    command: old git-ai checkpoint\n\n  # d\n  - b: 2\r\n  - c: 3\n    command: git-ai checkpoint";
    for existing in ["", "a: 1", "hooks:\r\n", stale] {
        let text = installed(Some(existing), &expected_cmd());
        let found = |hooks: bool| {
            Ok(HookCheckResult {
                tool_installed: true,
                hooks_installed: hooks,
                hooks_up_to_date: hooks,
            })
        };
        assert_eq!(
            TraeCliInstaller.check_hooks(true, Some(&text), "/usr/local/bin/git-ai"),
            found(true)
        );
        assert_eq!(
            TraeCliInstaller.check_hooks(true, Some(&removed(&text)), "/usr/local/bin/git-ai"),
            found(false)
        );
    }
}

#[test]
fn lines_are_split_and_joined() {
    let (lines, crlf) = split_lines("a\r\nb\nc\r");
    assert_eq!(lines, vec!["a".to_string(), "b".to_string(), "c".to_string()]);
    assert_eq!(crlf, vec![true, false, true]);
    assert_eq!(join_lines(&lines, &[true, true, false]), "a\r\nb\r\nc");
    assert_eq!(join_lines(&lines, &[false, false, false]), "a\nb\nc");
    let (lines, crlf) = split_lines("");
    assert_eq!(lines, vec!["".to_string()]);
    assert_eq!(crlf, vec![false]);
    for text in [
        "",
        "a\n\nb\n",
        "a\r\nb\r\n",
        "a\r\nb\n",
        "a\nb\r\n",
        "a\r\r\nb\r\r",
        "c\r",
        "x",
    ] {
        let (lines, crlf) = split_lines(text);
        assert_eq!(join_lines(&lines, &crlf), text);
    }
}

#[test]
fn the_installer_plans_for_a_program() {
    let plan = TraeCliInstaller
        .install_hooks(None, "/usr/local/bin/git-ai", true)
        .unwrap();
    assert_eq!(
        plan,
        Some(ConfigEdit {
            before: String::new(),
            after: installed(None, &expected_cmd()),
            write: false,
        })
    );
    let text = plan.unwrap().after;
    assert_eq!(
        TraeCliInstaller.uninstall_hooks(Some(&text), true),
        Ok(Some(ConfigEdit {
            before: text.clone(),
            after: String::new(),
            write: false,
        }))
    );
    assert_eq!(TraeCliInstaller.uninstall_hooks(None, true), Ok(None));
    assert_eq!(TraeCliInstaller.process_names(), vec!["trae-cli"]);
}

#[test]
fn commands_are_recognised_by_their_words() {
    assert!(is_git_ai_checkpoint_command("'/x/git-ai' checkpoint trae"));
    assert!(!is_git_ai_checkpoint_command("git-ai status"));
    assert!(!is_git_ai_checkpoint_command("checkpoint"));
    assert!(!is_git_ai_checkpoint_command(""));
}
