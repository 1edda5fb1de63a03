# agent_hooks

Hooks that record what coding agents do.

- `src/trae.rs` turns a payload that a TRAE hook hands over into the events that
  it reports.
- `src/trae_cli.rs` and `src/hooks_block.rs` install and remove the hook in the
  `hooks:` block of `~/.trae/trae_cli.yaml`, line by line.
- `src/zcode.rs` does the same in `~/.zcode/cli/config.json`.
- `src/trae_cli_laws.rs`, `src/trae_cli_kept.rs`, `src/trae_cli_undo.rs`,
  `src/zcode_laws.rs` and `src/zcode_files.rs` state and prove what the
  installers promise as a whole: a second installation has nothing to do, one
  hook is left and is found, other content is kept, and removing undoes
  installing.
- `src/block_shape.rs` and `src/entry_edits.rs` hold the proofs of how a file
  with a `hooks:` block comes apart and what becomes of it when its entries are
  edited, `src/zcode_reread.rs` those of how a JSON configuration reads after it
  was written.
- `src/json.rs` holds the JSON values, which `serde_json` reads and writes.
- `src/text.rs` and `src/lines.rs` hold text and lines, each with its own
  ending.
- `app/` reads and writes the files.
