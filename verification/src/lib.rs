//! Hooks that record what coding agents do: the payloads that the hooks of TRAE
//! hand over, and the installation of hooks in the configuration files of the
//! TRAE CLI and of ZCode.
//!
//! Nothing here touches a file. An installer takes what a configuration file
//! holds and returns the change to make, and a caller reads and writes.
pub mod block_shape;
pub mod entry_edits;
pub mod error;
pub mod hooks_block;
pub mod hooks_block_laws;
pub mod installer;
pub mod json;
pub mod json_laws;
pub mod lines;
pub mod text;
pub mod text_laws;
pub mod trae;
pub mod trae_cli;
pub mod trae_cli_kept;
pub mod trae_cli_laws;
pub mod trae_cli_outcomes;
pub mod trae_cli_undo;
pub mod trae_laws;
pub mod zcode;
pub mod zcode_files;
pub mod zcode_laws;
pub mod zcode_outcomes;
pub mod zcode_reread;
