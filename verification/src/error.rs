//! The errors that the library reports.
use vstd::prelude::*;

verus! {

/// Why an operation was refused.
#[derive(Debug, PartialEq, Eq)]
pub enum GitAiError {
    /// A configuration file that cannot be edited safely.
    Generic(String),
    /// A hook payload that cannot be used.
    PresetError(String),
    /// Text that is not JSON, with what is wrong with it.
    JsonError(String),
}

} // verus!
