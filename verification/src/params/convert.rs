//! Options of the convert command.

use vstd::prelude::*;

verus! {

/// Params for convert subcommand.
pub struct ConvertParams {
    /// Target directory.
    pub input_dir: String,
    /// File type to be converted to.
    pub convert_to: String,
    /// Execute immediately or not.
    pub yes: bool,
}

} // verus!
