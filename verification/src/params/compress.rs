//! Options of the compress command.

use vstd::prelude::*;

verus! {

/// Params for compress subcommand.
pub struct CompressParams {
    /// Input directory.
    pub input_dir: String,
    /// Output directory.
    pub output_dir: Option<String>,
    /// Compress file format type.
    pub format_type: String,
    /// Check the compressed file is not corrupted after the file was created.
    pub validate: bool,
    /// Just check the compressed file is not corrupted.
    pub validate_only: bool,
    /// Execute immediately or not.
    pub yes: bool,
}

} // verus!
