//! The options of the commands, as the command line gives them.

pub mod compress;
pub mod convert;
pub mod rename;

use crate::executor::numbering::Numbering;
use vstd::prelude::*;

verus! {

/// Options of a renaming run whose numbers fit one byte.
pub struct RenameParams {
    /// Target directory.
    pub input_dir: String,
    /// Number of digits for renaming.
    pub digit: u8,
    /// Target file extensions.
    pub extensions: Vec<String>,
    /// Initial number.
    pub initial: u8,
    /// Number of steps to count each file.
    pub step: u8,
    /// Execute immediately or not.
    pub yes: bool,
}

impl RenameParams {
    /// The numbering scheme that the options ask for.
    pub fn numbering(&self) -> (numbering: Numbering)
        ensures
            numbering == (Numbering {
                digit: self.digit,
                initial: self.initial as u32,
                step: self.step,
            }),
    {
        Numbering { digit: self.digit, initial: self.initial as u32, step: self.step }
    }
}

/// Options of a compression run with rar.
pub struct CompressParams {
    /// Input directory.
    pub input_dir: String,
    /// Output directory.
    pub output_dir: Option<String>,
    /// Compress file format type.
    pub format_type: String,
    /// Check the compressed file is not corrupted after the file was created.
    pub validate: bool,
    /// Just check the compressed file is not corrupted.
    pub validate_only: bool,
    /// Execute immediately or not.
    pub yes: bool,
}

} // verus!
