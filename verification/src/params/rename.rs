//! Options of the rename command.

use crate::text::views_of;
use crate::executor::numbering::Numbering;
use vstd::prelude::*;

verus! {

/// Params for rename subcommand.
pub struct RenameParams {
    /// Target directory.
    pub input_dir: String,
    /// Number of digits for renaming, from 1 to 6.
    pub digit: u8,
    /// Target file extensions, in lower case.
    pub extensions: Vec<String>,
    /// Initial number.
    pub initial: u32,
    /// Number of steps to count each file, at least 1.
    pub step: u8,
    /// Execute immediately or not.
    pub yes: bool,
}

impl RenameParams {
    /// What the command line lets through: one to six digits, a step of at
    /// least one, and at least one extension, none of them empty.
    pub open spec fn valid(&self) -> bool {
        &&& 1 <= self.digit <= 6
        &&& self.step >= 1
        &&& self.extensions.len() >= 1
        &&& forall|i: int|
            0 <= i < self.extensions.len() ==> (#[trigger] views_of(
                self.extensions@,
            )[i]).len() > 0
    }

    /// The numbering scheme that the options ask for.
    pub fn numbering(&self) -> (numbering: Numbering)
        ensures
            numbering == (Numbering { digit: self.digit, initial: self.initial, step: self.step }),
    {
        Numbering { digit: self.digit, initial: self.initial, step: self.step }
    }
}

} // verus!
