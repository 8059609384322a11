//! Names shared by the commands.

use vstd::prelude::*;

verus! {

/// The format name, file extension and program name of rar archives.
pub const RAR_EXTENSION: &'static str = "rar";

/// The format name and file extension of zip archives.
pub const ZIP_EXTENSION: &'static str = "zip";

} // verus!
