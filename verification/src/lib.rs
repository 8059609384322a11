//! Batch renaming of the files in each sub-directory of a directory to
//! zero-padded sequential numbers, in natural order, and what the archiving
//! of such directories has to decide.
//!
//! The library holds the rules and leaves the file system to its caller:
//! `executor::listing` chooses what is to be renamed, `executor::natural`
//! and `executor::sorting` put it in order, `executor::numbering` names the
//! destinations, and `executor::rename` is the engine that directs the
//! renames one at a time and asks of every name it is about to use whether
//! it is free. `executor::tracking` and `executor::renumbering` state what
//! the engine does to a directory, and `executor::simulation` runs it on a
//! directory in memory. `executor::offsets` and `executor::paths` read
//! texts as bytes and as paths.

pub mod constants;
pub mod executor;
pub mod numeral;
pub mod params;
pub mod text;
pub mod validation;
pub mod validator;
