pub mod compress;
pub mod directory;
pub mod human;
pub mod listing;
pub mod natural;
pub mod numbering;
pub mod offsets;
pub mod paths;
pub mod rename;
pub mod renumbering;
pub mod simulation;
pub mod sorting;
pub mod tracking;
pub mod utils;
