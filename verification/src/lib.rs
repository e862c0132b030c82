//! Strips the leading zeros from file names: normalizes a name, puts a
//! directory listing in order, and plans the moves that carry each listed
//! file to its new name in an output directory.

pub mod normalize;
pub mod ordering;
pub mod paths;
pub mod renaming;

pub use normalize::trim_leading_zeros;
pub use ordering::{precedes, sort_paths};
pub use renaming::{derive_renamings, try_derive_renamings, NoFileName, Renaming};
