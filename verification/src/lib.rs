//! Renumber: a library for renaming `<index>-<name>` files to sequential,
//! zero-padded indices.
//!
//! The library parses filenames of the shape `<digits>-<digits>-...-<rest>`
//! into a numeric sort key plus a residual name, orders the parsed entries
//! lexicographically by key, computes a zero-padded index width, and produces
//! one rename intent per entry. Filesystem access and command-line handling
//! live outside the library; the library itself is pure.

pub mod digits;
pub mod engine;
pub mod extract;
pub mod keys;
pub mod laws;

pub use engine::{parse_entry, plan_action, reindex, Config, PlannedAction, RenameIntent};
pub use extract::extract_index_from_file_name;
pub use keys::IndexedFileName;
pub use keys::KeyOrder;
