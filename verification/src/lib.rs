//! Root quarantine: moves everything under a root directory that is not
//! protected by a keep set into a numbered generation directory, and prunes
//! old generations.
//!
//! The crate holds the decisions only. Listing directories, reading
//! permission bits, creating directories, renaming and deleting are left to
//! the caller, which feeds what it observed to the functions here and carries
//! out what they return.

pub mod decode;
pub mod generation;
pub mod keep;
pub mod listing;
pub mod mover;
pub mod path;
pub mod rebase;
pub mod retention;
pub mod walk;
