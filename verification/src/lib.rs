//! A small version-control engine: a content-addressed object store, trees
//! and commits written as text, branches, a staging area, history, and a
//! line-by-line diff against the last commit.
//!
//! The engine works in memory and on plain values. Its operations are
//! stated over a mathematical model of the repository (`model`), and what
//! holds of them together is proved in `laws`.

pub mod codec;
pub mod diff;
pub mod hash;
pub mod laws;
pub mod model;
pub mod path;
pub mod repository;
pub mod store;
pub mod table;
pub mod text;
pub mod time;

pub use crate::diff::diff_strings;
pub use crate::model::{Branch, Commit, RepoError, WorkingFile};
pub use crate::repository::Repository;
pub use crate::store::{object_location, ObjectStore};
pub use crate::time::Timestamp;
