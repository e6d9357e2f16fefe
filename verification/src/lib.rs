//! Compaction and versioning engine of a log-structured merge-tree key-value
//! store: which table files are live at which level, when and how data moves
//! from the write buffer to level 0 and from level to level, what a merge
//! keeps and what it drops, and how all of it is rebuilt from the manifest and
//! the write-ahead logs when the database is opened again.
//!
//! The engine decides and keeps the books; reading and writing files is left
//! to its caller, who is told what to do in plain values.

pub mod types;
pub mod env_common;
pub mod key_types;
pub mod version;
pub mod version_edit;
pub mod compaction;
pub mod drop_rules;
pub mod version_set;
pub mod filenames;
pub mod snapshot;
pub mod db_impl;
pub mod write_batch;
pub mod vec_iter;
