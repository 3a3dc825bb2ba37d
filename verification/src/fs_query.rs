//! Read-only file-system tools: find, read, read_dir, hash and stat.
//!
//! Each tool is a plan made from its request, the decisions taken on what the
//! operating system reports, and the answer. Reading the disk is the caller's.
pub mod find;
pub mod hash;
pub mod hash_factory;
pub mod hint_helpers;
pub mod io_failure;
pub mod read;
pub mod read_dir;
pub mod response;
pub mod stat;
pub mod stat_factory;
pub mod symlink_chain;
pub mod walker;
pub mod walker_factory;
