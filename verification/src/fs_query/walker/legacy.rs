//! The portable walker.
use crate::errors::{ErrorView, SubstrateError};
use crate::fs_query::walker::{DirEntry, WalkedView};
use vstd::prelude::*;

verus! {

/// Walks a tree through a portable iterator. A failure at one entry is passed on and
/// the walk goes on.
#[derive(Debug, Clone, Copy)]
pub struct LegacyWalker;

impl Default for LegacyWalker {
    fn default() -> (r: LegacyWalker)
        ensures
            r == LegacyWalker,
    {
        LegacyWalker
    }
}

impl LegacyWalker {
    /// Makes a walker.
    pub fn new() -> (r: LegacyWalker)
        ensures
            r == LegacyWalker,
    {
        LegacyWalker
    }

    /// What is emitted for an entry: `regular_size` is the size that the metadata
    /// report, where they can be read, and whether the file is regular.
    pub fn entry(&self, path: Vec<u8>, is_dir: bool, regular_size: Option<(bool, u64)>) -> (r:
        DirEntry)
        ensures
            r@ == (WalkedView {
                path: path@,
                is_dir,
                size_bytes: match regular_size {
                    Some((true, n)) => Some(n),
                    _ => None,
                },
            }),
    {
        let size_bytes = match regular_size {
            Some((is_file, n)) => if is_file {
                Some(n)
            } else {
                None
            },
            None => None,
        };
        DirEntry { path, is_dir, size_bytes }
    }

    /// What is emitted for an entry that the iterator fails at.
    pub fn failure(&self, message: String) -> (r: SubstrateError)
        ensures
            r@ == (ErrorView::IoError { path: message@, tagged: false }),
    {
        SubstrateError::IoError { path: message, correlation_id: None }
    }
}

} // verus!
