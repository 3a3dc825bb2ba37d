//! What the operating system reports of files and of failures, and how failures
//! are answered.
use crate::errors::{fresh_correlation_id, ErrorView, SubstrateError};
use vstd::prelude::*;

verus! {

/// Why an access to the file system failed.
#[derive(Debug, Clone, Copy, PartialEq, Eq, Structural)]
pub enum IoFailure {
    NotFound,
    PermissionDenied,
    Other,
}

/// What kind of file a path names.
#[derive(Debug, Clone, Copy, PartialEq, Eq, Structural)]
pub enum FileKind {
    Regular,
    Directory,
    Symlink,
    Fifo,
    Socket,
    BlockDevice,
    CharDevice,
    Special,
}

/// What a failed access to `path` is answered with.
pub open spec fn io_answer(failure: IoFailure, path: Seq<char>, tagged: bool) -> ErrorView {
    match failure {
        IoFailure::NotFound => ErrorView::NotFound { resource: path, tagged },
        IoFailure::PermissionDenied => ErrorView::PermissionDenied { path, tagged },
        IoFailure::Other => ErrorView::IoError { path, tagged },
    }
}

/// Maps a failed access to `path`; a tagged answer carries a correlation id.
pub fn map_io_err(failure: IoFailure, path: &str, tagged: bool) -> (r: SubstrateError)
    ensures
        r@ == io_answer(failure, path@, tagged),
        failure is NotFound ==> r@ == (ErrorView::NotFound { resource: path@, tagged }),
        failure is PermissionDenied ==> r@ == (ErrorView::PermissionDenied { path: path@, tagged }),
        failure is Other ==> r@ == (ErrorView::IoError { path: path@, tagged }),
{
    let correlation_id = if tagged {
        Some(fresh_correlation_id())
    } else {
        None
    };
    match failure {
        IoFailure::NotFound => SubstrateError::NotFound { resource: path.to_owned(), correlation_id },
        IoFailure::PermissionDenied => SubstrateError::PermissionDenied {
            path: path.to_owned(),
            correlation_id,
        },
        IoFailure::Other => SubstrateError::IoError { path: path.to_owned(), correlation_id },
    }
}

} // verus!
