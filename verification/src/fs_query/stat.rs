//! `fs.stat`: the metadata of one path, without following a link.
use crate::codec::{datetime_text, display_datetime, rfc3339_text};
use crate::errors::{fresh_correlation_id, ErrorView, SubstrateError};
use crate::fs_query::find::{format_unix_secs, shown_time};
use crate::fs_query::hint_helpers::{build_hints, read_hints};
use crate::fs_query::io_failure::FileKind;
use crate::fs_query::response::{Capabilities, HintsView, ToolResponse};
use crate::fs_query::stat_factory::FileStat;
use crate::fs_query::symlink_chain::{DispositionView, SymlinkDisposition};
use crate::text;
use vstd::prelude::*;

verus! {

/// A request of `fs.stat`.
#[derive(Debug)]
pub struct FsStatRequest {
    /// The path to look at.
    pub path: String,
}

/// What a file is called in answers.
pub open spec fn stat_kind(is_symlink: bool, is_dir: bool, is_file: bool) -> Seq<char> {
    if is_symlink {
        "symlink"@
    } else if is_dir {
        "directory"@
    } else if is_file {
        "file"@
    } else {
        "special"@
    }
}

/// What a file is called in answers.
pub fn kind_name(is_symlink: bool, is_dir: bool, is_file: bool) -> (r: &'static str)
    ensures
        r@ == stat_kind(is_symlink, is_dir, is_file),
        is_symlink ==> r@ == "symlink"@,
        !is_symlink && is_dir ==> r@ == "directory"@,
        !is_symlink && !is_dir && is_file ==> r@ == "file"@,
        !is_symlink && !is_dir && !is_file ==> r@ == "special"@,
{
    if is_symlink {
        "symlink"
    } else if is_dir {
        "directory"
    } else if is_file {
        "file"
    } else {
        "special"
    }
}

/// How the time of a file is shown: a time beyond the calendar as the epoch. The
/// epoch itself lies within the calendar.
pub open spec fn shown_datetime(secs: i64) -> Option<Seq<char>> {
    match datetime_text(secs) {
        Some(t) => Some(t),
        None => datetime_text(0),
    }
}

/// Shows the time of a file.
fn show_datetime(secs: i64) -> (r: Option<String>)
    ensures
        crate::fs_query::response::text_of(r) == shown_datetime(secs),
        match datetime_text(secs) {
            Some(t) => r matches Some(x) && x@ == t,
            None => match datetime_text(0) {
                Some(t) => r matches Some(x) && x@ == t,
                None => r is None,
            },
        },
{
    match display_datetime(secs) {
        Some(t) => Some(t),
        None => display_datetime(0),
    }
}

/// The payload of an answer of `fs.stat`.
#[derive(Debug)]
pub struct StatContent {
    pub path: String,
    pub size_bytes: u64,
    pub is_dir: bool,
    pub is_file: bool,
    pub is_symlink: bool,
    pub kind: &'static str,
    pub modified_at: Option<String>,
    pub accessed_at: Option<String>,
}

/// The text that goes with an answer.
pub open spec fn stat_summary(kind: Seq<char>, path: Seq<char>) -> Seq<char> {
    "USE: retrieve single-path metadata\nDOES: stat of "@ + kind + (" at '"@ + path
        + "'\nNEXT: fs.read, fs.hash\nAVOID: stat in a loop → use fs.read_dir"@)
}

/// The hints that go with an answer.
pub open spec fn stat_hints(caps: Capabilities) -> HintsView {
    read_hints(
        Some("fs.read"@),
        Some("fs.hash"@),
        Some("Use fs.read_dir for bulk metadata of directory children"@),
        caps,
        false,
    )
}

/// Puts an answer together.
fn respond(payload: StatContent, caps: &Capabilities) -> (r: ToolResponse<StatContent>)
    ensures
        r.structured_content == payload,
        r.content@ == stat_summary(payload.kind@, payload.path@),
        r.hints@ == stat_hints(*caps),
        r.hints@.next_action_suggested == Some("fs.read"@),
        r.hints@.alternative_tool == Some("fs.hash"@),
        r.hints@.error_recovery == Some(
                "Use fs.read_dir for bulk metadata of directory children"@,
            ),
        r.hints@.confirm_destructive == Some(false),
        r.hints@.simd_tier_used == Some(caps.simd_tier.label()),
        r.hints@.walker_tier_used == None::<Seq<char>>,
        r.content@ == "USE: retrieve single-path metadata\nDOES: stat of "@ + payload.kind@ + (
        " at '"@ + payload.path@
            + "'\nNEXT: fs.read, fs.hash\nAVOID: stat in a loop → use fs.read_dir"@),
{
    let tail = text::cat3(
        " at '",
        payload.path.as_str(),
        "'\nNEXT: fs.read, fs.hash\nAVOID: stat in a loop → use fs.read_dir",
    );
    let content = text::cat3(
        "USE: retrieve single-path metadata\nDOES: stat of ",
        payload.kind,
        tail.as_str(),
    );
    let hints = build_hints(
        Some("fs.read"),
        Some("fs.hash"),
        Some("Use fs.read_dir for bulk metadata of directory children"),
        caps,
        false,
    );
    ToolResponse::with_hints(content, payload, hints)
}

/// The answer of `fs.stat` for the metadata that a statter read.
pub fn stat_response(req: FsStatRequest, stat: &FileStat, caps: &Capabilities) -> (r: ToolResponse<
    StatContent,
>)
    ensures
        ({
            let p = r.structured_content;
            let kind = stat_kind(stat.is_symlink, stat.is_dir, stat.is_file);
            &&& p.path == req.path
            &&& p.size_bytes == stat.size_bytes
            &&& p.is_dir == stat.is_dir
            &&& p.is_file == stat.is_file
            &&& p.is_symlink == stat.is_symlink
            &&& p.kind@ == kind
            &&& crate::fs_query::response::text_of(p.modified_at) == shown_datetime(stat.modified_at)
            &&& crate::fs_query::response::text_of(p.accessed_at) == shown_datetime(stat.accessed_at)
            &&& r.content@ == stat_summary(kind, req.path@)
            &&& r.hints@ == stat_hints(*caps)
        }),
        ({
            let p = r.structured_content;
            &&& datetime_text(stat.modified_at) matches Some(t) ==> p.modified_at matches Some(x)
                && x@ == t
            &&& datetime_text(stat.accessed_at) matches Some(t) ==> p.accessed_at matches Some(x)
                && x@ == t
            &&& stat.is_symlink ==> p.kind@ == "symlink"@
            &&& !stat.is_symlink && stat.is_dir ==> p.kind@ == "directory"@
            &&& !stat.is_symlink && !stat.is_dir && stat.is_file ==> p.kind@ == "file"@
            &&& !stat.is_symlink && !stat.is_dir && !stat.is_file ==> p.kind@ == "special"@
        }),
{
    let payload = StatContent {
        path: req.path,
        size_bytes: stat.size_bytes,
        is_dir: stat.is_dir,
        is_file: stat.is_file,
        is_symlink: stat.is_symlink,
        kind: kind_name(stat.is_symlink, stat.is_dir, stat.is_file),
        modified_at: show_datetime(stat.modified_at),
        accessed_at: show_datetime(stat.accessed_at),
    };
    respond(payload, caps)
}

/// The metadata of a symbolic link itself. Times are in seconds since the Unix
/// epoch, where they are known and not before it.
#[derive(Debug, Clone, Copy)]
pub struct LinkStat {
    pub kind: FileKind,
    pub size_bytes: u64,
    pub modified_secs: Option<u64>,
    pub accessed_secs: Option<u64>,
}

/// How the time of a link is shown: an unknown time as the epoch.
pub open spec fn shown_link_time(secs: Option<u64>) -> Seq<char> {
    match secs {
        Some(t) => shown_time(t),
        None => "1970-01-01T00:00:00Z"@,
    }
}

/// Shows the time of a link.
fn show_link_time(secs: Option<u64>) -> (r: String)
    ensures
        r@ == shown_link_time(secs),
        secs matches Some(t) ==> (rfc3339_text(t as i64) matches Some(Some(s)) ==> r@ == s),
        secs is None ==> r@ == "1970-01-01T00:00:00Z"@,
{
    match secs {
        Some(t) => format_unix_secs(t),
        None => "1970-01-01T00:00:00Z".to_owned(),
    }
}

/// The answer of `fs.stat` for a link that stays within the roots: the link's own
/// metadata.
pub fn serve_lstat_response(lstat: &LinkStat, req: FsStatRequest, caps: &Capabilities) -> (r:
    ToolResponse<StatContent>)
    ensures
        ({
            let p = r.structured_content;
            let is_symlink = lstat.kind == FileKind::Symlink;
            let is_dir = lstat.kind == FileKind::Directory;
            let is_file = lstat.kind == FileKind::Regular;
            &&& p.path == req.path
            &&& p.size_bytes == lstat.size_bytes
            &&& p.is_dir == is_dir
            &&& p.is_file == is_file
            &&& p.is_symlink == is_symlink
            &&& p.kind@ == stat_kind(is_symlink, is_dir, is_file)
            &&& crate::fs_query::response::text_of(p.modified_at) == Some(
                shown_link_time(lstat.modified_secs),
            )
            &&& crate::fs_query::response::text_of(p.accessed_at) == Some(
                shown_link_time(lstat.accessed_secs),
            )
            &&& r.content@ == stat_summary(stat_kind(is_symlink, is_dir, is_file), req.path@)
            &&& r.hints@ == stat_hints(*caps)
        }),
        ({
            let p = r.structured_content;
            &&& lstat.kind == FileKind::Symlink ==> p.kind@ == "symlink"@
            &&& lstat.kind == FileKind::Directory ==> p.kind@ == "directory"@
            &&& lstat.kind == FileKind::Regular ==> p.kind@ == "file"@
            &&& lstat.modified_secs matches Some(t) ==> (rfc3339_text(t as i64) matches Some(Some(s))
                ==> p.modified_at matches Some(x) && x@ == s)
            &&& lstat.accessed_secs matches Some(t) ==> (rfc3339_text(t as i64) matches Some(Some(s))
                ==> p.accessed_at matches Some(x) && x@ == s)
            &&& lstat.modified_secs is None ==> (p.modified_at matches Some(x) && x@
                == "1970-01-01T00:00:00Z"@)
            &&& lstat.accessed_secs is None ==> (p.accessed_at matches Some(x) && x@
                == "1970-01-01T00:00:00Z"@)
        }),
{
    let is_symlink = lstat.kind == FileKind::Symlink;
    let is_dir = lstat.kind == FileKind::Directory;
    let is_file = lstat.kind == FileKind::Regular;
    let payload = StatContent {
        path: req.path,
        size_bytes: lstat.size_bytes,
        is_dir,
        is_file,
        is_symlink,
        kind: kind_name(is_symlink, is_dir, is_file),
        modified_at: Some(show_link_time(lstat.modified_secs)),
        accessed_at: Some(show_link_time(lstat.accessed_secs)),
    };
    respond(payload, caps)
}

/// What a link that the jail refuses comes to: the answer to it, or nothing where
/// the link's own metadata are served.
pub open spec fn escape_answer(d: DispositionView, path: Seq<char>) -> Option<ErrorView> {
    match d {
        DispositionView::Broken => Some(ErrorView::NotFound { resource: path, tagged: true }),
        DispositionView::Internal { .. } => None,
        DispositionView::Escape => Some(ErrorView::SymlinkEscape { path, tagged: true }),
    }
}

/// Answers a link that the jail refuses, once it is known where it leads. `lstat` is
/// what the link itself is.
pub fn handle_symlink_escape(
    disposition: SymlinkDisposition,
    lstat: &LinkStat,
    req: FsStatRequest,
    caps: &Capabilities,
) -> (r: Result<ToolResponse<StatContent>, SubstrateError>)
    ensures
        match escape_answer(disposition@, req.path@) {
            Some(e) => r matches Err(x) && x@ == e,
            None => {
                &&& r matches Ok(t)
                &&& t.structured_content.path == req.path
                &&& t.structured_content.size_bytes == lstat.size_bytes
                &&& t.structured_content.is_symlink == (lstat.kind == FileKind::Symlink)
                &&& t.structured_content.is_dir == (lstat.kind == FileKind::Directory)
                &&& t.structured_content.is_file == (lstat.kind == FileKind::Regular)
                &&& t.structured_content.kind@ == stat_kind(
                    lstat.kind == FileKind::Symlink,
                    lstat.kind == FileKind::Directory,
                    lstat.kind == FileKind::Regular,
                )
                &&& crate::fs_query::response::text_of(t.structured_content.modified_at) == Some(
                    shown_link_time(lstat.modified_secs),
                )
                &&& crate::fs_query::response::text_of(t.structured_content.accessed_at) == Some(
                    shown_link_time(lstat.accessed_secs),
                )
                &&& t.content@ == stat_summary(t.structured_content.kind@, req.path@)
                &&& t.hints@ == stat_hints(*caps)
            },
        },
        disposition is Broken ==> (r matches Err(e) && e@ == (ErrorView::NotFound {
            resource: req.path@,
            tagged: true,
        })),
        disposition is Escape ==> (r matches Err(e) && e@ == (ErrorView::SymlinkEscape {
            path: req.path@,
            tagged: true,
        })),
        disposition is Internal ==> r is Ok,
{
    match disposition {
        SymlinkDisposition::Broken => Err(
            SubstrateError::NotFound {
                resource: req.path,
                correlation_id: Some(fresh_correlation_id()),
            },
        ),
        SymlinkDisposition::Internal { .. } => Ok(serve_lstat_response(lstat, req, caps)),
        SymlinkDisposition::Escape => Err(
            SubstrateError::SymlinkEscape {
                path: req.path,
                correlation_id: Some(fresh_correlation_id()),
            },
        ),
    }
}

/// What becomes of a path that the jail refuses because of a symbolic link, judged by
/// what the path itself is: nothing there counts as an escape, a link has to be
/// followed, and anything else is within the roots.
#[derive(Debug, Clone, Copy, PartialEq, Eq, Structural)]
pub enum EscapeStart {
    Escaped,
    Follow,
    Within,
}

/// Judges a path that the jail refuses because of a symbolic link, by what the path
/// itself is, where that can be read.
pub fn escape_start(kind: Option<FileKind>) -> (r: EscapeStart)
    ensures
        r == (match kind {
            None => EscapeStart::Escaped,
            Some(FileKind::Symlink) => EscapeStart::Follow,
            Some(_) => EscapeStart::Within,
        }),
{
    match kind {
        None => EscapeStart::Escaped,
        Some(FileKind::Symlink) => EscapeStart::Follow,
        Some(_) => EscapeStart::Within,
    }
}

} // verus!
