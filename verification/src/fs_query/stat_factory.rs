//! File metadata: how each platform's report is read, and the choice of the tier.
use crate::bytes::{le_value, read_le};
use crate::codec::{datetime_text, display_datetime};
use crate::errors::{ErrorView, SubstrateError};
use crate::fs_query::io_failure::FileKind;
use crate::fs_query::response::{Capabilities, Platform, StatTier};
use vstd::prelude::*;

verus! {

/// The metadata of a file, without following a link. Times are in seconds since the
/// Unix epoch.
#[derive(Debug, Clone, Copy)]
pub struct FileStat {
    pub size_bytes: u64,
    pub is_dir: bool,
    pub is_file: bool,
    pub is_symlink: bool,
    pub modified_at: i64,
    pub accessed_at: i64,
}

/// What metadata says of a kind of file.
pub open spec fn stat_of(size_bytes: u64, kind: FileKind, modified_at: i64, accessed_at: i64) -> FileStat {
    FileStat {
        size_bytes,
        is_dir: kind == FileKind::Directory,
        is_file: kind == FileKind::Regular,
        is_symlink: kind == FileKind::Symlink,
        modified_at,
        accessed_at,
    }
}

/// A time from the epoch on; an unknown or earlier time counts as the epoch.
pub open spec fn epoch_or_later(secs: Option<i64>) -> i64 {
    match secs {
        Some(t) => if t < 0 {
            0
        } else {
            t
        },
        None => 0,
    }
}

/// A time from the epoch on; an unknown or earlier time counts as the epoch.
fn clamp_time(secs: Option<i64>) -> (r: i64)
    ensures
        r == epoch_or_later(secs),
        r >= 0,
        secs matches Some(t) ==> t >= 0 ==> r == t,
        secs matches Some(t) ==> t < 0 ==> r == 0,
        secs is None ==> r == 0,
{
    match secs {
        Some(t) => if t < 0 {
            0
        } else {
            t
        },
        None => 0,
    }
}

/// A time within the calendar; one beyond it counts as the epoch.
pub open spec fn calendar_time(secs: i64) -> i64 {
    if datetime_text(secs) is Some {
        secs
    } else {
        0
    }
}

/// A time within the calendar; one beyond it counts as the epoch.
fn secs_to_datetime(secs: i64) -> (r: i64)
    ensures
        r == calendar_time(secs),
        datetime_text(secs) is Some ==> r == secs,
        datetime_text(secs) is None ==> r == 0,
{
    in_calendar(secs, display_datetime(secs))
}

/// A time that is displayed as `shown`; one that cannot be displayed counts as the epoch.
pub fn in_calendar(secs: i64, shown: Option<String>) -> (r: i64)
    ensures
        r == (if shown is Some {
            secs
        } else {
            0
        }),
{
    match shown {
        Some(_) => secs,
        None => 0,
    }
}

// ---- Portable tier ---------------------------------------------------------

/// Reads metadata through the standard library.
#[derive(Debug, Clone, Copy)]
pub struct PortableStatter;

impl Default for PortableStatter {
    fn default() -> (r: PortableStatter)
        ensures
            r == PortableStatter,
    {
        PortableStatter
    }
}

impl PortableStatter {
    /// Makes a statter.
    pub fn new() -> (r: PortableStatter)
        ensures
            r == PortableStatter,
    {
        PortableStatter
    }

    /// The metadata that the standard library reports.
    pub fn stat(
        &self,
        size_bytes: u64,
        kind: FileKind,
        modified: Option<i64>,
        accessed: Option<i64>,
    ) -> (r: FileStat)
        ensures
            r == stat_of(
                size_bytes,
                kind,
                calendar_time(epoch_or_later(modified)),
                calendar_time(epoch_or_later(accessed)),
            ),
            r.size_bytes == size_bytes,
            r.is_dir == (kind == FileKind::Directory),
            r.is_file == (kind == FileKind::Regular),
            r.is_symlink == (kind == FileKind::Symlink),
            modified matches Some(t) ==> t >= 0 && datetime_text(t) is Some ==> r.modified_at == t,
            accessed matches Some(t) ==> t >= 0 && datetime_text(t) is Some ==> r.accessed_at == t,
            modified matches Some(t) ==> t < 0 || datetime_text(t) is None ==> r.modified_at == 0,
            accessed matches Some(t) ==> t < 0 || datetime_text(t) is None ==> r.accessed_at == 0,
            modified is None ==> r.modified_at == 0,
            accessed is None ==> r.accessed_at == 0,
    {
        FileStat {
            size_bytes,
            is_dir: kind == FileKind::Directory,
            is_file: kind == FileKind::Regular,
            is_symlink: kind == FileKind::Symlink,
            modified_at: secs_to_datetime(clamp_time(modified)),
            accessed_at: secs_to_datetime(clamp_time(accessed)),
        }
    }
}

// ---- Failures of the system calls -------------------------------------------

/// No such file or directory.
pub const ENOENT: i32 = 2;

/// Operation not permitted.
pub const EPERM: i32 = 1;

/// Permission denied.
pub const EACCES: i32 = 13;

/// Too many symbolic links on Linux.
pub const LINUX_ELOOP: i32 = 40;

/// Too many symbolic links on macOS.
pub const MACOS_ELOOP: i32 = 62;

/// The error number of a circle of symbolic links.
pub open spec fn loop_errno(platform: Platform) -> i32 {
    match platform {
        Platform::Macos => MACOS_ELOOP,
        _ => LINUX_ELOOP,
    }
}

/// What a failed metadata call is answered with.
pub open spec fn errno_answer(errno: i32, platform: Platform, path: Seq<char>) -> ErrorView {
    if errno == ENOENT {
        ErrorView::NotFound { resource: path, tagged: false }
    } else if errno == EACCES || errno == EPERM {
        ErrorView::PermissionDenied { path, tagged: false }
    } else if errno == loop_errno(platform) {
        ErrorView::SymlinkLoop { path, tagged: false }
    } else {
        ErrorView::IoError { path, tagged: false }
    }
}

/// Maps the error number of a failed metadata call.
pub fn stat_errno(errno: i32, platform: Platform, path: &str) -> (r: SubstrateError)
    ensures
        r@ == errno_answer(errno, platform, path@),
        errno == 2 ==> r@ == (ErrorView::NotFound { resource: path@, tagged: false }),
        errno == 13 || errno == 1 ==> r@ == (ErrorView::PermissionDenied {
            path: path@,
            tagged: false,
        }),
        errno == 40 && platform != Platform::Macos || errno == 62 && platform == Platform::Macos
            ==> r@ == (ErrorView::SymlinkLoop { path: path@, tagged: false }),
        errno != 2 && errno != 13 && errno != 1 && errno != (if platform == Platform::Macos {
            62i32
        } else {
            40i32
        }) ==> r@ == (ErrorView::IoError { path: path@, tagged: false }),
{
    let eloop: i32 = match platform {
        Platform::Macos => MACOS_ELOOP,
        _ => LINUX_ELOOP,
    };
    let path = path.to_owned();
    if errno == ENOENT {
        SubstrateError::NotFound { resource: path, correlation_id: None }
    } else if errno == EACCES || errno == EPERM {
        SubstrateError::PermissionDenied { path, correlation_id: None }
    } else if errno == eloop {
        SubstrateError::SymlinkLoop { path, correlation_id: None }
    } else {
        SubstrateError::IoError { path, correlation_id: None }
    }
}

/// What a path that cannot be handed to a system call is answered with.
pub open spec fn interior_nul() -> ErrorView {
    ErrorView::EncodingError { detail: "path contains an interior NUL byte"@, tagged: false }
}

/// Whether a path can be handed to a system call: no byte of it is zero.
pub fn check_c_path(path: &[u8]) -> (r: Result<(), SubstrateError>)
    ensures
        r is Ok <==> !path@.contains(0u8),
        r matches Err(e) ==> e@ == interior_nul(),
        r matches Err(e) ==> e@ == (ErrorView::EncodingError {
            detail: "path contains an interior NUL byte"@,
            tagged: false,
        }),
{
    let mut i: usize = 0;
    while i < path.len()
        invariant
            i <= path@.len(),
            forall|j: int| 0 <= j < i ==> path@[j] != 0u8,
        decreases path@.len() - i,
    {
        if path[i] == 0 {
            assert(path@[i as int] == 0u8);
            return Err(
                SubstrateError::EncodingError {
                    detail: "path contains an interior NUL byte".to_owned(),
                    correlation_id: None,
                },
            );
        }
        i = i + 1;
    }
    Ok(())
}

// ---- Linux tier ------------------------------------------------------------

/// The bits of a mode that hold the file type.
pub const S_IFMT: u32 = 0o17_0000;

/// The type of a directory.
pub const S_IFDIR: u32 = 0o04_0000;

/// The type of a regular file.
pub const S_IFREG: u32 = 0o10_0000;

/// The type of a symbolic link.
pub const S_IFLNK: u32 = 0o12_0000;

/// Reads metadata with `statx`.
#[derive(Debug, Clone, Copy)]
pub struct LinuxStatter;

impl Default for LinuxStatter {
    fn default() -> (r: LinuxStatter)
        ensures
            r == LinuxStatter,
    {
        LinuxStatter
    }
}

impl LinuxStatter {
    /// Makes a statter.
    pub fn new() -> (r: LinuxStatter)
        ensures
            r == LinuxStatter,
    {
        LinuxStatter
    }

    /// The metadata that `statx` reports: the file type is in the mode.
    pub fn stat(&self, mode: u16, size_bytes: u64, mtime: i64, atime: i64) -> (r: FileStat)
        ensures
            r == (FileStat {
                size_bytes,
                is_dir: (mode as u32) & S_IFMT == S_IFDIR,
                is_file: (mode as u32) & S_IFMT == S_IFREG,
                is_symlink: (mode as u32) & S_IFMT == S_IFLNK,
                modified_at: calendar_time(mtime),
                accessed_at: calendar_time(atime),
            }),
            r.size_bytes == size_bytes,
            r.is_dir <==> (mode as u32) & 0o17_0000 == 0o04_0000,
            r.is_file <==> (mode as u32) & 0o17_0000 == 0o10_0000,
            r.is_symlink <==> (mode as u32) & 0o17_0000 == 0o12_0000,
            datetime_text(mtime) is Some ==> r.modified_at == mtime,
            datetime_text(mtime) is None ==> r.modified_at == 0,
            datetime_text(atime) is Some ==> r.accessed_at == atime,
            datetime_text(atime) is None ==> r.accessed_at == 0,
    {
        let file_type: u32 = (mode as u32) & S_IFMT;
        FileStat {
            size_bytes,
            is_dir: file_type == S_IFDIR,
            is_file: file_type == S_IFREG,
            is_symlink: file_type == S_IFLNK,
            modified_at: secs_to_datetime(mtime),
            accessed_at: secs_to_datetime(atime),
        }
    }
}

// ---- macOS tier ------------------------------------------------------------

/// The size of the buffer that `getattrlist` fills.
pub const GETATTRLIST_BUF_SIZE: usize = 64;

/// The type of a regular file.
pub const MACOS_VREG: u32 = 1;

/// The type of a directory.
pub const MACOS_VDIR: u32 = 2;

/// The type of a symbolic link.
pub const MACOS_VLNK: u32 = 5;

/// Reads metadata with `getattrlist`.
#[derive(Debug, Clone, Copy)]
pub struct MacosStatter;

impl Default for MacosStatter {
    fn default() -> (r: MacosStatter)
        ensures
            r == MacosStatter,
    {
        MacosStatter
    }
}

impl MacosStatter {
    /// Makes a statter.
    pub fn new() -> (r: MacosStatter)
        ensures
            r == MacosStatter,
    {
        MacosStatter
    }

    /// The metadata in a buffer that `getattrlist` filled: after the length of the
    /// record come the type, the modification time and the access time, each time
    /// with nanoseconds. The size comes from elsewhere.
    pub fn stat(&self, buf: &[u8], size_bytes: u64) -> (r: FileStat)
        requires
            buf@.len() >= 32,
        ensures
            ({
                let vtype = le_value(buf@.subrange(4, 8));
                r == FileStat {
                    size_bytes,
                    is_dir: vtype == MACOS_VDIR,
                    is_file: vtype == MACOS_VREG,
                    is_symlink: vtype == MACOS_VLNK,
                    modified_at: calendar_time(le_value(buf@.subrange(8, 16)) as u64 as i64),
                    accessed_at: calendar_time(le_value(buf@.subrange(24, 32)) as u64 as i64),
                }
            }),
            r.size_bytes == size_bytes,
            r.is_file <==> le_value(buf@.subrange(4, 8)) == 1,
            r.is_dir <==> le_value(buf@.subrange(4, 8)) == 2,
            r.is_symlink <==> le_value(buf@.subrange(4, 8)) == 5,
            datetime_text(le_value(buf@.subrange(8, 16)) as u64 as i64) is Some ==> r.modified_at
                == le_value(buf@.subrange(8, 16)) as u64 as i64,
            datetime_text(le_value(buf@.subrange(24, 32)) as u64 as i64) is Some ==> r.accessed_at
                == le_value(buf@.subrange(24, 32)) as u64 as i64,
    {
        let vtype: u64 = read_le(buf, 4, 4);
        let mtime: u64 = read_le(buf, 8, 8);
        let atime: u64 = read_le(buf, 24, 8);
        FileStat {
            size_bytes,
            is_dir: vtype == MACOS_VDIR as u64,
            is_file: vtype == MACOS_VREG as u64,
            is_symlink: vtype == MACOS_VLNK as u64,
            modified_at: secs_to_datetime(mtime as i64),
            accessed_at: secs_to_datetime(atime as i64),
        }
    }
}

// ---- Factory ---------------------------------------------------------------

/// The ways to read metadata.
#[derive(Debug, Clone, Copy)]
pub enum Statter {
    Linux(LinuxStatter),
    Macos(MacosStatter),
    Portable(PortableStatter),
}

/// The way to read metadata that fits a platform: its own tier where it was
/// detected, else the portable one.
pub open spec fn statter_for(caps: Capabilities) -> Statter {
    if caps.platform == Platform::Linux && caps.stat_tier == StatTier::LinuxStatx {
        Statter::Linux(LinuxStatter)
    } else if caps.platform == Platform::Macos && caps.stat_tier == StatTier::MacosGetattrlist {
        Statter::Macos(MacosStatter)
    } else {
        Statter::Portable(PortableStatter)
    }
}

/// The name of a tier.
pub open spec fn statter_label(s: Statter) -> Seq<char> {
    match s {
        Statter::Linux(_) => "linux-statx"@,
        Statter::Macos(_) => "macos-getattrlist"@,
        Statter::Portable(_) => "portable-metadata"@,
    }
}

/// Chooses how metadata are read.
#[derive(Debug)]
pub struct StatFactory {
    chosen: Option<&'static str>,
}

impl View for StatFactory {
    type V = Option<Seq<char>>;

    closed spec fn view(&self) -> Option<Seq<char>> {
        match self.chosen {
            Some(name) => Some(name@),
            None => None,
        }
    }
}

impl Default for StatFactory {
    fn default() -> (r: StatFactory)
        ensures
            r@ is None,
    {
        StatFactory { chosen: None }
    }
}

impl StatFactory {
    /// A factory that has chosen nothing.
    pub fn new() -> (r: StatFactory)
        ensures
            r@ is None,
    {
        StatFactory { chosen: None }
    }

    /// The name of the tier that fits a platform.
    pub fn select_tier(caps: &Capabilities) -> (r: &'static str)
        ensures
            r@ == statter_label(statter_for(*caps)),
            r@ == (if caps.platform == Platform::Linux && caps.stat_tier == StatTier::LinuxStatx {
                "linux-statx"@
            } else if caps.platform == Platform::Macos && caps.stat_tier
                == StatTier::MacosGetattrlist {
                "macos-getattrlist"@
            } else {
                "portable-metadata"@
            }),
    {
        if caps.platform == Platform::Linux && caps.stat_tier == StatTier::LinuxStatx {
            "linux-statx"
        } else if caps.platform == Platform::Macos && caps.stat_tier == StatTier::MacosGetattrlist {
            "macos-getattrlist"
        } else {
            "portable-metadata"
        }
    }

    /// The way to read metadata that fits a platform.
    pub fn make_port(caps: &Capabilities) -> (r: Statter)
        ensures
            r == statter_for(*caps),
            r is Linux <==> caps.platform == Platform::Linux && caps.stat_tier
                == StatTier::LinuxStatx,
            r is Macos <==> caps.platform == Platform::Macos && caps.stat_tier
                == StatTier::MacosGetattrlist,
    {
        if caps.platform == Platform::Linux && caps.stat_tier == StatTier::LinuxStatx {
            Statter::Linux(LinuxStatter::new())
        } else if caps.platform == Platform::Macos && caps.stat_tier == StatTier::MacosGetattrlist {
            Statter::Macos(MacosStatter::new())
        } else {
            Statter::Portable(PortableStatter::new())
        }
    }

    /// Makes a statter. The tier of the first call stays the chosen one.
    pub fn build(&mut self, caps: &Capabilities) -> (r: Statter)
        ensures
            r == statter_for(*caps),
            r is Linux <==> caps.platform == Platform::Linux && caps.stat_tier
                == StatTier::LinuxStatx,
            r is Macos <==> caps.platform == Platform::Macos && caps.stat_tier
                == StatTier::MacosGetattrlist,
            final(self)@ == (match old(self)@ {
                Some(name) => Some(name),
                None => Some(statter_label(statter_for(*caps))),
            }),
    {
        let name = StatFactory::select_tier(caps);
        if self.chosen.is_none() {
            self.chosen = Some(name);
        }
        StatFactory::make_port(caps)
    }

    /// The tier that was chosen; the portable one where none was.
    pub fn chosen_tier(&self) -> (r: &'static str)
        ensures
            r@ == (match self@ {
                Some(name) => name,
                None => "portable-metadata"@,
            }),
    {
        match self.chosen {
            Some(name) => name,
            None => "portable-metadata",
        }
    }
}

} // verus!
