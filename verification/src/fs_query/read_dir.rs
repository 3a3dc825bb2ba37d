//! `fs.read_dir`: the children of one directory, page by page.
use crate::bytes::{le_digits, le_value, read_le, write_le_u64};
use crate::codec::{base64_bytes, base64_decode, base64_encode, base64_text, lossy, lossy_text, rfc3339_text};
use crate::errors::{invalid_argument, ErrorView, SubstrateError};
use crate::fs_query::find::{format_unix_secs, from_epoch, shown_time};
use crate::fs_query::hint_helpers::{build_hints, read_hints};
use crate::fs_query::response::{text_of, Capabilities, HintsView, ToolResponse};
use crate::page::{
    grant, granted, window, windows, windows_hold_what_follows, windows_tile, PageSize,
};
use crate::text;
use vstd::prelude::*;

verus! {

/// The largest page that `fs.read_dir` returns.
pub const MAX_PAGE_SIZE: u32 = 5_000;

/// The page size where a request names none.
pub const DEFAULT_PAGE_SIZE: u32 = 100;

/// A request of `fs.read_dir`.
#[derive(Debug)]
pub struct FsReadDirRequest {
    /// The directory to list.
    pub path: String,
    /// Entries per page. Sizes above [`MAX_PAGE_SIZE`] are cut down to it.
    pub page_size: u32,
    /// The cursor of the page before.
    pub page_cursor: Option<String>,
}

/// The page size where a request names none.
pub fn default_page_size() -> (r: u32)
    ensures
        r == DEFAULT_PAGE_SIZE,
        r == 100,
{
    DEFAULT_PAGE_SIZE
}

// ---- Cursors ---------------------------------------------------------------

/// The cursor that stands for an offset.
pub fn encode_cursor(offset: u64) -> (r: String)
    ensures
        r@ == base64_text(le_digits(offset as nat, 8)),
        offset_in(base64_bytes(r@)) == Ok::<u64, ErrorView>(offset),
{
    let bytes = write_le_u64(offset);
    base64_encode(&bytes)
}

/// The offset that a decoded cursor holds, or what it is answered with.
pub open spec fn offset_in(decoded: Option<Seq<u8>>) -> Result<u64, ErrorView> {
    match decoded {
        None => Err(
            ErrorView::InvalidArgument {
                offending_field: "page_cursor"@,
                reason: "malformed cursor (invalid base64)"@,
                tagged: false,
            },
        ),
        Some(bytes) => if bytes.len() != 8 {
            Err(
                ErrorView::InvalidArgument {
                    offending_field: "page_cursor"@,
                    reason: "malformed cursor (wrong length)"@,
                    tagged: false,
                },
            )
        } else {
            Ok(le_value(bytes) as u64)
        },
    }
}

/// Reads the offset out of a decoded cursor.
pub fn offset_of(decoded: Option<Vec<u8>>) -> (r: Result<u64, SubstrateError>)
    ensures
        match offset_in(crate::fs_query::find::bytes_of(decoded)) {
            Ok(n) => r == Ok::<u64, SubstrateError>(n),
            Err(e) => r matches Err(x) && x@ == e,
        },
        decoded is None ==> (r matches Err(e) && e@ == (ErrorView::InvalidArgument {
            offending_field: "page_cursor"@,
            reason: "malformed cursor (invalid base64)"@,
            tagged: false,
        })),
        decoded matches Some(b) ==> if b@.len() == 8 {
            r matches Ok(n) && n == le_value(b@)
        } else {
            r matches Err(e) && e@ == (ErrorView::InvalidArgument {
                offending_field: "page_cursor"@,
                reason: "malformed cursor (wrong length)"@,
                tagged: false,
            })
        },
{
    match decoded {
        None => Err(
            invalid_argument("page_cursor", "malformed cursor (invalid base64)".to_owned(), false),
        ),
        Some(bytes) => if bytes.len() != 8 {
            Err(
                invalid_argument(
                    "page_cursor",
                    "malformed cursor (wrong length)".to_owned(),
                    false,
                ),
            )
        } else {
            let n = read_le(&bytes, 0, 8);
            assert(bytes@.subrange(0, 8) =~= bytes@);
            Ok(n)
        },
    }
}

/// The offset that a cursor stands for.
pub fn decode_cursor(cursor: &str) -> (r: Result<u64, SubstrateError>)
    ensures
        match offset_in(base64_bytes(cursor@)) {
            Ok(n) => r == Ok::<u64, SubstrateError>(n),
            Err(e) => r matches Err(x) && x@ == e,
        },
{
    offset_of(base64_decode(cursor))
}

// ---- The plan --------------------------------------------------------------

/// Which entries of a directory are on a page.
#[derive(Debug, Clone, Copy)]
pub struct DirPlan {
    /// How many entries come before the page.
    pub skip: u64,
    /// How many entries the page holds.
    pub page_size: u32,
}

/// What a cursor too large to count from is answered with.
pub open spec fn cursor_overflow() -> ErrorView {
    ErrorView::InvalidArgument {
        offending_field: "page_cursor"@,
        reason: "page_cursor combined with page_size overflows usize"@,
        tagged: true,
    }
}

/// Which page a request asks for, or what it is answered with where it is refused.
pub open spec fn planned(page_size: u32, skip: Result<u64, ErrorView>) -> Result<
    DirPlan,
    ErrorView,
> {
    match granted(Some(page_size), DEFAULT_PAGE_SIZE, MAX_PAGE_SIZE) {
        None => Err(PageSize::out_of_range()),
        Some(n) => match skip {
            Err(e) => Err(e),
            Ok(s) => if s + n + 1 > u64::MAX {
                Err(cursor_overflow())
            } else {
                Ok(DirPlan { skip: s, page_size: n })
            },
        },
    }
}

/// Where the page of a request starts.
pub open spec fn requested_skip(req: FsReadDirRequest) -> Result<u64, ErrorView> {
    match req.page_cursor {
        Some(c) => offset_in(base64_bytes(c@)),
        None => Ok(0),
    }
}

/// Settles the page, given where it starts.
pub fn plan_page(page_size: u32, skip: Result<u64, SubstrateError>) -> (r: Result<
    DirPlan,
    SubstrateError,
>)
    ensures
        match planned(
            page_size,
            match skip {
                Ok(n) => Ok(n),
                Err(e) => Err(e@),
            },
        ) {
            Ok(p) => r == Ok::<DirPlan, SubstrateError>(p),
            Err(e) => r matches Err(x) && x@ == e,
        },
        r matches Err(e) ==> (if page_size == 0 || page_size > 10_000 {
            e@ == (ErrorView::InvalidArgument {
                offending_field: "page_size"@,
                reason: "page_size must be between 1 and 10000"@,
                tagged: false,
            })
        } else if skip is Err {
            e@ == skip->Err_0@
        } else {
            e@ == (ErrorView::InvalidArgument {
                offending_field: "page_cursor"@,
                reason: "page_cursor combined with page_size overflows usize"@,
                tagged: true,
            })
        }),
        r is Ok <==> 1 <= page_size <= 10_000 && (skip matches Ok(s) && s + (if page_size < 5_000 {
            page_size as int
        } else {
            5_000
        }) + 1 <= 0xffff_ffff_ffff_ffff),
        r matches Ok(p) ==> skip == Ok::<u64, SubstrateError>(p.skip) && p.page_size == (
        if page_size < 5_000 {
            page_size
        } else {
            5_000
        }),
{
    let n: u32 = match grant(Some(page_size), DEFAULT_PAGE_SIZE, MAX_PAGE_SIZE) {
        Ok(n) => n,
        Err(e) => {
            return Err(e);
        },
    };
    let s: u64 = match skip {
        Ok(s) => s,
        Err(e) => {
            return Err(e);
        },
    };
    let end = s.checked_add(n as u64 + 1);
    if end.is_none() {
        return Err(
            invalid_argument(
                "page_cursor",
                "page_cursor combined with page_size overflows usize".to_owned(),
                true,
            ),
        );
    }
    Ok(DirPlan { skip: s, page_size: n })
}

/// Accepts or refuses a request before anything is read from the disk.
pub fn plan_read_dir(req: &FsReadDirRequest) -> (r: Result<DirPlan, SubstrateError>)
    ensures
        match planned(req.page_size, requested_skip(*req)) {
            Ok(p) => r == Ok::<DirPlan, SubstrateError>(p),
            Err(e) => r matches Err(x) && x@ == e,
        },
        req.page_cursor is None && 1 <= req.page_size <= 10_000 ==> (r matches Ok(p) && p.skip == 0
            && p.page_size == (if req.page_size < 5_000 {
            req.page_size
        } else {
            5_000
        })),
        req.page_size == 0 || req.page_size > 10_000 ==> r is Err,
        req.page_cursor matches Some(c) ==> base64_bytes(c@) is None ==> r is Err,
        req.page_cursor matches Some(c) ==> base64_bytes(c@) matches Some(b) ==> match r {
            Ok(p) => b.len() == 8 && p.skip == le_value(b) && p.page_size == (if req.page_size
                < 5_000 {
                req.page_size
            } else {
                5_000
            }),
            Err(_) => b.len() != 8 || req.page_size == 0 || req.page_size > 10_000 || le_value(b)
                + 5_001 > 0xffff_ffff_ffff_ffff,
        },
{
    let skip = match &req.page_cursor {
        Some(c) => decode_cursor(c.as_str()),
        None => Ok(0),
    };
    proof {
        if req.page_cursor is Some {
            crate::bytes::pow256_of_eight();
            crate::bytes::le_value_bound(base64_bytes(req.page_cursor->0@)->0);
        }
    }
    plan_page(req.page_size, skip)
}

// ---- Entries ---------------------------------------------------------------

/// What the operating system says of a child, without following a link.
#[derive(Debug, Clone, Copy)]
pub struct ChildMeta {
    pub is_dir: bool,
    pub is_symlink: bool,
    pub is_file: bool,
    pub size: u64,
    /// The modification time in seconds since the Unix epoch, where it is known.
    pub modified_secs: Option<i64>,
}

/// A child of a directory.
#[derive(Debug)]
pub struct DirEntryInfo {
    /// The name, without the directory.
    pub name: String,
    pub path: String,
    pub is_dir: bool,
    pub is_symlink: bool,
    /// The size in bytes, of regular files.
    pub size_bytes: Option<u64>,
    /// The modification time in RFC 3339.
    pub modified_at: Option<String>,
}

/// What contracts say of a [`DirEntryInfo`].
#[verifier::ext_equal]
pub struct DirEntryView {
    pub name: Seq<char>,
    pub path: Seq<char>,
    pub is_dir: bool,
    pub is_symlink: bool,
    pub size_bytes: Option<u64>,
    pub modified_at: Option<Seq<char>>,
}

impl View for DirEntryInfo {
    type V = DirEntryView;

    open spec fn view(&self) -> DirEntryView {
        DirEntryView {
            name: self.name@,
            path: self.path@,
            is_dir: self.is_dir,
            is_symlink: self.is_symlink,
            size_bytes: self.size_bytes,
            modified_at: text_of(self.modified_at),
        }
    }
}

/// What is said of a child is what its fields hold.
pub proof fn children_are_seen_as_listed(e: DirEntryInfo)
    ensures
        e@.name == e.name@,
        e@.path == e.path@,
        e@.is_dir == e.is_dir,
        e@.is_symlink == e.is_symlink,
        e@.size_bytes == e.size_bytes,
        match e.modified_at {
            Some(x) => e@.modified_at == Some(x@),
            None => e@.modified_at is None,
        },
{
}

/// How a child is listed. One whose metadata cannot be read is listed by name alone.
pub open spec fn child_listed(
    name: Seq<u8>,
    path: Seq<u8>,
    meta: Option<ChildMeta>,
) -> DirEntryView {
    DirEntryView {
        name: lossy_text(name),
        path: lossy_text(path),
        is_dir: meta is Some && meta->0.is_dir,
        is_symlink: meta is Some && meta->0.is_symlink,
        size_bytes: match meta {
            Some(m) => if m.is_file {
                Some(m.size)
            } else {
                None
            },
            None => None,
        },
        modified_at: match meta {
            Some(m) => match m.modified_secs {
                Some(t) => Some(shown_time(from_epoch(t))),
                None => None,
            },
            None => None,
        },
    }
}

/// Lists a child.
pub fn list_child(name: &[u8], path: &[u8], meta: Option<ChildMeta>) -> (r: DirEntryInfo)
    ensures
        r@ == child_listed(name@, path@, meta),
        r.name@ == lossy_text(name@),
        r.path@ == lossy_text(path@),
        meta is None ==> !r.is_dir && !r.is_symlink && r.size_bytes is None && r.modified_at is None,
        meta matches Some(m) ==> {
            &&& r.is_dir == m.is_dir
            &&& r.is_symlink == m.is_symlink
            &&& r.size_bytes == (if m.is_file {
                Some(m.size)
            } else {
                None
            })
            &&& r.modified_at is Some <==> m.modified_secs is Some
            &&& m.modified_secs matches Some(t) ==> match rfc3339_text(
                if t < 0 {
                    0
                } else {
                    t
                },
            ) {
                Some(Some(s)) => r.modified_at matches Some(x) && x@ == s,
                Some(None) => r.modified_at matches Some(x) && x@ == text::decimal(
                    if t < 0 {
                        0
                    } else {
                        t as nat
                    },
                ),
                None => rfc3339_text(0) matches Some(Some(s)) ==> r.modified_at matches Some(x) && x@
                    == s,
            }
        },
{
    let name = lossy(name);
    let path = lossy(path);
    match meta {
        Some(m) => {
            let modified_at = match m.modified_secs {
                Some(t) => {
                    let secs: u64 = if t < 0 {
                        0
                    } else {
                        t as u64
                    };
                    Some(format_unix_secs(secs))
                },
                None => None,
            };
            let size_bytes = if m.is_file {
                Some(m.size)
            } else {
                None
            };
            DirEntryInfo {
                name,
                path,
                is_dir: m.is_dir,
                is_symlink: m.is_symlink,
                size_bytes,
                modified_at,
            }
        },
        None => DirEntryInfo {
            name,
            path,
            is_dir: false,
            is_symlink: false,
            size_bytes: None,
            modified_at: None,
        },
    }
}

/// A child is listed with its modification time: where that has an RFC 3339 form it is this
/// form, so children whose times have different forms are listed with different times.
pub proof fn children_are_listed_with_their_times(
    name: Seq<u8>,
    path: Seq<u8>,
    m: ChildMeta,
    t: i64,
    other: ChildMeta,
    u: i64,
)
    requires
        t >= 0,
        u >= 0,
        m.modified_secs == Some(t),
        other.modified_secs == Some(u),
        rfc3339_text(t) matches Some(Some(_)),
        rfc3339_text(u) matches Some(Some(_)),
    ensures
        Some(child_listed(name, path, Some(m)).modified_at) == rfc3339_text(t),
        child_listed(name, path, Some(m)).modified_at == child_listed(
            name,
            path,
            Some(other),
        ).modified_at <==> rfc3339_text(t) == rfc3339_text(u),
{
}

/// A child is listed as what it is: a directory and a link are told as such, a regular file,
/// and nothing else, comes with its size, and only a child whose time is known comes with one.
pub proof fn children_are_listed_as_what_they_are(name: Seq<u8>, path: Seq<u8>, m: ChildMeta)
    ensures
        child_listed(name, path, Some(m)).is_dir == m.is_dir,
        child_listed(name, path, Some(m)).is_symlink == m.is_symlink,
        m.is_file ==> child_listed(name, path, Some(m)).size_bytes == Some(m.size),
        !m.is_file ==> child_listed(name, path, Some(m)).size_bytes is None,
        m.modified_secs is None ==> child_listed(name, path, Some(m)).modified_at is None,
        child_listed(name, path, Some(m)).name == lossy_text(name),
        child_listed(name, path, Some(m)).path == lossy_text(path),
        child_listed(name, path, None) == child_listed(
            name,
            path,
            Some(
                ChildMeta {
                    is_dir: false,
                    is_symlink: false,
                    is_file: false,
                    size: m.size,
                    modified_secs: None,
                },
            ),
        ),
{
}

/// The cursor of an offset leads to that offset, so different offsets have different cursors;
/// a cursor of any other length leads nowhere.
pub proof fn cursors_lead_to_their_offset(a: u64, b: u64, bytes: Seq<u8>)
    ensures
        offset_in(Some(le_digits(a as nat, 8))) == Ok::<u64, ErrorView>(a),
        le_digits(a as nat, 8) == le_digits(b as nat, 8) ==> a == b,
        offset_in(Some(bytes)) is Ok <==> bytes.len() == 8,
        offset_in(None) is Err,
{
    crate::bytes::pow256_of_eight();
    crate::bytes::le_digits_round_trip(a as nat, 8);
    crate::bytes::le_digits_round_trip(b as nat, 8);
}

/// The children of a list, one by one.
pub open spec fn child_views(v: Seq<DirEntryInfo>) -> Seq<DirEntryView> {
    Seq::new(v.len(), |i: int| v[i]@)
}

/// The children of a list are its own, one by one.
pub proof fn children_are_seen_one_by_one(v: Seq<DirEntryInfo>)
    ensures
        child_views(v).len() == v.len(),
        forall|i: int| 0 <= i < v.len() ==> child_views(v)[i] == (#[trigger] v[i])@,
{
}

// ---- The page --------------------------------------------------------------

/// The entries of a page of a directory.
pub open spec fn page_of(children: Seq<DirEntryView>, skip: int, page_size: int) -> Seq<
    DirEntryView,
> {
    window(children, skip, page_size)
}

/// A page of a directory while its children are read.
pub struct DirListing {
    plan: DirPlan,
    /// How many children were read.
    seen: u64,
    /// Those of them that are on the page.
    page: Vec<DirEntryInfo>,
    /// All children that were read, for contracts.
    children: Ghost<Seq<DirEntryView>>,
}

/// A page of `fs.read_dir`.
#[derive(Debug)]
pub struct DirPage {
    pub path: String,
    pub entries: Vec<DirEntryInfo>,
    /// The cursor of the next page, where there is one.
    pub next_cursor: Option<String>,
}

/// The text that goes with a page of `n` entries.
pub open spec fn read_dir_summary(n: nat) -> Seq<char> {
    "USE: list directory children\nDOES: returned "@ + text::decimal(n)
        + " entries\nNEXT: fs.stat, fs.read\nAVOID: recursive read_dir → use fs.find"@
}

/// The hints that go with a page.
pub open spec fn read_dir_hints(caps: Capabilities) -> HintsView {
    read_hints(
        Some("fs.stat"@),
        Some("fs.read"@),
        Some("Use fs.find for deep traversal instead of recursive fs.read_dir"@),
        caps,
        false,
    )
}

impl DirListing {
    /// The children that were read so far.
    pub closed spec fn children(&self) -> Seq<DirEntryView> {
        self.children@
    }

    /// Which page is listed.
    pub closed spec fn plan(&self) -> DirPlan {
        self.plan
    }

    /// Whether enough children were read: those before the page, those on it, and
    /// one more.
    pub open spec fn complete(&self) -> bool {
        self.children().len() > self.plan().skip + self.plan().page_size
    }

    /// The listing holds the page of what was read, and reads no further than it
    /// has to.
    pub closed spec fn wf(&self) -> bool {
        &&& self.plan.skip + self.plan.page_size + 1 <= u64::MAX
        &&& self.seen == self.children@.len()
        &&& self.seen <= self.plan.skip + self.plan.page_size + 1
        &&& child_views(self.page@) == page_of(
            self.children@,
            self.plan.skip as int,
            self.plan.page_size as int,
        )
    }

    /// Starts a page.
    pub fn new(plan: DirPlan) -> (r: DirListing)
        requires
            plan.skip + plan.page_size + 1 <= u64::MAX,
        ensures
            r.wf(),
            r.plan() == plan,
            r.children() == Seq::<DirEntryView>::empty(),
    {
        let r = DirListing { plan, seen: 0, page: Vec::new(), children: Ghost(Seq::empty()) };
        proof {
            assert(child_views(r.page@) =~= Seq::empty());
            assert(page_of(r.children@, plan.skip as int, plan.page_size as int) =~= Seq::empty());
        }
        r
    }

    /// Takes one more child. The result says whether another is wanted.
    pub fn offer(&mut self, child: DirEntryInfo) -> (more: bool)
        requires
            old(self).wf(),
        ensures
            final(self).wf(),
            final(self).plan() == old(self).plan(),
            final(self).children() == (if old(self).complete() {
                old(self).children()
            } else {
                old(self).children().push(child@)
            }),
            more == !final(self).complete(),
            more <==> final(self).children().len() <= final(self).plan().skip
                + final(self).plan().page_size,
            old(self).children().len() <= old(self).plan().skip + old(self).plan().page_size
                ==> final(self).children() == old(self).children().push(child@),
    {
        let end: u64 = self.plan.skip + self.plan.page_size as u64;
        if self.seen > end {
            return false;
        }
        let ghost before = self.children@;
        let ghost after = before.push(child@);
        let ghost skip = self.plan.skip as int;
        let ghost n = self.plan.page_size as int;
        let ghost shown = child_views(self.page@);
        if self.seen >= self.plan.skip && self.seen < end {
            let ghost v = child@;
            self.page.push(child);
            proof {
                assert(child_views(self.page@) =~= shown.push(v));
                assert(child_views(self.page@) =~= page_of(after, skip, n));
            }
        } else {
            proof {
                assert(child_views(self.page@) =~= page_of(after, skip, n));
            }
        }
        self.seen = self.seen + 1;
        self.children = Ghost(after);
        self.seen <= end
    }

    /// Ends the listing and makes the answer. There is a next page where a child
    /// follows the page.
    pub fn finish(self, path: String, caps: &Capabilities) -> (r: ToolResponse<DirPage>)
        requires
            self.wf(),
        ensures
            r.structured_content.path == path,
            child_views(r.structured_content.entries@) == page_of(
                self.children(),
                self.plan().skip as int,
                self.plan().page_size as int,
            ),
            r.structured_content.entries@.len() <= self.plan().page_size,
            forall|k: int|
                0 <= k < self.plan().page_size && self.plan().skip + k < self.children().len()
                    ==> k < r.structured_content.entries@.len()
                    && (#[trigger] r.structured_content.entries@[k])@ == self.children()[self.plan().skip
                    + k],
            r.structured_content.next_cursor is Some <==> self.complete(),
            r.structured_content.next_cursor is Some <==> self.children().len() > self.plan().skip
                + self.plan().page_size,
            r.structured_content.next_cursor matches Some(c) ==> {
                &&& c@ == base64_text(
                    le_digits((self.plan().skip + self.plan().page_size) as nat, 8),
                )
                &&& offset_in(base64_bytes(c@)) == Ok::<u64, ErrorView>(
                    (self.plan().skip + self.plan().page_size) as u64,
                )
            },
            r.content@ == read_dir_summary(r.structured_content.entries@.len()),
            r.hints@ == read_dir_hints(*caps),
            r.hints@.next_action_suggested == Some("fs.stat"@),
            r.hints@.alternative_tool == Some("fs.read"@),
            r.hints@.error_recovery == Some(
                    "Use fs.find for deep traversal instead of recursive fs.read_dir"@,
                ),
            r.hints@.confirm_destructive == Some(false),
            r.hints@.simd_tier_used == Some(caps.simd_tier.label()),
            r.hints@.walker_tier_used == None::<Seq<char>>,
            r.content@ == "USE: list directory children\nDOES: returned "@ + text::decimal(
                r.structured_content.entries@.len(),
            ) + " entries\nNEXT: fs.stat, fs.read\nAVOID: recursive read_dir → use fs.find"@,
    {
        let end: u64 = self.plan.skip + self.plan.page_size as u64;
        proof {
            let skip = self.plan.skip as int;
            let n = self.plan.page_size as int;
            assert(self.page@.len() == child_views(self.page@).len());
            windows_hold_what_follows(self.children@, skip, n, 0);
            assert forall|k: int| 0 <= k < n && skip + k < self.children@.len() implies k
                < self.page@.len() && (#[trigger] self.page@[k])@ == self.children@[skip + k] by {
                windows_hold_what_follows(self.children@, skip, n, k);
                assert(child_views(self.page@)[k] == self.page@[k]@);
            }
        }
        let next_cursor = if self.seen > end {
            Some(encode_cursor(end))
        } else {
            None
        };
        let content = text::cat3(
            "USE: list directory children\nDOES: returned ",
            text::decimal_text(self.page.len() as u64).as_str(),
            " entries\nNEXT: fs.stat, fs.read\nAVOID: recursive read_dir → use fs.find",
        );
        let hints = build_hints(
            Some("fs.stat"),
            Some("fs.read"),
            Some("Use fs.find for deep traversal instead of recursive fs.read_dir"),
            caps,
            false,
        );
        ToolResponse::with_hints(
            content,
            DirPage { path, entries: self.page, next_cursor },
            hints,
        )
    }
}

/// The pages of an unchanged directory together hold every child once, in the order in which
/// the directory gives them: following the cursors comes to an end, the pages one after the
/// other are the children, every page but the last is full, and the last is not over-full.
pub proof fn pages_tile_the_directory(children: Seq<DirEntryView>, page_size: int, requests: nat)
    requires
        0 < page_size,
        requests > children.len(),
    ensures
        ({
            let pages = windows(children, 0, page_size, requests);
            &&& pages.flatten() == children
            &&& pages.last().len() <= page_size
            &&& forall|i: int|
                0 <= i < pages.len() - 1 ==> (#[trigger] pages[i]).len() == page_size
        }),
{
    windows_tile(children, 0, page_size, requests);
    assert(children.skip(0) =~= children);
}

/// Children behind the one after the page are of no account: a page is the same whether the
/// directory was read to its end or only as far as to see that the page is not the last.
pub proof fn later_children_are_of_no_account(
    children: Seq<DirEntryView>,
    read: int,
    skip: int,
    page_size: int,
)
    requires
        0 <= skip,
        0 < page_size,
        skip + page_size < read <= children.len(),
    ensures
        page_of(children.take(read), skip, page_size) == page_of(children, skip, page_size),
{
    assert(page_of(children.take(read), skip, page_size) =~= page_of(children, skip, page_size));
}

} // verus!
