//! `fs.find`: files and directories of a tree by name, age and page.
//!
//! The tree is walked in the order of paths. A page ends with a cursor that holds
//! the path of its last entry, and the next page starts right after that path.
use crate::codec::{
    base64_bytes, base64_decode, base64_encode, base64_fits, base64_text, format_rfc3339, lossy,
    lossy_text, parse_rfc3339, rfc3339_nanos, rfc3339_text,
};
use crate::errors::{fresh_correlation_id, invalid_argument, ErrorView, SubstrateError};
use crate::fs_query::hint_helpers::{build_hints, read_hints};
use crate::fs_query::response::{text_of, Capabilities, HintsView, ToolResponse};
use crate::page::{grant, granted, PageSize};
use crate::paths;
use crate::text;
use vstd::prelude::*;

verus! {

/// The largest page that `fs.find` returns.
pub const FS_FIND_PAGE_SIZE_CAP: u32 = 500;

/// How deep a walk goes where the request does not say.
pub const DEFAULT_MAX_DEPTH: u32 = 16;

/// A request of `fs.find`.
#[derive(Debug)]
pub struct FsFindRequest {
    /// The directory to walk.
    pub root: String,
    /// A glob for file names, without their directories.
    pub pattern: String,
    /// How deep to go; with 0 only the root itself is listed.
    pub max_depth: u32,
    /// An RFC 3339 timestamp: only entries modified at or after it are returned.
    pub modified_since: Option<String>,
    /// Entries per page. Sizes above [`FS_FIND_PAGE_SIZE_CAP`] are cut down to it.
    pub page_size: Option<u32>,
    /// The cursor of the page before.
    pub page_cursor: Option<String>,
}

impl Default for FsFindRequest {
    fn default() -> (r: FsFindRequest)
        ensures
            r.root@ == Seq::<char>::empty(),
            r.pattern@ == "*"@,
            r.max_depth == DEFAULT_MAX_DEPTH,
            r.max_depth == 16,
            r.modified_since is None,
            r.page_size is None,
            r.page_cursor is None,
    {
        FsFindRequest {
            root: String::new(),
            pattern: default_glob(),
            max_depth: default_max_depth(),
            modified_since: None,
            page_size: None,
            page_cursor: None,
        }
    }
}

/// The glob that matches every name.
pub fn default_glob() -> (r: String)
    ensures
        r@ == "*"@,
{
    "*".to_owned()
}

/// How deep a walk goes where the request does not say.
pub fn default_max_depth() -> (r: u32)
    ensures
        r == DEFAULT_MAX_DEPTH,
        r == 16,
{
    DEFAULT_MAX_DEPTH
}

// ---- Cursors ---------------------------------------------------------------

/// What a cursor that is not base64 is answered with.
pub open spec fn bad_cursor() -> ErrorView {
    ErrorView::InvalidArgument {
        offending_field: "page_cursor"@,
        reason: "malformed cursor (invalid base64)"@,
        tagged: false,
    }
}

/// The cursor that makes the next page start right after `anchor`. It holds the
/// bytes of the path, so that no name is changed by it.
pub fn encode_cursor(anchor: &[u8]) -> (r: String)
    requires
        base64_fits(anchor@.len()),
    ensures
        r@ == base64_text(anchor@),
        base64_bytes(r@) == Some(anchor@),
{
    base64_encode(anchor)
}

/// The path that a cursor holds.
pub fn decode_cursor(cursor: &str) -> (r: Result<Vec<u8>, SubstrateError>)
    ensures
        r is Ok <==> base64_bytes(cursor@) is Some,
        r matches Ok(path) ==> base64_bytes(cursor@) == Some(path@),
        r matches Err(e) ==> e@ == bad_cursor(),
{
    anchor_of(base64_decode(cursor))
}

/// The path that a decoded cursor holds, or the answer to a cursor that could not
/// be decoded.
pub fn anchor_of(decoded: Option<Vec<u8>>) -> (r: Result<Vec<u8>, SubstrateError>)
    ensures
        r is Ok <==> decoded is Some,
        r matches Ok(path) ==> decoded == Some(path),
        r matches Err(e) ==> e@ == bad_cursor(),
{
    match decoded {
        Some(path) => Ok(path),
        None => Err(
            invalid_argument("page_cursor", "malformed cursor (invalid base64)".to_owned(), false),
        ),
    }
}

// ---- Timestamps ------------------------------------------------------------

/// What a timestamp that is not RFC 3339 is answered with.
pub open spec fn bad_timestamp(message: Seq<char>) -> ErrorView {
    ErrorView::InvalidArgument {
        offending_field: "modified_since"@,
        reason: "not a valid RFC3339 timestamp: "@ + message,
        tagged: false,
    }
}

/// Reads the `modified_since` filter: nanoseconds since the Unix epoch,
/// negative before it.
pub fn parse_modified_since(s: &str) -> (r: Result<i128, SubstrateError>)
    ensures
        r is Ok <==> rfc3339_nanos(s@) is Ok,
        r matches Ok(nanos) ==> rfc3339_nanos(s@) == Ok::<i128, Seq<char>>(nanos),
        r matches Err(e) ==> e@ == bad_timestamp(rfc3339_nanos(s@)->Err_0),
{
    since_of(parse_rfc3339(s))
}

/// The filter that a parsed timestamp gives, or the answer to one that could not
/// be parsed.
pub fn since_of(parsed: Result<i128, String>) -> (r: Result<i128, SubstrateError>)
    ensures
        match parsed {
            Ok(nanos) => r == Ok::<i128, SubstrateError>(nanos),
            Err(m) => r matches Err(e) && e@ == bad_timestamp(m@),
        },
{
    match parsed {
        Ok(nanos) => Ok(nanos),
        Err(m) => Err(
            invalid_argument(
                "modified_since",
                text::cat2("not a valid RFC3339 timestamp: ", m.as_str()),
                false,
            ),
        ),
    }
}

/// How a file time is shown: in RFC 3339. A time beyond the calendar is shown as
/// the epoch, and one that has no RFC 3339 form as a number.
pub open spec fn shown_time(secs: u64) -> Seq<char> {
    match rfc3339_text(secs as i64) {
        Some(Some(t)) => t,
        Some(None) => text::decimal(secs as nat),
        None => match rfc3339_text(0) {
            Some(Some(t)) => t,
            _ => text::decimal(secs as nat),
        },
    }
}

/// Shows a file time.
pub fn format_unix_secs(secs: u64) -> (r: String)
    ensures
        r@ == shown_time(secs),
        rfc3339_text(secs as i64) matches Some(Some(t)) ==> r@ == t,
        rfc3339_text(secs as i64) matches Some(None) ==> r@ == text::decimal(secs as nat),
        rfc3339_text(secs as i64) is None ==> (rfc3339_text(0) matches Some(Some(t)) ==> r@ == t),
{
    let direct = format_rfc3339(secs as i64);
    let epoch = format_rfc3339(0);
    let formatted = match direct {
        Some(t) => t,
        None => match epoch {
            Some(t) => t,
            None => None,
        },
    };
    match formatted {
        Some(t) => t,
        None => text::decimal_text(secs),
    }
}

// ---- The plan --------------------------------------------------------------

/// Whether `%2e%2e`, in any case, stands at `i`.
pub open spec fn encoded_parent_at(s: Seq<char>, i: int) -> bool {
    &&& 0 <= i
    &&& i + 6 <= s.len()
    &&& s[i] == '%' && s[i + 1] == '2' && (s[i + 2] == 'e' || s[i + 2] == 'E')
    &&& s[i + 3] == '%' && s[i + 4] == '2' && (s[i + 5] == 'e' || s[i + 5] == 'E')
}

/// Whether a path asks for a parent directory, in plain or in percent-encoded form.
pub open spec fn asks_for_parent(path: Seq<char>) -> bool {
    (exists|i: int| encoded_parent_at(path, i)) || paths::climbs(vstd::utf8::encode_utf8(path))
}

/// Whether a path asks for a parent directory. Such a path is refused before
/// anything is read from the disk.
pub fn is_traversal(path: &str) -> (r: bool)
    ensures
        r == asks_for_parent(path@),
        paths::climbs(vstd::utf8::encode_utf8(path@)) ==> r,
        r && !paths::climbs(vstd::utf8::encode_utf8(path@)) ==> exists|i: int|
            0 <= i <= path@.len() - 6 && #[trigger] path@[i] == '%' && path@[i + 1] == '2' && (path@[i
                + 2] == 'e' || path@[i + 2] == 'E') && path@[i + 3] == '%' && path@[i + 4] == '2' && (
            path@[i + 5] == 'e' || path@[i + 5] == 'E'),
{
    let s = text::chars_of(path);
    let mut i: usize = 0;
    while s.len() - i >= 6
        invariant
            s@ == path@,
            i <= s@.len(),
            forall|j: int| 0 <= j < i ==> !encoded_parent_at(path@, j),
        decreases s@.len() - i,
    {
        if s[i] == '%' && s[i + 1] == '2' && (s[i + 2] == 'e' || s[i + 2] == 'E') && s[i + 3] == '%'
            && s[i + 4] == '2' && (s[i + 5] == 'e' || s[i + 5] == 'E') {
            assert(encoded_parent_at(path@, i as int));
            return true;
        }
        i = i + 1;
    }
    assert forall|j: int| !encoded_parent_at(path@, j) by {
        if encoded_parent_at(path@, j) {
            assert(j >= i);
        }
    }
    paths::has_parent_dir(path.as_bytes())
}

/// A path that asks for a parent directory in percent-encoded form is refused like one that asks
/// in plain form, wherever in the path it asks, in small letters or capitals; no other path is.
pub proof fn encoded_parents_are_refused(
    a: Seq<char>,
    e: char,
    f: char,
    b: Seq<char>,
    path: Seq<char>,
)
    requires
        e == 'e' || e == 'E',
        f == 'e' || f == 'E',
    ensures
        asks_for_parent(a + seq!['%', '2', e, '%', '2', f] + b),
        paths::climbs(vstd::utf8::encode_utf8(path)) ==> asks_for_parent(path),
        !path.contains('%') ==> (asks_for_parent(path) <==> paths::climbs(
            vstd::utf8::encode_utf8(path),
        )),
{
    let s = a + seq!['%', '2', e, '%', '2', f] + b;
    let i = a.len() as int;
    assert(s[i] == '%' && s[i + 1] == '2' && s[i + 2] == e && s[i + 3] == '%' && s[i + 4] == '2'
        && s[i + 5] == f);
    assert(encoded_parent_at(s, i));
    if !path.contains('%') {
        assert forall|j: int| !encoded_parent_at(path, j) by {
            if encoded_parent_at(path, j) {
                assert(path[j] == '%');
            }
        }
    }
}

/// What a request asks of a walk, once it is accepted.
#[derive(Debug)]
pub struct FindQuery {
    /// Entries per page.
    pub page_size: u32,
    /// The path that the page starts after.
    pub anchor: Option<Vec<u8>>,
    /// The time that entries must not be older than, in nanoseconds since the Unix epoch.
    pub modified_since: Option<i128>,
    /// How deep the walk goes.
    pub max_depth: u32,
}

/// What contracts say of a [`FindQuery`], with the globs that go with it.
#[verifier::ext_equal]
pub struct QueryView {
    pub page_size: u32,
    pub anchor: Option<Seq<u8>>,
    pub modified_since: Option<i128>,
    pub patterns: Seq<Seq<char>>,
}

/// The bytes of an optional byte string.
pub open spec fn bytes_of(v: Option<Vec<u8>>) -> Option<Seq<u8>> {
    match v {
        Some(x) => Some(x@),
        None => None,
    }
}

impl FindQuery {
    /// The query together with its globs.
    pub open spec fn with_patterns(&self, patterns: Seq<Seq<char>>) -> QueryView {
        QueryView {
            page_size: self.page_size,
            anchor: bytes_of(self.anchor),
            modified_since: self.modified_since,
            patterns,
        }
    }
}

/// What `fs.find` answers a request that it refuses, given what the cursor decodes
/// to and what the timestamp parses to. The checks come in this order: page size,
/// cursor, timestamp, path.
pub open spec fn refusal(
    req: FsFindRequest,
    cursor: Option<Option<Seq<u8>>>,
    since: Option<Result<i128, Seq<char>>>,
) -> Option<ErrorView> {
    if granted(req.page_size, PageSize::DEFAULT, FS_FIND_PAGE_SIZE_CAP) is None {
        Some(PageSize::out_of_range())
    } else if cursor == Some(None::<Seq<u8>>) {
        Some(bad_cursor())
    } else if since is Some && since->0 is Err {
        Some(bad_timestamp(since->0->Err_0))
    } else if asks_for_parent(req.root@) {
        Some(ErrorView::PathTraversalBlocked { path: req.root@, tagged: true })
    } else {
        None
    }
}

/// What the cursor of a request decodes to.
pub open spec fn cursor_bytes(req: FsFindRequest) -> Option<Option<Seq<u8>>> {
    match req.page_cursor {
        Some(c) => Some(base64_bytes(c@)),
        None => None,
    }
}

/// What the timestamp of a request parses to.
pub open spec fn since_nanos(req: FsFindRequest) -> Option<Result<i128, Seq<char>>> {
    match req.modified_since {
        Some(s) => Some(rfc3339_nanos(s@)),
        None => None,
    }
}

/// The bytes within two layers of absence.
pub open spec fn nested_bytes(v: Option<Option<Vec<u8>>>) -> Option<Option<Seq<u8>>> {
    match v {
        Some(x) => Some(bytes_of(x)),
        None => None,
    }
}

/// The characters of a failure within an optional outcome.
pub open spec fn parsed_since(v: Option<Result<i128, String>>) -> Option<Result<i128, Seq<char>>> {
    match v {
        Some(Ok(n)) => Some(Ok(n)),
        Some(Err(m)) => Some(Err(m@)),
        None => None,
    }
}

/// Accepts or refuses a request, given its decoded cursor and its parsed timestamp.
pub fn plan_find(
    req: &FsFindRequest,
    cursor: Option<Option<Vec<u8>>>,
    since: Option<Result<i128, String>>,
) -> (r: Result<FindQuery, SubstrateError>)
    ensures
        r is Ok <==> refusal(*req, nested_bytes(cursor), parsed_since(since)) is None,
        r matches Err(e) ==> refusal(*req, nested_bytes(cursor), parsed_since(since)) == Some(e@),
        r matches Ok(q) ==> {
            &&& granted(req.page_size, PageSize::DEFAULT, FS_FIND_PAGE_SIZE_CAP) == Some(q.page_size)
            &&& q.anchor == (if cursor is Some {
                cursor->0
            } else {
                None
            })
            &&& q.modified_since == (match since {
                Some(Ok(n)) => Some(n),
                _ => None,
            })
            &&& q.max_depth == req.max_depth
            &&& q.page_size == match req.page_size {
                Some(n) => if n < 500 {
                    n
                } else {
                    500
                },
                None => 50,
            }
        },
        r is Ok <==> {
            &&& req.page_size matches Some(n) ==> 1 <= n <= 10_000
            &&& cursor matches Some(c) ==> c is Some
            &&& since matches Some(s) ==> s is Ok
            &&& !asks_for_parent(req.root@)
        },
        r matches Err(e) ==> e@ == (if req.page_size matches Some(n) && (n == 0 || n > 10_000) {
            ErrorView::InvalidArgument {
                offending_field: "page_size"@,
                reason: "page_size must be between 1 and 10000"@,
                tagged: false,
            }
        } else if cursor matches Some(None) {
            ErrorView::InvalidArgument {
                offending_field: "page_cursor"@,
                reason: "malformed cursor (invalid base64)"@,
                tagged: false,
            }
        } else if since is Some && since->0 is Err {
            ErrorView::InvalidArgument {
                offending_field: "modified_since"@,
                reason: "not a valid RFC3339 timestamp: "@ + since->0->Err_0@,
                tagged: false,
            }
        } else {
            ErrorView::PathTraversalBlocked { path: req.root@, tagged: true }
        }),
{
    let page_size: u32 = match grant(req.page_size, PageSize::DEFAULT, FS_FIND_PAGE_SIZE_CAP) {
        Ok(n) => n,
        Err(e) => {
            return Err(e);
        },
    };
    let anchor = match cursor {
        Some(decoded) => match anchor_of(decoded) {
            Ok(path) => Some(path),
            Err(e) => {
                return Err(e);
            },
        },
        None => None,
    };
    let modified_since = match since {
        Some(parsed) => match since_of(parsed) {
            Ok(nanos) => Some(nanos),
            Err(e) => {
                return Err(e);
            },
        },
        None => None,
    };
    if is_traversal(req.root.as_str()) {
        return Err(
            SubstrateError::PathTraversalBlocked {
                path: req.root.clone(),
                correlation_id: Some(fresh_correlation_id()),
            },
        );
    }
    Ok(FindQuery { page_size, anchor, modified_since, max_depth: req.max_depth })
}

/// What an accepted request asks of a walk, with the globs that go with it.
pub open spec fn asked(req: FsFindRequest, patterns: Seq<Seq<char>>) -> QueryView {
    QueryView {
        page_size: granted(req.page_size, PageSize::DEFAULT, FS_FIND_PAGE_SIZE_CAP)->0,
        anchor: match req.page_cursor {
            Some(c) => base64_bytes(c@),
            None => None,
        },
        modified_since: match req.modified_since {
            Some(s) => Some(rfc3339_nanos(s@)->Ok_0),
            None => None,
        },
        patterns,
    }
}

/// Accepts or refuses a request before anything is read from the disk.
pub fn prepare_find(req: &FsFindRequest) -> (r: Result<FindQuery, SubstrateError>)
    ensures
        r is Ok <==> refusal(*req, cursor_bytes(*req), since_nanos(*req)) is None,
        r matches Err(e) ==> refusal(*req, cursor_bytes(*req), since_nanos(*req)) == Some(e@),
        r matches Ok(q) ==> {
            &&& forall|patterns: Seq<Seq<char>>| #[trigger]
                q.with_patterns(patterns) == asked(*req, patterns)
            &&& q.page_size >= 1
            &&& q.max_depth == req.max_depth
            &&& q.page_size == match req.page_size {
                Some(n) => if n < 500 {
                    n
                } else {
                    500
                },
                None => 50,
            }
            &&& match req.page_cursor {
                Some(c) => q.anchor matches Some(a) && base64_bytes(c@) == Some(a@),
                None => q.anchor is None,
            }
            &&& match req.modified_since {
                Some(s) => q.modified_since matches Some(n) && rfc3339_nanos(s@) == Ok::<
                    i128,
                    Seq<char>,
                >(n),
                None => q.modified_since is None,
            }
        },
        r is Ok <==> {
            &&& req.page_size matches Some(n) ==> 1 <= n <= 10_000
            &&& req.page_cursor matches Some(c) ==> base64_bytes(c@) is Some
            &&& req.modified_since matches Some(s) ==> rfc3339_nanos(s@) is Ok
            &&& !asks_for_parent(req.root@)
        },
{
    let cursor = match &req.page_cursor {
        Some(c) => Some(base64_decode(c.as_str())),
        None => None,
    };
    let since = match &req.modified_since {
        Some(s) => Some(parse_rfc3339(s.as_str())),
        None => None,
    };
    assert(nested_bytes(cursor) == cursor_bytes(*req));
    assert(parsed_since(since) == since_nanos(*req));
    plan_find(req, cursor, since)
}

/// What a root that the jail refuses is answered with. A root that leaves the
/// allowed roots through a symbolic link lies outside them.
pub open spec fn jail_answer(refused: ErrorView, canonical: Seq<u8>) -> ErrorView {
    match refused {
        ErrorView::SymlinkEscape { .. } => ErrorView::PathOutsideAllowlist {
            path: lossy_text(canonical),
            tagged: true,
        },
        other => other,
    }
}

/// Maps the jail's refusal of a root, whose canonical form is `canonical`.
pub fn map_jail_error(refused: SubstrateError, canonical: &[u8]) -> (r: SubstrateError)
    ensures
        r@ == jail_answer(refused@, canonical@),
        refused is SymlinkEscape ==> r@ == (ErrorView::PathOutsideAllowlist {
            path: lossy_text(canonical@),
            tagged: true,
        }),
        !(refused is SymlinkEscape) ==> r == refused,
{
    match refused {
        SubstrateError::SymlinkEscape { .. } => SubstrateError::PathOutsideAllowlist {
            path: lossy(canonical),
            correlation_id: Some(fresh_correlation_id()),
        },
        other => other,
    }
}

// ---- Globs -----------------------------------------------------------------

/// `globset::GlobSet`: globs that are compiled together.
#[verifier::external_type_specification]
#[verifier::external_body]
pub struct ExGlobSet(globset::GlobSet);

/// Names the globs that a set was compiled from.
pub uninterp spec fn glob_patterns(set: globset::GlobSet) -> Seq<Seq<char>>;

/// Names why a glob cannot be compiled; none where it can.
pub uninterp spec fn glob_failure(pattern: Seq<char>) -> Option<Seq<char>>;

/// Names whether one of a list of globs matches a file name.
pub uninterp spec fn glob_accepts(patterns: Seq<Seq<char>>, name: Seq<u8>) -> bool;

/// How deep the braces of a glob may be nested.
pub const MAX_GLOB_NESTING: usize = 1000;

/// What is seen of the braces of a glob from its start on.
#[verifier::ext_equal]
pub struct BraceScan {
    /// How many braces are open, at most.
    pub depth: nat,
    /// The most that were open at a time.
    pub peak: nat,
    /// Whether the next character is taken as it is.
    pub escaped: bool,
    /// Whether a bracket was seen. What stands in brackets is taken as it is, so from there
    /// on no brace is counted as closed.
    pub bracket: bool,
}

/// What is seen of the braces of a glob.
pub open spec fn brace_scan(pattern: Seq<char>) -> BraceScan
    decreases pattern.len(),
{
    if pattern.len() == 0 {
        BraceScan { depth: 0, peak: 0, escaped: false, bracket: false }
    } else {
        let s = brace_scan(pattern.drop_last());
        let c = pattern.last();
        if s.escaped && !s.bracket {
            BraceScan { escaped: false, ..s }
        } else if c == '{' {
            BraceScan {
                depth: s.depth + 1,
                peak: if s.depth + 1 > s.peak {
                    s.depth + 1
                } else {
                    s.peak
                },
                ..s
            }
        } else if c == '}' && !s.bracket && s.depth > 0 {
            BraceScan { depth: (s.depth - 1) as nat, ..s }
        } else if c == '[' {
            BraceScan { bracket: true, ..s }
        } else if c == '\\' {
            BraceScan { escaped: true, ..s }
        } else {
            s
        }
    }
}

/// How deep the braces of a glob are nested, or more.
pub open spec fn glob_nesting(pattern: Seq<char>) -> nat {
    brace_scan(pattern).peak
}

/// Nesting takes open braces: a glob is not nested deeper than it has characters, one without an
/// open brace is not nested, and one that opens with so many braces is nested at least that deep.
pub proof fn nesting_takes_open_braces(pattern: Seq<char>, n: nat, rest: Seq<char>)
    ensures
        glob_nesting(pattern) <= pattern.len(),
        !pattern.contains('{') ==> glob_nesting(pattern) == 0,
        glob_nesting(Seq::new(n, |i: int| '{') + rest) >= n,
{
    lemma_nesting_bound(pattern);
    lemma_open_braces(n, rest);
}

/// Braces are counted one by one: an open brace adds a level and a closed one ends it, none where
/// none is open. A character behind a backslash is no brace. Once a bracket was seen, backslashes
/// hide nothing and closed braces end nothing.
pub proof fn braces_are_counted_one_by_one(p: Seq<char>, c: char)
    ensures
        ({
            let s = brace_scan(p);
            let t = brace_scan(p.push(c));
            &&& s.escaped && !s.bracket ==> t.depth == s.depth && t.peak == s.peak && !t.escaped
                && !t.bracket
            &&& (!s.escaped || s.bracket) && c == '{' ==> t.depth == s.depth + 1 && t.peak == (
            if s.depth + 1 > s.peak {
                s.depth + 1
            } else {
                s.peak
            }) && t.escaped == s.escaped && t.bracket == s.bracket
            &&& !s.escaped && !s.bracket && c == '}' ==> t.depth == (if s.depth > 0 {
                s.depth - 1
            } else {
                0
            }) && t.peak == s.peak && !t.escaped && !t.bracket
            &&& s.bracket && c != '{' ==> t.depth == s.depth && t.peak == s.peak && t.bracket
            &&& !s.escaped && !s.bracket && c != '{' && c != '}' ==> t.depth == s.depth && t.peak
                == s.peak && t.escaped == (c == '\\') && t.bracket == (c == '[')
        }),
        brace_scan(Seq::empty()) == (BraceScan {
            depth: 0,
            peak: 0,
            escaped: false,
            bracket: false,
        }),
{
    assert(p.push(c).drop_last() =~= p);
}

/// A glob of plain characters and groups that stand side by side is nested one level deep, however
/// many groups there are.
pub proof fn groups_side_by_side_do_not_nest(n: nat, c: char)
    requires
        c != '{' && c != '}' && c != '[' && c != '\\',
    ensures
        glob_nesting(Seq::new(3 * n, |i: int| if i % 3 == 0 { '{' } else if i % 3 == 1 { c } else { '}' }))
            <= 1,
{
    lemma_groups(n, c);
}

proof fn lemma_groups(n: nat, c: char)
    requires
        c != '{' && c != '}' && c != '[' && c != '\\',
    ensures
        ({
            let s = brace_scan(
                Seq::new(
                    3 * n,
                    |i: int| if i % 3 == 0 { '{' } else if i % 3 == 1 { c } else { '}' },
                ),
            );
            s.depth == 0 && s.peak <= 1 && !s.escaped && !s.bracket
        }),
    decreases n,
{
    let all = Seq::new(
        3 * n,
        |i: int| if i % 3 == 0 { '{' } else if i % 3 == 1 { c } else { '}' },
    );
    if n > 0 {
        let m = (n - 1) as nat;
        lemma_groups(m, c);
        let before = Seq::new(
            3 * m,
            |i: int| if i % 3 == 0 { '{' } else if i % 3 == 1 { c } else { '}' },
        );
        let one = before.push('{');
        let two = one.push(c);
        assert(all =~= two.push('}'));
        braces_are_counted_one_by_one(before, '{');
        braces_are_counted_one_by_one(one, c);
        braces_are_counted_one_by_one(two, '}');
    } else {
        assert(all =~= Seq::<char>::empty());
    }
}

proof fn lemma_nesting_bound(pattern: Seq<char>)
    ensures
        brace_scan(pattern).depth <= pattern.len(),
        brace_scan(pattern).peak <= pattern.len(),
        !pattern.contains('{') ==> brace_scan(pattern).peak == 0 && brace_scan(pattern).depth == 0,
    decreases pattern.len(),
{
    if pattern.len() > 0 {
        let front = pattern.drop_last();
        lemma_nesting_bound(front);
        if !pattern.contains('{') {
            assert(!front.contains('{')) by {
                if front.contains('{') {
                    let i = choose|i: int| 0 <= i < front.len() && front[i] == '{';
                    assert(pattern[i] == '{');
                }
            }
            assert(pattern[pattern.len() - 1] != '{');
        }
    }
}

proof fn lemma_open_braces(n: nat, rest: Seq<char>)
    ensures
        brace_scan(Seq::new(n, |i: int| '{')) == (BraceScan {
            depth: n,
            peak: n,
            escaped: false,
            bracket: false,
        }),
        brace_scan(Seq::new(n, |i: int| '{') + rest).peak >= n,
    decreases n, rest.len(),
{
    let open = Seq::new(n, |i: int| '{');
    if n > 0 {
        lemma_open_braces((n - 1) as nat, Seq::empty());
        assert(open.drop_last() =~= Seq::new((n - 1) as nat, |i: int| '{'));
    }
    let all = open + rest;
    if rest.len() == 0 {
        assert(all =~= open);
    } else {
        lemma_open_braces(n, rest.drop_last());
        assert(all.drop_last() =~= open + rest.drop_last());
    }
}

/// Whether the braces of a glob are not nested too deep to be compiled.
pub fn is_nested_within(pattern: &str, max: usize) -> (r: bool)
    ensures
        r == (glob_nesting(pattern@) <= max),
{
    let chars = text::chars_of(pattern);
    let mut depth: usize = 0;
    let mut peak: usize = 0;
    let mut escaped = false;
    let mut bracket = false;
    let mut i: usize = 0;
    while i < chars.len()
        invariant
            chars@ == pattern@,
            i <= chars@.len(),
            depth <= i,
            peak <= i,
            brace_scan(pattern@.take(i as int)) == (BraceScan {
                depth: depth as nat,
                peak: peak as nat,
                escaped,
                bracket,
            }),
        decreases chars@.len() - i,
    {
        let c = chars[i];
        proof {
            let next = pattern@.take(i + 1);
            assert(next.drop_last() =~= pattern@.take(i as int));
            assert(next.last() == c);
        }
        if escaped && !bracket {
            escaped = false;
        } else if c == '{' {
            depth = depth + 1;
            if depth > peak {
                peak = depth;
            }
        } else if c == '}' && !bracket && depth > 0 {
            depth = depth - 1;
        } else if c == '[' {
            bracket = true;
        } else if c == '\\' {
            escaped = true;
        }
        i = i + 1;
    }
    assert(pattern@.take(i as int) =~= pattern@);
    peak <= max
}

/// `globset::GlobBuilder::build` and `globset::GlobSetBuilder::build`: whether the
/// glob compiles, and the message where it does not, are functions of the glob; the
/// set that comes back holds this glob alone. Nested braces take the stack, level by level,
/// so that their depth has to be bounded.
#[verifier::external_body]
fn compile_glob(pattern: &str) -> (r: Result<globset::GlobSet, String>)
    requires
        glob_nesting(pattern@) <= MAX_GLOB_NESTING,
    ensures
        match r {
            Ok(set) => glob_failure(pattern@) is None && glob_patterns(set) == seq![pattern@],
            Err(m) => glob_failure(pattern@) == Some(m@),
        },
{
    match globset::GlobBuilder::new(pattern).literal_separator(false).build() {
        Ok(g) => globset::GlobSetBuilder::new().add(g).build().map_err(|e| e.to_string()),
        Err(e) => Err(e.to_string()),
    }
}

/// `globset::GlobSet::is_match_candidate`: the result is a function of the globs in
/// the set and of the name.
#[verifier::external_body]
fn glob_is_match(set: &globset::GlobSet, name: &[u8]) -> (r: bool)
    ensures
        r == glob_accepts(glob_patterns(*set), name@),
{
    set.is_match_candidate(&globset::Candidate::from_bytes(name))
}

/// What a glob that does not compile is answered with.
pub open spec fn bad_glob(message: Seq<char>) -> ErrorView {
    ErrorView::InvalidArgument {
        offending_field: "pattern"@,
        reason: "invalid glob: "@ + message,
        tagged: false,
    }
}

/// The answer to a glob that does not compile.
pub fn glob_refusal(message: &str) -> (r: SubstrateError)
    ensures
        r@ == bad_glob(message@),
{
    invalid_argument("pattern", text::cat2("invalid glob: ", message), false)
}

/// Compiles the glob of a request. One whose braces are nested too deep is refused.
pub fn compile_pattern(pattern: &str) -> (r: Result<globset::GlobSet, SubstrateError>)
    ensures
        r is Ok <==> glob_nesting(pattern@) <= MAX_GLOB_NESTING && glob_failure(pattern@) is None,
        r matches Ok(set) ==> glob_patterns(set) == seq![pattern@],
        r matches Err(e) ==> e@ == bad_glob(
            if glob_nesting(pattern@) <= MAX_GLOB_NESTING {
                glob_failure(pattern@)->0
            } else {
                "braces are nested too deep"@
            },
        ),
        pattern@.len() <= 1000 ==> (r is Ok <==> glob_failure(pattern@) is None),
        r matches Err(e) ==> glob_nesting(pattern@) <= 1000 ==> e@ == (ErrorView::InvalidArgument {
            offending_field: "pattern"@,
            reason: "invalid glob: "@ + glob_failure(pattern@)->0,
            tagged: false,
        }),
        glob_nesting(pattern@) > 1000 ==> (r matches Err(e) && e@ == (ErrorView::InvalidArgument {
            offending_field: "pattern"@,
            reason: "invalid glob: "@ + "braces are nested too deep"@,
            tagged: false,
        })),
{
    proof {
        nesting_takes_open_braces(pattern@, 0, Seq::empty());
    }
    if !is_nested_within(pattern, MAX_GLOB_NESTING) {
        return Err(glob_refusal("braces are nested too deep"));
    }
    match compile_glob(pattern) {
        Ok(set) => Ok(set),
        Err(m) => Err(glob_refusal(m.as_str())),
    }
}

/// Whether the name that ends a path matches one of the globs. A path without a
/// name does.
pub open spec fn name_accepted(patterns: Seq<Seq<char>>, path: Seq<u8>) -> bool {
    match paths::final_name(path) {
        Some(name) => glob_accepts(patterns, name),
        None => true,
    }
}

/// Whether the name that ends a path matches the compiled globs.
pub fn name_matches(globs: &globset::GlobSet, path: &[u8]) -> (r: bool)
    ensures
        r == name_accepted(glob_patterns(*globs), path@),
        match paths::final_name(path@) {
            Some(name) => r == glob_accepts(glob_patterns(*globs), name),
            None => r,
        },
{
    match paths::file_name(path) {
        Some(name) => glob_is_match(globs, &name),
        None => true,
    }
}

// ---- The walk --------------------------------------------------------------

/// What the operating system says of an entry.
#[derive(Debug, Clone, Copy)]
pub struct EntryMeta {
    pub is_dir: bool,
    pub size: u64,
    /// The modification time in seconds since the Unix epoch, rounded down, where it is
    /// known.
    pub modified_secs: Option<i64>,
    /// The nanoseconds of the modification time beyond these seconds.
    pub modified_nanos: u32,
}

/// The nanoseconds of a second.
pub const NANOS_PER_SEC: i128 = 1_000_000_000;

/// When an entry was modified, in nanoseconds since the Unix epoch. An unknown time counts
/// as the epoch.
pub open spec fn modified_at(m: EntryMeta) -> int {
    match m.modified_secs {
        Some(t) => t * NANOS_PER_SEC + m.modified_nanos,
        None => 0,
    }
}

/// What following a symbolic link to its end gives.
#[derive(Debug, Clone, Copy, PartialEq, Eq, Structural)]
pub enum TargetProbe {
    /// The end exists.
    Found,
    /// The links run in a circle.
    Loop,
    /// The end cannot be reached for another reason.
    Missing,
}

/// An entry that a walk comes to.
#[derive(Debug)]
pub struct WalkEntry {
    pub path: Vec<u8>,
    pub is_symlink: bool,
    /// Where the link leads; of no account for other entries.
    pub target: TargetProbe,
    /// What the entry is, where that could be read.
    pub meta: Option<EntryMeta>,
}

/// What contracts say of a [`WalkEntry`].
#[verifier::ext_equal]
pub struct WalkEntryView {
    pub path: Seq<u8>,
    pub is_symlink: bool,
    pub target: TargetProbe,
    pub meta: Option<EntryMeta>,
}

impl View for WalkEntry {
    type V = WalkEntryView;

    open spec fn view(&self) -> WalkEntryView {
        WalkEntryView {
            path: self.path@,
            is_symlink: self.is_symlink,
            target: self.target,
            meta: self.meta,
        }
    }
}

/// What is said of an entry is what its fields hold.
pub proof fn entries_are_seen_as_walked(e: WalkEntry)
    ensures
        e@.path == e.path@,
        e@.is_symlink == e.is_symlink,
        e@.target == e.target,
        e@.meta == e.meta,
{
}

/// What becomes of an entry.
#[derive(Debug, Clone, Copy, PartialEq, Eq, Structural)]
pub enum Verdict {
    /// It is left out.
    Skip,
    /// It ends the walk: a symbolic link that leads nowhere.
    Loop,
    /// It is on the page.
    Keep,
}

/// Whether a path lies after the anchor of a query.
pub open spec fn past_anchor(anchor: Option<Seq<u8>>, path: Seq<u8>) -> bool {
    anchor is None || paths::path_before(anchor->0, path)
}

/// Whether an entry is as young as the filter asks: it was modified at that instant or
/// later. An entry that could not be read passes.
pub open spec fn young_enough(since: Option<i128>, meta: Option<EntryMeta>) -> bool {
    match (since, meta) {
        (Some(s), Some(m)) => s <= modified_at(m),
        _ => true,
    }
}

/// What becomes of an entry.
pub open spec fn judged(
    anchor: Option<Seq<u8>>,
    since: Option<i128>,
    name_ok: bool,
    e: WalkEntryView,
) -> Verdict {
    if !past_anchor(anchor, e.path) {
        Verdict::Skip
    } else if e.is_symlink && e.target == TargetProbe::Loop {
        Verdict::Loop
    } else if e.is_symlink && e.target == TargetProbe::Missing {
        Verdict::Skip
    } else if name_ok && young_enough(since, e.meta) {
        Verdict::Keep
    } else {
        Verdict::Skip
    }
}

/// What becomes of an entry under a query.
pub open spec fn verdict(q: QueryView, e: WalkEntryView) -> Verdict {
    judged(q.anchor, q.modified_since, name_accepted(q.patterns, e.path), e)
}

/// Whether a path lies after the anchor.
fn is_past(anchor: &Option<Vec<u8>>, path: &[u8]) -> (r: bool)
    ensures
        r == past_anchor(bytes_of(*anchor), path@),
{
    match anchor {
        Some(a) => paths::precedes(a, path),
        None => true,
    }
}

/// Decides what becomes of an entry, given whether its name matches the glob.
pub fn judge_entry(
    anchor: &Option<Vec<u8>>,
    since: Option<i128>,
    name_ok: bool,
    entry: &WalkEntry,
) -> (r: Verdict)
    ensures
        r == judged(bytes_of(*anchor), since, name_ok, entry@),
        r == Verdict::Keep <==> {
            &&& anchor matches Some(a) ==> paths::path_before(a@, entry.path@)
            &&& name_ok
            &&& entry.is_symlink ==> entry.target == TargetProbe::Found
            &&& match (since, entry.meta) {
                (Some(s), Some(m)) => s <= (match m.modified_secs {
                    Some(t) => t * 1_000_000_000 + m.modified_nanos,
                    None => 0,
                }),
                _ => true,
            }
        },
        r == Verdict::Loop <==> {
            &&& anchor matches Some(a) ==> paths::path_before(a@, entry.path@)
            &&& entry.is_symlink && entry.target == TargetProbe::Loop
        },
{
    if !is_past(anchor, &entry.path) {
        return Verdict::Skip;
    }
    if entry.is_symlink {
        match entry.target {
            TargetProbe::Found => {},
            TargetProbe::Loop => {
                return Verdict::Loop;
            },
            TargetProbe::Missing => {
                return Verdict::Skip;
            },
        }
    }
    if !name_ok {
        return Verdict::Skip;
    }
    match (since, entry.meta) {
        (Some(s), Some(m)) => {
            let t: i128 = match m.modified_secs {
                Some(t) => t as i128 * NANOS_PER_SEC + m.modified_nanos as i128,
                None => 0,
            };
            if t < s {
                return Verdict::Skip;
            }
        },
        _ => {},
    }
    Verdict::Keep
}

/// An entry of a page.
#[derive(Debug)]
pub struct FindEntry {
    /// The path as text; bytes that are not UTF-8 are replaced.
    pub path: String,
    /// The path as it is.
    pub raw_path: Vec<u8>,
    /// The size in bytes; none for directories.
    pub size_bytes: Option<u64>,
    /// The modification time in RFC 3339.
    pub modified_at: Option<String>,
    pub is_dir: bool,
}

/// What contracts say of a [`FindEntry`].
#[verifier::ext_equal]
pub struct FindEntryView {
    pub path: Seq<char>,
    pub raw_path: Seq<u8>,
    pub size_bytes: Option<u64>,
    pub modified_at: Option<Seq<char>>,
    pub is_dir: bool,
}

impl View for FindEntry {
    type V = FindEntryView;

    open spec fn view(&self) -> FindEntryView {
        FindEntryView {
            path: self.path@,
            raw_path: self.raw_path@,
            size_bytes: self.size_bytes,
            modified_at: text_of(self.modified_at),
            is_dir: self.is_dir,
        }
    }
}

/// What is said of a match is what its fields hold.
pub proof fn matches_are_seen_as_listed(e: FindEntry)
    ensures
        e@.path == e.path@,
        e@.raw_path == e.raw_path@,
        e@.size_bytes == e.size_bytes,
        match e.modified_at {
            Some(x) => e@.modified_at == Some(x@),
            None => e@.modified_at is None,
        },
        e@.is_dir == e.is_dir,
{
}

/// A time as the number that is shown: times before the epoch count as the epoch.
pub open spec fn from_epoch(secs: i64) -> u64 {
    if secs < 0 {
        0
    } else {
        secs as u64
    }
}

/// How an entry is listed.
pub open spec fn listed(path: Seq<u8>, meta: Option<EntryMeta>) -> FindEntryView {
    FindEntryView {
        path: lossy_text(path),
        raw_path: path,
        size_bytes: match meta {
            Some(m) => if m.is_dir {
                None
            } else {
                Some(m.size)
            },
            None => None,
        },
        modified_at: match meta {
            Some(m) => match m.modified_secs {
                Some(t) => Some(shown_time(from_epoch(t))),
                None => None,
            },
            None => None,
        },
        is_dir: meta is Some && meta->0.is_dir,
    }
}

/// Lists an entry.
pub fn list_entry(path: Vec<u8>, meta: Option<EntryMeta>) -> (r: FindEntry)
    ensures
        r@ == listed(path@, meta),
        r.path@ == lossy_text(path@),
        r.raw_path@ == path@,
        meta is None ==> !r.is_dir && r.size_bytes is None && r.modified_at is None,
        meta matches Some(m) ==> {
            &&& r.is_dir == m.is_dir
            &&& r.size_bytes == (if m.is_dir {
                None
            } else {
                Some(m.size)
            })
            &&& r.modified_at is Some <==> m.modified_secs is Some
            &&& m.modified_secs matches Some(t) ==> match rfc3339_text(
                if t < 0 {
                    0
                } else {
                    t
                },
            ) {
                Some(Some(s)) => r.modified_at matches Some(x) && x@ == s,
                Some(None) => r.modified_at matches Some(x) && x@ == text::decimal(
                    if t < 0 {
                        0
                    } else {
                        t as nat
                    },
                ),
                None => rfc3339_text(0) matches Some(Some(s)) ==> r.modified_at matches Some(x) && x@
                    == s,
            }
        },
{
    let text = lossy(&path);
    match meta {
        Some(m) => {
            let modified_at = match m.modified_secs {
                Some(t) => {
                    let secs: u64 = if t < 0 {
                        0
                    } else {
                        t as u64
                    };
                    Some(format_unix_secs(secs))
                },
                None => None,
            };
            let size_bytes = if m.is_dir {
                None
            } else {
                Some(m.size)
            };
            FindEntry { path: text, raw_path: path, size_bytes, modified_at, is_dir: m.is_dir }
        },
        None => FindEntry {
            path: text,
            raw_path: path,
            size_bytes: None,
            modified_at: None,
            is_dir: false,
        },
    }
}

/// What a walker that fails is answered with: `message` is the walker's own.
pub open spec fn walk_failure(message: Seq<char>, is_loop: bool) -> ErrorView {
    if is_loop {
        ErrorView::SymlinkLoop { path: message, tagged: true }
    } else {
        ErrorView::IoError { path: message, tagged: true }
    }
}

/// Maps the failure of a walker; `is_loop` says that the system reported a circle
/// of symbolic links.
pub fn walker_err_to_substrate(message: String, is_loop: bool) -> (r: SubstrateError)
    ensures
        r@ == walk_failure(message@, is_loop),
        is_loop ==> r@ == (ErrorView::SymlinkLoop { path: message@, tagged: true }),
        !is_loop ==> r@ == (ErrorView::IoError { path: message@, tagged: true }),
{
    let correlation_id = Some(fresh_correlation_id());
    if is_loop {
        SubstrateError::SymlinkLoop { path: message, correlation_id }
    } else {
        SubstrateError::IoError { path: message, correlation_id }
    }
}

/// What happens during a walk.
#[derive(Debug)]
pub enum WalkEvent {
    /// The walk comes to an entry.
    Entry(WalkEntry),
    /// The walk fails.
    Failed { message: String, is_loop: bool },
    /// The client no longer wants the answer.
    Cancelled,
}

/// What contracts say of a [`WalkEvent`].
#[verifier::ext_equal]
pub enum WalkEventView {
    Entry(WalkEntryView),
    Failed { message: Seq<char>, is_loop: bool },
    Cancelled,
}

impl View for WalkEvent {
    type V = WalkEventView;

    open spec fn view(&self) -> WalkEventView {
        match self {
            WalkEvent::Entry(e) => WalkEventView::Entry(e@),
            WalkEvent::Failed { message, is_loop } => WalkEventView::Failed {
                message: message@,
                is_loop: *is_loop,
            },
            WalkEvent::Cancelled => WalkEventView::Cancelled,
        }
    }
}

/// What is said of what happens during a walk is what it holds.
pub proof fn walks_are_seen_as_they_go(w: WalkEvent)
    ensures
        match w {
            WalkEvent::Entry(e) => w@ == (WalkEventView::Entry(e@)),
            WalkEvent::Failed { message, is_loop } => w@ == (WalkEventView::Failed {
                message: message@,
                is_loop: is_loop,
            }),
            WalkEvent::Cancelled => w@ == (WalkEventView::Cancelled),
        },
{
}

/// How far a page has come.
#[verifier::ext_equal]
pub enum Progress {
    /// The entries so far; there is room for more.
    Collecting(Seq<FindEntryView>),
    /// One entry more than the page holds: there is a next page.
    Full(Seq<FindEntryView>),
    /// The walk is over without a page.
    Failed(ErrorView),
}

/// How a page goes on after one more event.
pub open spec fn advanced(q: QueryView, found: Seq<FindEntryView>, ev: WalkEventView) -> Progress {
    match ev {
        WalkEventView::Cancelled => Progress::Failed(ErrorView::Cancelled { tagged: false }),
        WalkEventView::Failed { message, is_loop } => Progress::Failed(
            walk_failure(message, is_loop),
        ),
        WalkEventView::Entry(e) => match verdict(q, e) {
            Verdict::Skip => Progress::Collecting(found),
            Verdict::Loop => Progress::Failed(
                ErrorView::SymlinkLoop { path: lossy_text(e.path), tagged: true },
            ),
            Verdict::Keep => {
                let more = found.push(listed(e.path, e.meta));
                if more.len() > q.page_size {
                    Progress::Full(more)
                } else {
                    Progress::Collecting(more)
                }
            },
        },
    }
}

/// How a page stands after one more event: once it is full or has failed, nothing
/// changes it.
pub open spec fn stepped(q: QueryView, p: Progress, ev: WalkEventView) -> Progress {
    match p {
        Progress::Collecting(found) => advanced(q, found, ev),
        other => other,
    }
}

/// How a page stands after a whole list of events.
pub open spec fn walked(q: QueryView, events: Seq<WalkEventView>) -> Progress
    decreases events.len(),
{
    if events.len() == 0 {
        Progress::Collecting(Seq::empty())
    } else {
        stepped(q, walked(q, events.drop_last()), events.last())
    }
}

/// The entries of a list, one by one.
pub open spec fn entry_views(v: Seq<FindEntry>) -> Seq<FindEntryView> {
    Seq::new(v.len(), |i: int| v[i]@)
}

/// The matches of a list are its own, one by one.
pub proof fn matches_are_seen_one_by_one(v: Seq<FindEntry>)
    ensures
        entry_views(v).len() == v.len(),
        forall|i: int| 0 <= i < v.len() ==> entry_views(v)[i] == (#[trigger] v[i])@,
{
}

/// A page under way.
#[derive(Debug)]
enum WalkState {
    Collecting(Vec<FindEntry>),
    Full(Vec<FindEntry>),
    Failed(SubstrateError),
}

/// One page of `fs.find` while the tree is walked.
#[derive(Debug)]
pub struct FindWalk {
    query: FindQuery,
    globs: globset::GlobSet,
    state: WalkState,
}

/// Whether the paths of all entries can be put into a cursor.
pub open spec fn cursors_fit(found: Seq<FindEntryView>) -> bool {
    forall|i: int| 0 <= i < found.len() ==> base64_fits((#[trigger] found[i]).raw_path.len())
}

impl FindWalk {
    /// What the walk looks for.
    pub closed spec fn query(&self) -> QueryView {
        self.query.with_patterns(glob_patterns(self.globs))
    }

    /// How far the page has come.
    pub closed spec fn progress(&self) -> Progress {
        match self.state {
            WalkState::Collecting(found) => Progress::Collecting(entry_views(found@)),
            WalkState::Full(found) => Progress::Full(entry_views(found@)),
            WalkState::Failed(e) => Progress::Failed(e@),
        }
    }

    /// The page is never over-full, and its paths can be put into a cursor.
    pub open spec fn wf(&self) -> bool {
        &&& self.query().page_size >= 1
        &&& match self.progress() {
            Progress::Collecting(found) => found.len() <= self.query().page_size && cursors_fit(
                found,
            ),
            Progress::Full(found) => found.len() == self.query().page_size + 1 && cursors_fit(found),
            Progress::Failed(_) => true,
        }
    }

    /// Starts a page.
    pub fn new(query: FindQuery, globs: globset::GlobSet) -> (r: FindWalk)
        requires
            query.page_size >= 1,
        ensures
            r.wf(),
            r.query() == query.with_patterns(glob_patterns(globs)),
            r.query().page_size == query.page_size,
            r.query().modified_since == query.modified_since,
            r.query().patterns == glob_patterns(globs),
            match query.anchor {
                Some(a) => r.query().anchor == Some(a@),
                None => r.query().anchor is None,
            },
            r.depth() == query.max_depth,
            r.progress() == Progress::Collecting(Seq::empty()),
    {
        let r = FindWalk { query, globs, state: WalkState::Collecting(Vec::new()) };
        assert(r.progress() =~= Progress::Collecting(Seq::empty()));
        r
    }

    /// How deep the walk goes.
    pub closed spec fn depth(&self) -> u32 {
        self.query.max_depth
    }

    /// How deep the walk goes.
    pub fn max_depth(&self) -> (r: u32)
        ensures
            r == self.depth(),
    {
        self.query.max_depth
    }

    /// Whether the end of a symbolic link has to be looked up before the entry is
    /// offered. Where it has not, what the lookup would give is of no account.
    pub fn wants_target(&self, path: &[u8], is_symlink: bool) -> (r: bool)
        ensures
            r == (is_symlink && past_anchor(self.query().anchor, path@)),
            r <==> is_symlink && (self.query().anchor matches Some(a) ==> paths::path_before(
                a,
                path@,
            )),
    {
        is_symlink && is_past(&self.query.anchor, path)
    }

    /// Whether the metadata of an entry have to be read before it is offered. Where
    /// they have not, what they are is of no account.
    pub fn wants_metadata(&self, path: &[u8], is_symlink: bool, target: TargetProbe) -> (r: bool)
        ensures
            r == (past_anchor(self.query().anchor, path@) && (!is_symlink || target
                == TargetProbe::Found) && name_accepted(self.query().patterns, path@)),
            r <==> {
                &&& self.query().anchor matches Some(a) ==> paths::path_before(a, path@)
                &&& is_symlink ==> target == TargetProbe::Found
                &&& paths::final_name(path@) matches Some(n) ==> glob_accepts(
                    self.query().patterns,
                    n,
                )
            },
    {
        is_past(&self.query.anchor, path) && (!is_symlink || target == TargetProbe::Found)
            && name_matches(&self.globs, path)
    }

    /// Takes one event of the walk. The result says whether the walk goes on.
    pub fn step(&mut self, event: WalkEvent) -> (more: bool)
        requires
            old(self).wf(),
            event matches WalkEvent::Entry(e) ==> base64_fits(e.path@.len()),
        ensures
            final(self).wf(),
            final(self).query() == old(self).query(),
            final(self).depth() == old(self).depth(),
            final(self).progress() == stepped(old(self).query(), old(self).progress(), event@),
            more == (final(self).progress() is Collecting),
            !(old(self).progress() is Collecting) ==> final(self).progress() == old(
                self,
            ).progress(),
            old(self).progress() is Collecting && event is Cancelled ==> final(self).progress()
                == Progress::Failed(ErrorView::Cancelled { tagged: false }),
            event matches WalkEvent::Failed { message, is_loop } ==> old(self).progress()
                is Collecting ==> final(self).progress() == Progress::Failed(
                if is_loop {
                    ErrorView::SymlinkLoop { path: message@, tagged: true }
                } else {
                    ErrorView::IoError { path: message@, tagged: true }
                },
            ),
    {
        let mut found: Vec<FindEntry> = match &mut self.state {
            WalkState::Collecting(found) => {
                let mut taken: Vec<FindEntry> = Vec::new();
                std::mem::swap(&mut taken, found);
                taken
            },
            _ => {
                return false;
            },
        };
        let ghost before = entry_views(found@);
        assert(before == old(self).progress()->Collecting_0);
        match event {
            WalkEvent::Cancelled => {
                self.state = WalkState::Failed(SubstrateError::Cancelled { correlation_id: None });
                false
            },
            WalkEvent::Failed { message, is_loop } => {
                self.state = WalkState::Failed(walker_err_to_substrate(message, is_loop));
                false
            },
            WalkEvent::Entry(entry) => {
                let name_ok = name_matches(&self.globs, &entry.path);
                match judge_entry(
                    &self.query.anchor,
                    self.query.modified_since,
                    name_ok,
                    &entry,
                ) {
                    Verdict::Skip => {
                        self.state = WalkState::Collecting(found);
                        true
                    },
                    Verdict::Loop => {
                        self.state = WalkState::Failed(
                            SubstrateError::SymlinkLoop {
                                path: lossy(&entry.path),
                                correlation_id: Some(fresh_correlation_id()),
                            },
                        );
                        false
                    },
                    Verdict::Keep => {
                        let item = list_entry(entry.path, entry.meta);
                        found.push(item);
                        proof {
                            assert(entry_views(found@) =~= before.push(item@));
                        }
                        if found.len() > self.query.page_size as usize {
                            self.state = WalkState::Full(found);
                            false
                        } else {
                            self.state = WalkState::Collecting(found);
                            true
                        }
                    },
                }
            },
        }
    }

    /// Ends the walk and makes the answer.
    pub fn finish(self, caps: &Capabilities) -> (r: Result<ToolResponse<FindPage>, SubstrateError>)
        requires
            self.wf(),
        ensures
            match self.progress() {
                Progress::Failed(e) => r matches Err(x) && x@ == e,
                Progress::Collecting(found) => {
                    &&& r matches Ok(t)
                    &&& entry_views(t.structured_content.matches@) == found
                    &&& t.structured_content.next_cursor is None
                    &&& t.content@ == find_summary(found.len())
                    &&& t.hints@ == find_hints(*caps)
                },
                Progress::Full(found) => {
                    let page = found.take(self.query().page_size as int);
                    &&& r matches Ok(t)
                    &&& entry_views(t.structured_content.matches@) == page
                    &&& t.structured_content.next_cursor matches Some(c)
                    &&& c@ == base64_text(page.last().raw_path)
                    &&& base64_bytes(c@) == Some(page.last().raw_path)
                    &&& t.content@ == find_summary(page.len())
                    &&& t.hints@ == find_hints(*caps)
                },
            },
            r matches Ok(t) ==> {
                &&& t.hints@.next_action_suggested == Some("fs.read"@)
                &&& t.hints@.alternative_tool == Some("fs.stat"@)
                &&& t.hints@.error_recovery == Some(
                        "Narrow the pattern or reduce max_depth on large trees"@,
                    )
                &&& t.hints@.confirm_destructive == Some(false)
                &&& t.hints@.simd_tier_used == Some(caps.simd_tier.label())
                &&& t.hints@.walker_tier_used == Some(caps.walker_tier.label())
                &&& t.content@ == "USE: locate files in directory tree\nDOES: returned "@
                    + text::decimal(t.structured_content.matches@.len())
                    + " entries\nNEXT: fs.read, fs.stat\nAVOID: recursive fs.read_dir → use fs.find"@
            },
    {
        let (mut found, has_more) = match self.state {
            WalkState::Failed(e) => {
                return Err(e);
            },
            WalkState::Collecting(found) => (found, false),
            WalkState::Full(found) => (found, true),
        };
        let ghost all = entry_views(found@);
        let next_cursor = if has_more {
            found.truncate(self.query.page_size as usize);
            proof {
                assert(entry_views(found@) =~= all.take(self.query.page_size as int));
                assert(all.take(self.query.page_size as int).last() == all[self.query.page_size
                    - 1]);
            }
            Some(encode_cursor(&found[found.len() - 1].raw_path))
        } else {
            None
        };
        let content = text::cat3(
            "USE: locate files in directory tree\nDOES: returned ",
            text::decimal_text(found.len() as u64).as_str(),
            " entries\nNEXT: fs.read, fs.stat\nAVOID: recursive fs.read_dir → use fs.find",
        );
        let hints = build_hints(
            Some("fs.read"),
            Some("fs.stat"),
            Some("Narrow the pattern or reduce max_depth on large trees"),
            caps,
            true,
        );
        Ok(ToolResponse::with_hints(content, FindPage { matches: found, next_cursor }, hints))
    }
}

/// A page of `fs.find`.
#[derive(Debug)]
pub struct FindPage {
    pub matches: Vec<FindEntry>,
    /// The cursor of the next page, where there is one.
    pub next_cursor: Option<String>,
}

/// The text that goes with a page of `n` entries.
pub open spec fn find_summary(n: nat) -> Seq<char> {
    "USE: locate files in directory tree\nDOES: returned "@ + text::decimal(n)
        + " entries\nNEXT: fs.read, fs.stat\nAVOID: recursive fs.read_dir → use fs.find"@
}

/// The hints that go with a page.
pub open spec fn find_hints(caps: Capabilities) -> HintsView {
    read_hints(
        Some("fs.read"@),
        Some("fs.stat"@),
        Some("Narrow the pattern or reduce max_depth on large trees"@),
        caps,
        true,
    )
}

// ---- What holds of pages ---------------------------------------------------

/// The entries that a query finds in a tree, without a limit.
pub open spec fn matches_in(q: QueryView, entries: Seq<WalkEntryView>) -> Seq<FindEntryView>
    decreases entries.len(),
{
    if entries.len() == 0 {
        Seq::empty()
    } else {
        let rest = matches_in(q, entries.drop_last());
        let e = entries.last();
        if verdict(q, e) == Verdict::Keep {
            rest.push(listed(e.path, e.meta))
        } else {
            rest
        }
    }
}

/// Of one entry, a query finds the entry itself where it lies past the anchor, its name is
/// one that the glob accepts, it is no symbolic link that leads nowhere, and it was not
/// modified before the time that is asked for, whatever kind of entry it is; and otherwise
/// nothing.
pub proof fn entries_are_found_by_their_own_facts(q: QueryView, e: WalkEntryView)
    ensures
        matches_in(q, seq![e]) == if {
            &&& q.anchor matches Some(a) ==> paths::path_before(a, e.path)
            &&& paths::final_name(e.path) matches Some(n) ==> glob_accepts(q.patterns, n)
            &&& e.is_symlink ==> e.target == TargetProbe::Found
            &&& match (q.modified_since, e.meta) {
                (Some(s), Some(m)) => s <= (match m.modified_secs {
                    Some(t) => t * 1_000_000_000 + m.modified_nanos,
                    None => 0,
                }),
                _ => true,
            }
        } {
            seq![listed(e.path, e.meta)]
        } else {
            Seq::<FindEntryView>::empty()
        },
{
    assert(seq![e].drop_last() =~= Seq::<WalkEntryView>::empty());
    assert(matches_in(q, seq![e].drop_last()) == Seq::<FindEntryView>::empty());
    assert(Seq::<FindEntryView>::empty().push(listed(e.path, e.meta)) =~= seq![
        listed(e.path, e.meta),
    ]);
}

/// What a query finds in two parts of a tree is what it finds in the first part, then what it
/// finds in the second.
pub proof fn parts_are_searched_alike(
    q: QueryView,
    a: Seq<WalkEntryView>,
    b: Seq<WalkEntryView>,
)
    ensures
        matches_in(q, a + b) == matches_in(q, a) + matches_in(q, b),
        matches_in(q, Seq::empty()) == Seq::<FindEntryView>::empty(),
    decreases b.len(),
{
    if b.len() == 0 {
        assert(a + b =~= a);
        assert(matches_in(q, a) + matches_in(q, b) =~= matches_in(q, a));
    } else {
        parts_are_searched_alike(q, a, b.drop_last());
        assert((a + b).drop_last() =~= a + b.drop_last());
        assert((a + b).last() == b.last());
        assert(matches_in(q, a + b) =~= matches_in(q, a) + matches_in(q, b));
    }
}

/// Nothing is missed: an entry past the anchor whose name the glob accepts, that is no symbolic
/// link with a missing or looping end, and that was not modified before the time that is asked
/// for, is among what a query finds, directories and unreadable entries too.
pub proof fn every_match_is_found(q: QueryView, entries: Seq<WalkEntryView>, k: int)
    requires
        0 <= k < entries.len(),
        ({
            let e = entries[k];
            &&& q.anchor matches Some(a) ==> paths::path_before(a, e.path)
            &&& paths::final_name(e.path) matches Some(n) ==> glob_accepts(q.patterns, n)
            &&& e.is_symlink ==> e.target == TargetProbe::Found
            &&& match (q.modified_since, e.meta) {
                (Some(s), Some(m)) => s <= (match m.modified_secs {
                    Some(t) => t * 1_000_000_000 + m.modified_nanos,
                    None => 0,
                }),
                _ => true,
            }
        }),
    ensures
        matches_in(q, entries).contains(listed(entries[k].path, entries[k].meta)),
{
    let e = entries[k];
    let head = entries.take(k);
    let tail = entries.skip(k + 1);
    let found = matches_in(q, head);
    assert(entries =~= head + (seq![e] + tail));
    parts_are_searched_alike(q, head, seq![e] + tail);
    parts_are_searched_alike(q, seq![e], tail);
    entries_are_found_by_their_own_facts(q, e);
    assert(matches_in(q, entries)[found.len() as int] == listed(e.path, e.meta));
}

/// Nothing else is found: each entry that a query finds stands for one of the tree that lies
/// past the anchor, has a name that the glob accepts, is no symbolic link with a missing or
/// looping end, and was not modified before the time that is asked for.
pub proof fn only_matches_are_found(q: QueryView, entries: Seq<WalkEntryView>, n: int) -> (k: int)
    requires
        0 <= n < matches_in(q, entries).len(),
    ensures
        0 <= k < entries.len(),
        matches_in(q, entries)[n] == listed(entries[k].path, entries[k].meta),
        ({
            let e = entries[k];
            &&& q.anchor matches Some(a) ==> paths::path_before(a, e.path)
            &&& paths::final_name(e.path) matches Some(n) ==> glob_accepts(q.patterns, n)
            &&& e.is_symlink ==> e.target == TargetProbe::Found
            &&& match (q.modified_since, e.meta) {
                (Some(s), Some(m)) => s <= (match m.modified_secs {
                    Some(t) => t * 1_000_000_000 + m.modified_nanos,
                    None => 0,
                }),
                _ => true,
            }
        }),
{
    lemma_nth_match(q, entries, n + 1)
}

/// An entry is listed as what it is: with its path, with its size unless it is a directory, and
/// with the RFC 3339 form of its modification time. Entries whose times have different forms
/// are listed with different times.
pub proof fn entries_are_listed_with_their_facts(
    path: Seq<u8>,
    m: EntryMeta,
    t: i64,
    other: EntryMeta,
    u: i64,
)
    requires
        t >= 0,
        u >= 0,
        m.modified_secs == Some(t),
        other.modified_secs == Some(u),
        rfc3339_text(t) matches Some(Some(_)),
        rfc3339_text(u) matches Some(Some(_)),
    ensures
        listed(path, Some(m)).raw_path == path,
        listed(path, Some(m)).path == lossy_text(path),
        listed(path, Some(m)).is_dir == m.is_dir,
        listed(path, Some(m)).size_bytes is Some <==> !m.is_dir,
        listed(path, Some(m)).size_bytes matches Some(n) ==> n == m.size,
        Some(listed(path, Some(m)).modified_at) == rfc3339_text(t),
        listed(path, Some(m)).modified_at == listed(path, Some(other)).modified_at
            <==> rfc3339_text(t) == rfc3339_text(u),
        listed(path, Some(EntryMeta { modified_secs: None, ..m })).modified_at is None,
        listed(path, None).raw_path == path && listed(path, None).path == lossy_text(path),
        !listed(path, None).is_dir && listed(path, None).size_bytes is None && listed(
            path,
            None,
        ).modified_at is None,
{
}

/// A later bound finds fewer entries: what is found with a later bound is found with an
/// earlier one, and with none.
pub proof fn later_bounds_find_fewer(
    q: QueryView,
    early: i128,
    late: i128,
    entries: Seq<WalkEntryView>,
    x: FindEntryView,
)
    requires
        early <= late,
        matches_in(QueryView { modified_since: Some(late), ..q }, entries).contains(x),
    ensures
        matches_in(QueryView { modified_since: Some(early), ..q }, entries).contains(x),
        matches_in(QueryView { modified_since: None, ..q }, entries).contains(x),
{
    let ql = QueryView { modified_since: Some(late), ..q };
    let n = choose|n: int| 0 <= n < matches_in(ql, entries).len() && matches_in(ql, entries)[n] == x;
    let k = only_matches_are_found(ql, entries, n);
    every_match_is_found(QueryView { modified_since: Some(early), ..q }, entries, k);
    every_match_is_found(QueryView { modified_since: None, ..q }, entries, k);
}

/// A walk that meets a circle of links, fails or is cancelled before its page is full is
/// answered with that, and nothing that comes later changes it; a page that is full stays so.
pub proof fn the_first_failure_ends_the_walk(
    q: QueryView,
    before: Seq<WalkEventView>,
    ev: WalkEventView,
    after: Seq<WalkEventView>,
)
    ensures
        walked(q, before) is Collecting && ev is Cancelled ==> walked(q, before + seq![ev] + after)
            == Progress::Failed(ErrorView::Cancelled { tagged: false }),
        walked(q, before) is Collecting ==> (ev matches WalkEventView::Failed { message, is_loop }
            ==> walked(q, before + seq![ev] + after) == Progress::Failed(
            if is_loop {
                ErrorView::SymlinkLoop { path: message, tagged: true }
            } else {
                ErrorView::IoError { path: message, tagged: true }
            },
        )),
        walked(q, before) is Collecting ==> (ev matches WalkEventView::Entry(e) ==> e.is_symlink
            && e.target == TargetProbe::Loop && (q.anchor matches Some(a) ==> paths::path_before(
            a,
            e.path,
        )) ==> walked(q, before + seq![ev] + after) == Progress::Failed(
            ErrorView::SymlinkLoop { path: lossy_text(e.path), tagged: true },
        )),
        !(walked(q, before) is Collecting) ==> walked(q, before + seq![ev] + after) == walked(
            q,
            before,
        ),
    decreases after.len(),
{
    if after.len() == 0 {
        assert(before + seq![ev] + after =~= before.push(ev));
        assert(before.push(ev).drop_last() =~= before);
    } else {
        let all = before + seq![ev] + after;
        the_first_failure_ends_the_walk(q, before, ev, after.drop_last());
        assert(all.drop_last() =~= before + seq![ev] + after.drop_last());
    }
}

/// A walk that comes to the given entries, one after the other.
pub open spec fn visits(entries: Seq<WalkEntryView>) -> Seq<WalkEventView> {
    Seq::new(entries.len(), |i: int| WalkEventView::Entry(entries[i]))
}

/// Whether no entry is a symbolic link that runs in a circle.
pub open spec fn loop_free(entries: Seq<WalkEntryView>) -> bool {
    forall|i: int|
        0 <= i < entries.len() ==> !((#[trigger] entries[i]).is_symlink && entries[i].target
            == TargetProbe::Loop)
}

/// Whether a tree is listed in the order of paths.
pub open spec fn in_path_order(entries: Seq<WalkEntryView>) -> bool {
    forall|i: int, j: int|
        0 <= i < j < entries.len() ==> paths::path_before(
            (#[trigger] entries[i]).path,
            (#[trigger] entries[j]).path,
        )
}

/// A page holds the first entries that the query finds: all of them where they fit
/// on a page, and one more than the page holds where they do not.
pub proof fn page_is_first_matches(q: QueryView, entries: Seq<WalkEntryView>)
    requires
        loop_free(entries),
    ensures
        matches_in(q, entries).len() <= q.page_size ==> walked(q, visits(entries))
            == Progress::Collecting(matches_in(q, entries)),
        matches_in(q, entries).len() > q.page_size ==> walked(q, visits(entries)) == Progress::Full(
            matches_in(q, entries).take(q.page_size + 1),
        ),
    decreases entries.len(),
{
    let events = visits(entries);
    if entries.len() > 0 {
        let front = entries.drop_last();
        assert(loop_free(front)) by {
            assert forall|i: int| 0 <= i < front.len() implies !((#[trigger] front[i]).is_symlink
                && front[i].target == TargetProbe::Loop) by {
                assert(front[i] == entries[i]);
            }
        }
        page_is_first_matches(q, front);
        assert(events.drop_last() =~= visits(front));
        let e = entries.last();
        assert(entries[entries.len() - 1] == e);
        assert(events.last() == WalkEventView::Entry(e));
        let before = matches_in(q, front);
        let all = matches_in(q, entries);
        if verdict(q, e) == Verdict::Keep && before.len() > q.page_size {
            assert(all.take(q.page_size + 1) =~= before.take(q.page_size + 1));
        }
        if verdict(q, e) == Verdict::Keep && before.len() == q.page_size {
            assert(all.take(q.page_size + 1) =~= all);
        }
    } else {
        assert(events =~= Seq::empty());
    }
}

/// The query of the next page: it starts after the path `anchor`.
pub open spec fn resumed(q: QueryView, anchor: Seq<u8>) -> QueryView {
    QueryView { anchor: Some(anchor), ..q }
}

proof fn lemma_skipped_before(q: QueryView, entries: Seq<WalkEntryView>, anchor: Seq<u8>)
    requires
        forall|i: int|
            0 <= i < entries.len() ==> !paths::path_before(anchor, (#[trigger] entries[i]).path),
    ensures
        matches_in(resumed(q, anchor), entries) == Seq::<FindEntryView>::empty(),
    decreases entries.len(),
{
    if entries.len() > 0 {
        let front = entries.drop_last();
        assert forall|i: int| 0 <= i < front.len() implies !paths::path_before(
            anchor,
            (#[trigger] front[i]).path,
        ) by {
            assert(front[i] == entries[i]);
        }
        lemma_skipped_before(q, front, anchor);
        assert(entries[entries.len() - 1] == entries.last());
    }
}

proof fn lemma_resume_at(q: QueryView, entries: Seq<WalkEntryView>, k: int)
    requires
        in_path_order(entries),
        0 <= k < entries.len(),
        verdict(q, entries[k]) == Verdict::Keep,
    ensures
        matches_in(q, entries) == matches_in(q, entries.take(k + 1)) + matches_in(
            resumed(q, entries[k].path),
            entries,
        ),
    decreases entries.len(),
{
    let a = entries[k].path;
    let front = entries.drop_last();
    if k == entries.len() - 1 {
        assert(entries.take(k + 1) =~= entries);
        assert forall|i: int| 0 <= i < entries.len() implies !paths::path_before(
            a,
            (#[trigger] entries[i]).path,
        ) by {
            paths::path_order_is_strict(entries[i].path, a, a);
            if i < k {
                assert(paths::path_before(entries[i].path, entries[k].path));
            }
        }
        lemma_skipped_before(q, entries, a);
        assert(matches_in(q, entries) + Seq::<FindEntryView>::empty() =~= matches_in(q, entries));
    } else {
        assert(in_path_order(front)) by {
            assert forall|i: int, j: int| 0 <= i < j < front.len() implies paths::path_before(
                (#[trigger] front[i]).path,
                (#[trigger] front[j]).path,
            ) by {
                assert(front[i] == entries[i] && front[j] == entries[j]);
            }
        }
        assert(front[k] == entries[k]);
        lemma_resume_at(q, front, k);
        assert(front.take(k + 1) =~= entries.take(k + 1));
        let e = entries.last();
        assert(e == entries[entries.len() - 1]);
        assert(paths::path_before(a, e.path));
        if q.anchor is Some {
            paths::path_order_is_strict(q.anchor->0, a, e.path);
        }
        assert(verdict(resumed(q, a), e) == verdict(q, e));
        assert(matches_in(q, entries) =~= matches_in(q, entries.take(k + 1)) + matches_in(
            resumed(q, a),
            entries,
        ));
    }
}

proof fn lemma_nth_match(q: QueryView, entries: Seq<WalkEntryView>, n: int) -> (k: int)
    requires
        0 < n <= matches_in(q, entries).len(),
    ensures
        0 <= k < entries.len(),
        verdict(q, entries[k]) == Verdict::Keep,
        matches_in(q, entries.take(k + 1)) == matches_in(q, entries).take(n),
        matches_in(q, entries)[n - 1] == listed(entries[k].path, entries[k].meta),
    decreases entries.len(),
{
    let front = entries.drop_last();
    let e = entries.last();
    let before = matches_in(q, front);
    let all = matches_in(q, entries);
    if n <= before.len() {
        let k = lemma_nth_match(q, front, n);
        assert(front.take(k + 1) =~= entries.take(k + 1));
        assert(before.take(n) =~= all.take(n));
        assert(front[k] == entries[k]);
        k
    } else {
        let k = entries.len() - 1;
        assert(entries.take(k + 1) =~= entries);
        assert(all.take(n) =~= all);
        k
    }
}

/// Pages follow each other without a gap and without a repetition: where a tree is
/// listed in the order of paths and a query finds more than a page holds, the query
/// that resumes after the last path of the page finds exactly the entries that the
/// page left over.
pub proof fn next_page_resumes_after_page(q: QueryView, entries: Seq<WalkEntryView>)
    requires
        in_path_order(entries),
        0 < q.page_size < matches_in(q, entries).len(),
    ensures
        matches_in(
            resumed(q, matches_in(q, entries)[q.page_size - 1].raw_path),
            entries,
        ) == matches_in(q, entries).skip(q.page_size as int),
{
    let n = q.page_size as int;
    let all = matches_in(q, entries);
    let k = lemma_nth_match(q, entries, n);
    lemma_resume_at(q, entries, k);
    let rest = matches_in(resumed(q, entries[k].path), entries);
    assert(all == all.take(n) + rest);
    assert(all.skip(n) =~= rest);
}

/// The pages that a client gets who asks again with the cursor of each page, in an unchanged
/// tree, until there is no cursor or `requests` requests were made.
pub open spec fn search(q: QueryView, entries: Seq<WalkEntryView>, requests: nat) -> Seq<
    Seq<FindEntryView>,
>
    decreases requests,
{
    if requests == 0 {
        Seq::empty()
    } else {
        match walked(q, visits(entries)) {
            Progress::Collecting(found) => seq![found],
            Progress::Full(found) => {
                let page = found.take(q.page_size as int);
                seq![page] + search(
                    resumed(q, page.last().raw_path),
                    entries,
                    (requests - 1) as nat,
                )
            },
            Progress::Failed(_) => Seq::empty(),
        }
    }
}

/// What a query finds in a tree that is listed in the order of paths is in that order too:
/// each path comes strictly before the next, so that none occurs twice.
pub proof fn matches_are_in_path_order(q: QueryView, entries: Seq<WalkEntryView>)
    requires
        in_path_order(entries),
    ensures
        forall|i: int, j: int|
            0 <= i < j < matches_in(q, entries).len() ==> paths::path_before(
                (#[trigger] matches_in(q, entries)[i]).raw_path,
                (#[trigger] matches_in(q, entries)[j]).raw_path,
            ),
        forall|i: int|
            0 <= i < matches_in(q, entries).len() ==> exists|k: int|
                0 <= k < entries.len() && (#[trigger] entries[k]).path == (#[trigger] matches_in(
                    q,
                    entries,
                )[i]).raw_path,
    decreases entries.len(),
{
    if entries.len() > 0 {
        let front = entries.drop_last();
        let e = entries.last();
        assert(entries[entries.len() - 1] == e);
        assert(in_path_order(front)) by {
            assert forall|i: int, j: int| 0 <= i < j < front.len() implies paths::path_before(
                (#[trigger] front[i]).path,
                (#[trigger] front[j]).path,
            ) by {
                assert(front[i] == entries[i] && front[j] == entries[j]);
            }
        }
        matches_are_in_path_order(q, front);
        let before = matches_in(q, front);
        let all = matches_in(q, entries);
        assert forall|i: int| 0 <= i < all.len() implies exists|k: int|
            0 <= k < entries.len() && (#[trigger] entries[k]).path == (#[trigger] all[i]).raw_path by {
            if i < before.len() {
                assert(all[i] == before[i]);
                let k = choose|k: int|
                    0 <= k < front.len() && (#[trigger] front[k]).path == before[i].raw_path;
                assert(entries[k] == front[k]);
            }
        }
        assert forall|i: int, j: int| 0 <= i < j < all.len() implies paths::path_before(
            (#[trigger] all[i]).raw_path,
            (#[trigger] all[j]).raw_path,
        ) by {
            assert(all[i] == before[i]);
            if j < before.len() {
                assert(all[j] == before[j]);
            } else {
                let k = choose|k: int|
                    0 <= k < front.len() && (#[trigger] front[k]).path == before[i].raw_path;
                assert(entries[k] == front[k]);
            }
        }
    }
}

/// All pages of a search together hold every entry that the query finds, once each and in
/// strict order of paths: where the tree does not change and is listed in the order of
/// paths, following the cursors comes to an end, the pages one after the other are the
/// entries found, every page but the last is full, and the last is not over-full.
pub proof fn pages_tile_the_search(q: QueryView, entries: Seq<WalkEntryView>, requests: nat)
    requires
        in_path_order(entries),
        loop_free(entries),
        0 < q.page_size,
        requests > matches_in(q, entries).len(),
    ensures
        search(q, entries, requests).flatten() == matches_in(q, entries),
        0 < search(q, entries, requests).len() <= matches_in(q, entries).len() + 1,
        forall|i: int|
            0 <= i < search(q, entries, requests).len() - 1 ==> (#[trigger] search(
                q,
                entries,
                requests,
            )[i]).len() == q.page_size,
        search(q, entries, requests).last().len() <= q.page_size,
        forall|i: int, j: int|
            0 <= i < j < search(q, entries, requests).flatten().len() ==> paths::path_before(
                (#[trigger] search(q, entries, requests).flatten()[i]).raw_path,
                (#[trigger] search(q, entries, requests).flatten()[j]).raw_path,
            ),
    decreases requests,
{
    let all = matches_in(q, entries);
    let pages = search(q, entries, requests);
    page_is_first_matches(q, entries);
    matches_are_in_path_order(q, entries);
    if all.len() <= q.page_size {
        assert(pages =~= seq![all]);
        assert(pages.drop_first() =~= Seq::<Seq<FindEntryView>>::empty());
        reveal_with_fuel(Seq::flatten, 2);
        assert(all + Seq::<FindEntryView>::empty() =~= all);
        assert(pages.flatten() =~= all);
    } else {
        let n = q.page_size as int;
        let found = all.take(n + 1);
        let page = found.take(n);
        assert(page =~= all.take(n));
        assert(page.last() == all[n - 1]);
        let next = resumed(q, page.last().raw_path);
        next_page_resumes_after_page(q, entries);
        let rest = search(next, entries, (requests - 1) as nat);
        pages_tile_the_search(next, entries, (requests - 1) as nat);
        assert(pages == seq![page] + rest);
        assert(pages.first() == page);
        assert(pages.drop_first() =~= rest);
        assert(pages.flatten() == page + rest.flatten());
        assert(all.take(n) + all.skip(n) =~= all);
        assert(pages.last() == rest.last());
        assert forall|i: int| 0 <= i < pages.len() - 1 implies (#[trigger] pages[i]).len()
            == q.page_size by {
            if i > 0 {
                assert(pages[i] == rest[i - 1]);
            }
        }
    }
}

/// A request that is repeated with the cursor of its page asks on where the page ended, and
/// for pages of the same size: as many entries as it names, 50 where it names none, and 500
/// at most.
pub proof fn cursors_resume_requests(
    req: FsFindRequest,
    next: FsFindRequest,
    patterns: Seq<Seq<char>>,
    anchor: Seq<u8>,
)
    requires
        granted(req.page_size, PageSize::DEFAULT, FS_FIND_PAGE_SIZE_CAP) is Some,
        next.page_size == req.page_size,
        next.modified_since == req.modified_since,
        next.page_cursor is Some,
        base64_bytes(next.page_cursor->0@) == Some(anchor),
    ensures
        asked(next, patterns) == resumed(asked(req, patterns), anchor),
        asked(req, patterns).page_size == (match req.page_size {
            Some(n) => if n <= 500 {
                n as int
            } else {
                500
            },
            None => 50,
        }),
        0 < asked(req, patterns).page_size,
{
}

/// A `modified_since` that no entry is older than changes nothing: the page is the same as
/// without it. So an instant before 1970 changes nothing in a tree whose entries were
/// modified since.
pub proof fn early_bounds_change_nothing(q: QueryView, since: i128, events: Seq<WalkEventView>)
    requires
        forall|i: int|
            0 <= i < events.len() ==> ((#[trigger] events[i]) matches WalkEventView::Entry(e)
                ==> (e.meta matches Some(m) ==> since <= modified_at(m))),
    ensures
        walked(QueryView { modified_since: Some(since), ..q }, events) == walked(
            QueryView { modified_since: None, ..q },
            events,
        ),
    decreases events.len(),
{
    if events.len() > 0 {
        let front = events.drop_last();
        assert forall|i: int| 0 <= i < front.len() implies ((
        #[trigger] front[i]) matches WalkEventView::Entry(e) ==> (e.meta matches Some(m) ==> since
            <= modified_at(m))) by {
            assert(front[i] == events[i]);
        }
        early_bounds_change_nothing(q, since, front);
        assert(events[events.len() - 1] == events.last());
    }
}

/// What is not asked for is of no account: an entry whose link need not be followed
/// or whose metadata need not be read is judged the same whatever they are.
pub proof fn unread_facts_are_of_no_account(
    q: QueryView,
    e: WalkEntryView,
    target: TargetProbe,
    meta: Option<EntryMeta>,
)
    ensures
        !(e.is_symlink && past_anchor(q.anchor, e.path)) ==> verdict(q, e) == verdict(
            q,
            WalkEntryView { target, ..e },
        ),
        !(past_anchor(q.anchor, e.path) && (!e.is_symlink || e.target == TargetProbe::Found)
            && name_accepted(q.patterns, e.path)) ==> verdict(q, e) == verdict(
            q,
            WalkEntryView { meta, ..e },
        ),
{
}

} // verus!
