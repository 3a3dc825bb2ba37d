//! `fs.read`: the content of a file, or a range of it, as text or base64.
use crate::codec::{base64_bytes, base64_encode, base64_fits, base64_text};
use crate::errors::{invalid_argument, ErrorView, SubstrateError};
use crate::fs_query::hint_helpers::{build_hints, read_hints};
use crate::fs_query::io_failure::FileKind;
use crate::fs_query::response::{Capabilities, ToolResponse};
use crate::text;
use vstd::prelude::*;
use vstd::utf8::{decode_utf8, encode_utf8, valid_utf8};

verus! {

/// The most bytes that are returned inline.
pub const INLINE_MAX_BYTES: u64 = 1_048_576;

/// The most bytes of text that are shown in the summary.
pub const PREVIEW_MAX_BYTES: u64 = 256;

/// How content is returned.
#[derive(Debug, Clone, Copy, PartialEq, Eq, Structural)]
pub enum ReadEncoding {
    /// As text; the bytes must be UTF-8.
    Text,
    /// As standard base64.
    Base64,
}

impl Default for ReadEncoding {
    fn default() -> (r: ReadEncoding)
        ensures
            r == ReadEncoding::Text,
    {
        ReadEncoding::Text
    }
}

impl ReadEncoding {
    /// The encoding's name in answers.
    pub open spec fn label(self) -> Seq<char> {
        match self {
            ReadEncoding::Text => "text"@,
            ReadEncoding::Base64 => "base64"@,
        }
    }

    /// The encoding's name in answers.
    pub fn name(&self) -> (r: &'static str)
        ensures
            r@ == self.label(),
            self is Text ==> r@ == "text"@,
            self is Base64 ==> r@ == "base64"@,
    {
        match self {
            ReadEncoding::Text => "text",
            ReadEncoding::Base64 => "base64",
        }
    }
}

/// A request of `fs.read`.
#[derive(Debug)]
pub struct FsReadRequest {
    /// The file to read.
    pub path: String,
    pub encoding: ReadEncoding,
    /// Where the range starts.
    pub offset_bytes: u64,
    /// How long the range is; without it, it goes to the end of the file.
    pub length_bytes: Option<u64>,
}

/// What a kind of file is called.
pub open spec fn kind_label(kind: FileKind) -> Seq<char> {
    match kind {
        FileKind::Directory => "directory"@,
        FileKind::Symlink => "symlink"@,
        FileKind::Fifo => "fifo"@,
        FileKind::Socket => "socket"@,
        FileKind::BlockDevice => "block device"@,
        FileKind::CharDevice => "char device"@,
        FileKind::Regular => "special"@,
        FileKind::Special => "special"@,
    }
}

/// What a kind of file is called. Only files that are not regular have a name of
/// their own.
pub fn classify_file_type(kind: FileKind) -> (r: &'static str)
    ensures
        r@ == kind_label(kind),
        match kind {
            FileKind::Directory => r@ == "directory"@,
            FileKind::Symlink => r@ == "symlink"@,
            FileKind::Fifo => r@ == "fifo"@,
            FileKind::Socket => r@ == "socket"@,
            FileKind::BlockDevice => r@ == "block device"@,
            FileKind::CharDevice => r@ == "char device"@,
            FileKind::Regular => r@ == "special"@,
            FileKind::Special => r@ == "special"@,
        },
{
    match kind {
        FileKind::Directory => "directory",
        FileKind::Symlink => "symlink",
        FileKind::Fifo => "fifo",
        FileKind::Socket => "socket",
        FileKind::BlockDevice => "block device",
        FileKind::CharDevice => "char device",
        FileKind::Regular => "special",
        FileKind::Special => "special",
    }
}

/// What a path that is not a regular file is answered with.
pub open spec fn not_regular(kind: FileKind) -> ErrorView {
    ErrorView::InvalidArgument {
        offending_field: "path"@,
        reason: "path does not point to a regular file; target is a "@ + kind_label(kind)
            + ". regular files only"@,
        tagged: true,
    }
}

/// The answer to a path that is not a regular file.
fn refuse_kind(kind: FileKind) -> (r: SubstrateError)
    ensures
        r@ == not_regular(kind),
{
    invalid_argument(
        "path",
        text::cat3(
            "path does not point to a regular file; target is a ",
            classify_file_type(kind),
            ". regular files only",
        ),
        true,
    )
}

/// Whether opening a file of this kind can block or fail in its own way.
pub open spec fn special(kind: FileKind) -> bool {
    !(kind == FileKind::Regular || kind == FileKind::Directory || kind == FileKind::Symlink)
}

/// Refuses pipes, sockets and devices before the path is confined: opening one may
/// block. Other kinds are left to the later check.
pub fn refuse_special_file(kind: FileKind) -> (r: Option<SubstrateError>)
    ensures
        r is Some <==> special(kind),
        r is None <==> kind is Regular || kind is Directory || kind is Symlink,
        r matches Some(e) ==> e@ == not_regular(kind),
{
    match kind {
        FileKind::Regular | FileKind::Directory | FileKind::Symlink => None,
        _ => Some(refuse_kind(kind)),
    }
}

/// The part of a file that is to be read.
#[derive(Debug, Clone, Copy)]
pub struct ReadPlan {
    pub start: u64,
    pub len: u64,
    /// Whether the whole file is read, however long it is by then.
    pub whole: bool,
}

/// Where the range of a request starts in a file of `size` bytes.
pub open spec fn range_start(req: FsReadRequest, size: u64) -> int {
    if req.offset_bytes <= size {
        req.offset_bytes as int
    } else {
        size as int
    }
}

/// How many bytes the range of a request holds in a file of `size` bytes.
pub open spec fn range_len(req: FsReadRequest, size: u64) -> int {
    let left = size - range_start(req, size);
    match req.length_bytes {
        Some(n) => if n < left {
            n as int
        } else {
            left
        },
        None => left,
    }
}

/// What a range that is too long is answered with.
pub open spec fn too_large(len: int) -> ErrorView {
    ErrorView::ResourceLimit {
        detail: "requested "@ + text::decimal(len as nat) + (" bytes exceeds inline_max_bytes "@
            + text::decimal(INLINE_MAX_BYTES as nat)
            + "; use a byte range (offset_bytes + length_bytes) to read in chunks"@),
        tagged: false,
    }
}

/// Settles which part of a file of `size` bytes is read. The file must be regular,
/// and the part must not be longer than [`INLINE_MAX_BYTES`].
pub fn plan_read(req: &FsReadRequest, kind: FileKind, size: u64) -> (r: Result<
    ReadPlan,
    SubstrateError,
>)
    ensures
        r is Ok <==> kind == FileKind::Regular && range_len(*req, size) <= INLINE_MAX_BYTES,
        r matches Ok(p) ==> {
            &&& p.start == range_start(*req, size)
            &&& p.len == range_len(*req, size)
            &&& p.whole == (p.start == 0 && req.length_bytes is None)
            &&& p.start + p.len <= size
        },
        r matches Err(e) ==> e@ == (if kind != FileKind::Regular {
            not_regular(kind)
        } else {
            too_large(range_len(*req, size))
        }),
        kind == FileKind::Regular && size <= 1_048_576 ==> r is Ok,
        r matches Err(e) ==> kind != FileKind::Regular ==> e@ == (ErrorView::InvalidArgument {
            offending_field: "path"@,
            reason: "path does not point to a regular file; target is a "@ + kind_label(kind)
                + ". regular files only"@,
            tagged: true,
        }),
        r matches Err(e) ==> kind == FileKind::Regular ==> e@ == (ErrorView::ResourceLimit {
            detail: "requested "@ + text::decimal(
                (match req.length_bytes {
                    Some(n) => if n < size - req.offset_bytes {
                        n as int
                    } else {
                        size - req.offset_bytes
                    },
                    None => size - req.offset_bytes,
                }) as nat,
            ) + (" bytes exceeds inline_max_bytes "@ + text::decimal(1_048_576)
                + "; use a byte range (offset_bytes + length_bytes) to read in chunks"@),
            tagged: false,
        }),
        kind != FileKind::Regular ==> r is Err,
        r matches Ok(p) ==> {
            &&& p.start == (if req.offset_bytes < size {
                req.offset_bytes
            } else {
                size
            })
            &&& p.len <= 1_048_576
            &&& req.length_bytes matches Some(n) ==> p.len <= n && (p.len < n ==> p.start + p.len
                == size)
            &&& req.length_bytes is None ==> p.start + p.len == size
        },
        r is Err && kind == FileKind::Regular ==> size - req.offset_bytes > 1_048_576 && (
        req.length_bytes matches Some(n) ==> n > 1_048_576),
{
    if kind != FileKind::Regular {
        return Err(refuse_kind(kind));
    }
    let start: u64 = if req.offset_bytes <= size {
        req.offset_bytes
    } else {
        size
    };
    let left: u64 = size - start;
    let len: u64 = match req.length_bytes {
        Some(n) => if n < left {
            n
        } else {
            left
        },
        None => left,
    };
    if len > INLINE_MAX_BYTES {
        let limit = text::cat3(
            " bytes exceeds inline_max_bytes ",
            text::decimal_text(INLINE_MAX_BYTES).as_str(),
            "; use a byte range (offset_bytes + length_bytes) to read in chunks",
        );
        return Err(
            SubstrateError::ResourceLimit {
                detail: text::cat3(
                    "requested ",
                    text::decimal_text(len).as_str(),
                    limit.as_str(),
                ),
                correlation_id: None,
            },
        );
    }
    Ok(ReadPlan { start, len, whole: start == 0 && req.length_bytes.is_none() })
}

/// `simdutf8::basic::from_utf8`: it accepts exactly the byte strings that are valid
/// UTF-8, and the text holds the characters that they encode.
#[verifier::external_body]
fn utf8_text(bytes: &[u8]) -> (r: Option<String>)
    ensures
        match r {
            Some(s) => valid_utf8(bytes@) && s@ == decode_utf8(bytes@),
            None => !valid_utf8(bytes@),
        },
{
    match simdutf8::basic::from_utf8(bytes) {
        Ok(s) => Some(s.to_owned()),
        Err(_) => None,
    }
}

/// What a file that is not UTF-8 is answered with where text is asked for.
pub open spec fn not_utf8(path: Seq<char>) -> ErrorView {
    ErrorView::EncodingError {
        detail: "file at '"@ + path + "' is not valid UTF-8"@,
        tagged: false,
    }
}

/// Encodes content as the request asks. Content that was read as text encodes to
/// the bytes again, and content that was read as base64 decodes to them.
pub fn encode_content(bytes: &[u8], encoding: ReadEncoding, path: &str) -> (r: Result<
    String,
    SubstrateError,
>)
    requires
        base64_fits(bytes@.len()),
    ensures
        r is Ok <==> encoding == ReadEncoding::Base64 || valid_utf8(bytes@),
        r matches Ok(s) ==> match encoding {
            ReadEncoding::Text => s@ == decode_utf8(bytes@) && encode_utf8(s@) == bytes@,
            ReadEncoding::Base64 => s@ == base64_text(bytes@) && base64_bytes(s@) == Some(bytes@),
        },
        r matches Err(e) ==> e@ == not_utf8(path@),
        r matches Err(e) ==> e@ == (ErrorView::EncodingError {
            detail: "file at '"@ + path@ + "' is not valid UTF-8"@,
            tagged: false,
        }),
{
    match encoding {
        ReadEncoding::Text => match utf8_text(bytes) {
            Some(s) => {
                proof {
                    vstd::utf8::decode_utf8_encode_utf8(bytes@);
                }
                Ok(s)
            },
            None => Err(
                SubstrateError::EncodingError {
                    detail: text::cat3("file at '", path, "' is not valid UTF-8"),
                    correlation_id: None,
                },
            ),
        },
        ReadEncoding::Base64 => Ok(base64_encode(bytes)),
    }
}

/// The payload of an answer of `fs.read`.
#[derive(Debug)]
pub struct ReadContent {
    pub path: String,
    pub encoding: &'static str,
    pub content: String,
    pub size_bytes: u64,
}

/// The text that goes with `n` bytes of content. Short text is shown in it.
pub open spec fn read_summary(n: nat, encoding: ReadEncoding, content: Seq<char>) -> Seq<char> {
    let preview = if encoding == ReadEncoding::Text && n <= PREVIEW_MAX_BYTES {
        " | content: "@ + content
    } else {
        Seq::<char>::empty()
    };
    "USE: read file content\nDOES: returned "@ + text::decimal(n) + (" bytes ("@ + encoding.label()
        + ")"@) + (preview
        + "\nNEXT: fs.stat, fs.hash\nAVOID: reading binary as text → use encoding:base64"@)
}

/// The answer of `fs.read` for the bytes that were read.
pub fn read_response(req: FsReadRequest, bytes: &[u8], caps: &Capabilities) -> (r: Result<
    ToolResponse<ReadContent>,
    SubstrateError,
>)
    requires
        base64_fits(bytes@.len()),
    ensures
        r is Ok <==> req.encoding == ReadEncoding::Base64 || valid_utf8(bytes@),
        r matches Err(e) ==> e@ == not_utf8(req.path@),
        r matches Ok(t) ==> {
            let content = match req.encoding {
                ReadEncoding::Text => decode_utf8(bytes@),
                ReadEncoding::Base64 => base64_text(bytes@),
            };
            &&& t.structured_content.path == req.path
            &&& t.structured_content.encoding@ == req.encoding.label()
            &&& t.structured_content.content@ == content
            &&& match req.encoding {
                ReadEncoding::Text => encode_utf8(t.structured_content.content@) == bytes@,
                ReadEncoding::Base64 => base64_bytes(t.structured_content.content@) == Some(
                    bytes@,
                ),
            }
            &&& t.structured_content.size_bytes == bytes@.len()
            &&& t.content@ == read_summary(bytes@.len(), req.encoding, content)
            &&& t.hints@ == read_hints(
                Some("fs.stat"@),
                Some("fs.hash"@),
                Some("Use offset_bytes+length_bytes for files >1 MiB"@),
                *caps,
                false,
            )
            &&& t.hints@.next_action_suggested == Some("fs.stat"@)
            &&& t.hints@.alternative_tool == Some("fs.hash"@)
            &&& t.hints@.error_recovery == Some(
                    "Use offset_bytes+length_bytes for files >1 MiB"@,
                )
            &&& t.hints@.confirm_destructive == Some(false)
            &&& t.hints@.simd_tier_used == Some(caps.simd_tier.label())
            &&& t.hints@.walker_tier_used == None::<Seq<char>>
            &&& t.structured_content.encoding@ == (if req.encoding is Text {
                "text"@
            } else {
                "base64"@
            })
            &&& t.content@ == "USE: read file content\nDOES: returned "@ + text::decimal(
                bytes@.len(),
            ) + (" bytes ("@ + t.structured_content.encoding@ + ")"@) + ((if req.encoding is Text
                && bytes@.len() <= 256 {
                " | content: "@ + content
            } else {
                Seq::<char>::empty()
            })
                + "\nNEXT: fs.stat, fs.hash\nAVOID: reading binary as text → use encoding:base64"@)
        },
{
    let size: u64 = bytes.len() as u64;
    let encoded = match encode_content(bytes, req.encoding, req.path.as_str()) {
        Ok(s) => s,
        Err(e) => {
            return Err(e);
        },
    };
    let preview = if req.encoding == ReadEncoding::Text && size <= PREVIEW_MAX_BYTES {
        text::cat2(" | content: ", encoded.as_str())
    } else {
        String::new()
    };
    let head = text::cat2(
        "USE: read file content\nDOES: returned ",
        text::decimal_text(size).as_str(),
    );
    let middle = text::cat3(" bytes (", req.encoding.name(), ")");
    let tail = text::cat2(
        preview.as_str(),
        "\nNEXT: fs.stat, fs.hash\nAVOID: reading binary as text → use encoding:base64",
    );
    let content = text::cat3(head.as_str(), middle.as_str(), tail.as_str());
    let hints = build_hints(
        Some("fs.stat"),
        Some("fs.hash"),
        Some("Use offset_bytes+length_bytes for files >1 MiB"),
        caps,
        false,
    );
    let encoding = req.encoding.name();
    Ok(
        ToolResponse::with_hints(
            content,
            ReadContent { path: req.path, encoding, content: encoded, size_bytes: size },
            hints,
        ),
    )
}

/// Reading a file in consecutive ranges covers it: the range that starts where another
/// ended continues it, and together they are as long as the range that asks for both at
/// once.
pub proof fn ranges_continue(
    first: FsReadRequest,
    second: FsReadRequest,
    both: FsReadRequest,
    size: u64,
)
    requires
        first.offset_bytes <= size,
        first.length_bytes is Some,
        second.offset_bytes == first.offset_bytes + range_len(first, size),
        both.offset_bytes == first.offset_bytes,
        match second.length_bytes {
            Some(n) => both.length_bytes matches Some(m) && m == first.length_bytes->0 + n,
            None => both.length_bytes is None,
        },
    ensures
        range_start(second, size) == range_start(first, size) + range_len(first, size),
        range_start(both, size) == range_start(first, size),
        range_len(both, size) == range_len(first, size) + range_len(second, size),
{
}

} // verus!
