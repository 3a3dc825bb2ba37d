//! Finding, listing, reading, hashing and describing files.
use substrate::errors::SubstrateError;
use substrate::fs_query::find::{
    anchor_of, compile_pattern, decode_cursor, default_glob, default_max_depth, encode_cursor, format_unix_secs,
    glob_refusal, is_nested_within, is_traversal, judge_entry, map_jail_error, name_matches, parse_modified_since, plan_find,
    prepare_find, since_of, walker_err_to_substrate, EntryMeta, FindEntry, FindPage, FindWalk, FsFindRequest,
    TargetProbe, Verdict, WalkEntry, WalkEvent, DEFAULT_MAX_DEPTH,
};
use substrate::fs_query::hash::{hash_answer, hash_response, FileDigest, FsHashRequest, HashAlgorithm};
use substrate::fs_query::hash_factory::{Blake3Hasher, HashFactory, READ_BUF_SIZE};
use substrate::fs_query::hint_helpers::{build_error_hints, build_hints};
use substrate::fs_query::io_failure::{map_io_err, FileKind, IoFailure};
use substrate::fs_query::read::{
    classify_file_type, encode_content, plan_read, read_response, refuse_special_file, FsReadRequest, ReadEncoding,
};
use substrate::fs_query::read_dir;
use substrate::fs_query::read_dir::{list_child, plan_page, plan_read_dir, ChildMeta, DirListing, DirPage, FsReadDirRequest};
use substrate::fs_query::response::{
    Capabilities, HashTier, Platform, SimdTier, StatTier, ToolResponse, WalkerTier,
};
use substrate::fs_query::stat::{
    escape_start, handle_symlink_escape, kind_name, serve_lstat_response, stat_response, EscapeStart, FsStatRequest,
    LinkStat,
};
use substrate::fs_query::stat_factory::{
    check_c_path, stat_errno, LinuxStatter, MacosStatter, PortableStatter, StatFactory, EACCES, ENOENT, LINUX_ELOOP,
    MACOS_ELOOP, S_IFDIR, S_IFLNK, S_IFREG,
};
use substrate::fs_query::symlink_chain::{resolve_target, Hop, HopEnd, LinkChain, SymlinkDisposition, MAX_SYMLINK_HOPS};
use substrate::fs_query::walker::legacy::LegacyWalker;
use substrate::fs_query::walker::macos::{parse_batch, parse_record, read_i32_le, read_i64_le, read_u32_le, AttrList};
use substrate::fs_query::walker::{emit_child, unreadable_dir, Child, ChildReport, TreeWalk};
use substrate::fs_query::walker_factory::{WalkerFactory, WalkerKind};

fn find_request(pattern: &str, page_size: Option<u32>) -> FsFindRequest {
    FsFindRequest {
        root: "/srv/data".to_owned(),
        pattern: pattern.to_owned(),
        max_depth: 1,
        modified_since: None,
        page_size,
        page_cursor: None,
    }
}

fn file(path: &str, size: u64, modified_secs: i64) -> WalkEntry {
    WalkEntry {
        path: path.as_bytes().to_vec(),
        is_symlink: false,
        target: TargetProbe::Found,
        meta: Some(EntryMeta { is_dir: false, size, modified_secs: Some(modified_secs), modified_nanos: 0 }),
    }
}

fn dir(path: &str) -> WalkEntry {
    WalkEntry {
        path: path.as_bytes().to_vec(),
        is_symlink: false,
        target: TargetProbe::Found,
        meta: Some(EntryMeta { is_dir: true, size: 4096, modified_secs: Some(0), modified_nanos: 0 }),
    }
}

fn run_find(req: &FsFindRequest, entries: Vec<WalkEntry>) -> Result<ToolResponse<FindPage>, SubstrateError> {
    let query = prepare_find(req)?;
    let globs = compile_pattern(&req.pattern)?;
    let mut walk = FindWalk::new(query, globs);
    for entry in entries {
        if !walk.step(WalkEvent::Entry(entry)) {
            break;
        }
    }
    walk.finish(&Capabilities::default())
}

fn names(page: &[FindEntry]) -> Vec<&str> {
    page.iter().map(|e| e.path.as_str()).collect()
}

// ---- Finding -------------------------------------------------------------------

#[test]
fn find_empty_dir_returns_empty_matches() {
    let resp = run_find(&find_request("*", Some(50)), vec![dir("/srv/data")]).expect("ok");
    assert!(resp.structured_content.matches.len() <= 1);
}

#[test]
fn find_with_files_returns_entries() {
    let entries = vec![dir("/srv/data"), file("/srv/data/a.txt", 5, 0), file("/srv/data/b.rs", 11, 0)];
    let resp = run_find(&find_request("*.txt", Some(50)), entries).expect("ok");
    let paths = names(&resp.structured_content.matches);
    assert!(paths.iter().any(|p| p.ends_with("a.txt")));
    assert!(!paths.iter().any(|p| p.ends_with("b.rs")));
    let found = &resp.structured_content.matches[0];
    assert_eq!(found.size_bytes, Some(5));
    assert_eq!(found.modified_at.as_deref(), Some("1970-01-01T00:00:00Z"));
    assert!(!found.is_dir);
    assert_eq!(resp.structured_content.next_cursor, None);
    assert_eq!(resp.hints.next_action_suggested.as_deref(), Some("fs.read"));
    assert!(resp.content.starts_with("USE: locate files in directory tree\nDOES: returned 1 entries\n"));
}

#[test]
fn invalid_glob_returns_error() {
    let e = compile_pattern("[invalid").expect_err("no glob");
    assert_eq!(e.code(), "SUBSTRATE_INVALID_ARGUMENT");
    assert!(run_find(&find_request("[invalid", Some(50)), vec![]).is_err());
    assert_eq!(glob_refusal("why").code(), "SUBSTRATE_INVALID_ARGUMENT");
}

#[test]
fn globs_are_matched_against_the_last_name() {
    let globs = compile_pattern("*.{rs,toml}").expect("glob");
    assert!(name_matches(&globs, b"/a/b/c.rs"));
    assert!(name_matches(&globs, b"Cargo.toml"));
    assert!(!name_matches(&globs, b"/a.rs/b"));
}

#[test]
fn cursor_round_trip() {
    let anchor = b"/tmp/some/deep/path/file.txt";
    let encoded = encode_cursor(anchor);
    assert_ne!(encoded.as_bytes(), anchor);
    assert_eq!(decode_cursor(&encoded).expect("decode"), anchor.to_vec());
}

#[test]
fn cursor_round_trip_non_utf8() {
    let anchor = b"/tmp/\xff\xfe/file";
    let encoded = encode_cursor(anchor);
    assert_eq!(decode_cursor(&encoded).expect("decode"), anchor.to_vec());
}

#[test]
fn invalid_cursor_returns_error() {
    let e = decode_cursor("not_base64!!!").expect_err("no base64");
    assert_eq!(e.code(), "SUBSTRATE_INVALID_ARGUMENT");
    assert!(anchor_of(None).is_err());
    assert_eq!(anchor_of(Some(vec![1, 2])).expect("bytes"), vec![1, 2]);
}

#[test]
fn find_symlink_escape_maps_to_outside_allowlist() {
    let refused = SubstrateError::SymlinkEscape { path: "/tmp".to_owned(), correlation_id: Some(1) };
    let e = map_jail_error(refused, b"/private/tmp");
    assert!(matches!(e, SubstrateError::PathOutsideAllowlist { .. }), "{e:?}");
    let other = SubstrateError::NotFound { resource: "/x".to_owned(), correlation_id: None };
    assert!(matches!(map_jail_error(other, b"/x"), SubstrateError::NotFound { .. }));
}

#[test]
fn fs_find_request_default_honors_serde_defaults() {
    let req = FsFindRequest::default();
    assert_eq!(
        req.max_depth, DEFAULT_MAX_DEPTH,
        "Default::default() must use default_max_depth()={DEFAULT_MAX_DEPTH}, not 0"
    );
    assert!(
        req.page_size.is_none(),
        "Default page_size must be None (absent → default 50)"
    );
    assert_eq!(req.pattern, "*", "Default pattern must match default_glob()");
    assert!(req.modified_since.is_none());
    assert!(req.page_cursor.is_none());
    assert_eq!(default_glob(), "*");
    assert_eq!(default_max_depth(), 16);
}

#[test]
fn find_page_size_zero_returns_invalid_argument() {
    let e = prepare_find(&find_request("*", Some(0))).expect_err("zero");
    assert_eq!(e.code(), "SUBSTRATE_INVALID_ARGUMENT");
}

#[test]
fn find_absent_page_size_defaults_to_fifty() {
    assert_eq!(prepare_find(&find_request("*", None)).expect("ok").page_size, 50);
    assert_eq!(prepare_find(&find_request("*", Some(9_000))).expect("ok").page_size, 500);
}

#[test]
fn pages_of_a_search_continue_each_other() {
    let all = || (0..5).map(|i| file(&format!("/srv/data/f{i}"), i, 0)).collect::<Vec<_>>();
    let mut seen = Vec::new();
    let mut cursor = None;
    loop {
        let mut req = find_request("f*", Some(2));
        req.page_cursor = cursor;
        let resp = run_find(&req, all()).expect("page");
        assert!(resp.structured_content.matches.len() <= 2);
        seen.extend(resp.structured_content.matches.iter().map(|e| e.path.clone()));
        cursor = resp.structured_content.next_cursor;
        if cursor.is_none() {
            break;
        }
    }
    assert_eq!(seen, vec!["/srv/data/f0", "/srv/data/f1", "/srv/data/f2", "/srv/data/f3", "/srv/data/f4"]);
}

#[test]
fn older_files_are_passed_over() {
    let mut req = find_request("*", Some(10));
    req.modified_since = Some("2001-09-09T01:46:40Z".to_owned());
    let entries = vec![file("/srv/data/new", 1, 1_000_000_000), file("/srv/data/old", 1, 999_999_999)];
    let resp = run_find(&req, entries).expect("ok");
    assert_eq!(names(&resp.structured_content.matches), vec!["/srv/data/new"]);
}

#[test]
fn fractions_of_a_second_count() {
    let mut req = find_request("*", Some(10));
    req.modified_since = Some("2001-09-09T01:46:40.5Z".to_owned());
    let at = |path: &str, nanos: u32| {
        let mut e = file(path, 1, 1_000_000_000);
        e.meta = e.meta.map(|m| EntryMeta { modified_nanos: nanos, ..m });
        e
    };
    let entries = vec![at("/srv/data/after", 500_000_001), at("/srv/data/at", 500_000_000), at("/srv/data/before", 499_999_999)];
    let resp = run_find(&req, entries).expect("ok");
    assert_eq!(names(&resp.structured_content.matches), vec!["/srv/data/after", "/srv/data/at"]);
}

#[test]
fn a_bound_before_all_entries_changes_nothing() {
    let entries = || vec![file("/srv/data/a", 1, 0), file("/srv/data/b", 2, 5), file("/srv/data/c", 3, 9)];
    let plain = run_find(&find_request("*", Some(2)), entries()).expect("plain");
    let mut req = find_request("*", Some(2));
    req.modified_since = Some("1969-12-31T23:59:59Z".to_owned());
    let bounded = run_find(&req, entries()).expect("bounded");
    assert_eq!(names(&bounded.structured_content.matches), names(&plain.structured_content.matches));
    assert_eq!(bounded.structured_content.next_cursor, plain.structured_content.next_cursor);
}

#[test]
fn deeply_nested_globs_are_refused() {
    let nested = |n: usize| format!("{}a{}", "{".repeat(n), "}".repeat(n));
    for n in [1_001, 100_000] {
        let e = compile_pattern(&nested(n)).expect_err("too deep");
        assert!(
            matches!(&e, SubstrateError::InvalidArgument { offending_field, reason, .. }
                if offending_field == "pattern" && reason == "invalid glob: braces are nested too deep"),
            "{e:?}"
        );
    }
    let empty = format!("{}{}", "{".repeat(1_000), "}".repeat(1_000));
    assert!(compile_pattern(&empty).is_ok());
    let globs = compile_pattern(&nested(20)).expect("nested");
    assert!(name_matches(&globs, b"/x/a") && !name_matches(&globs, b"/x/b"));
    let flat = "{a,b}".repeat(1_500);
    assert!(is_nested_within(&flat, 1));
    assert!(compile_pattern(&flat).is_ok());
    assert!(!is_nested_within("{{{a}}}", 2) && is_nested_within("{{{a}}}", 3));
    // A brace that is taken as it is closes nothing.
    assert!(!is_nested_within(r"{\}{\}{", 2));
    assert!(!is_nested_within("{[}]{[}]{", 2));
    assert!(is_nested_within(r"\{\{\{", 0));
}

#[test]
fn timestamps_are_read_and_printed() {
    assert_eq!(parse_modified_since("1970-01-01T00:01:00Z").expect("minute"), 60_000_000_000);
    assert_eq!(parse_modified_since("1969-12-31T23:59:59Z").expect("before"), -1_000_000_000);
    assert_eq!(parse_modified_since("1970-01-01T00:00:00.5Z").expect("half"), 500_000_000);
    let e = parse_modified_since("yesterday").expect_err("no timestamp");
    assert_eq!(e.code(), "SUBSTRATE_INVALID_ARGUMENT");
    assert!(matches!(since_of(Ok(5)), Ok(5)));
    assert!(since_of(Err("why".to_owned())).is_err());
    assert_eq!(format_unix_secs(0), "1970-01-01T00:00:00Z");
    assert_eq!(format_unix_secs(1_770_000_000), "2026-02-02T02:40:00Z");
}

#[test]
fn links_in_circles_end_a_search() {
    let mut req = find_request("*", Some(10));
    req.max_depth = 3;
    let entry = WalkEntry {
        path: b"/srv/data/loop".to_vec(),
        is_symlink: true,
        target: TargetProbe::Loop,
        meta: None,
    };
    let e = run_find(&req, vec![entry]).expect_err("loop");
    assert!(matches!(e, SubstrateError::SymlinkLoop { .. }), "{e:?}");
    let broken = WalkEntry {
        path: b"/srv/data/broken".to_vec(),
        is_symlink: true,
        target: TargetProbe::Missing,
        meta: None,
    };
    assert_eq!(judge_entry(&None, None, true, &broken), Verdict::Skip);
    assert_eq!(judge_entry(&None, None, true, &file("/srv/data/f", 1, 0)), Verdict::Keep);
    assert_eq!(judge_entry(&Some(b"/srv/data/g".to_vec()), None, true, &file("/srv/data/f", 1, 0)), Verdict::Skip);
}

#[test]
fn searches_stop_on_failures_and_cancellation() {
    let globs = || compile_pattern("*").expect("glob");
    let query = || prepare_find(&find_request("*", Some(10))).expect("query");
    let mut walk = FindWalk::new(query(), globs());
    assert_eq!(walk.max_depth(), 1);
    assert!(!walk.step(WalkEvent::Failed { message: "boom".to_owned(), is_loop: false }));
    assert!(walk.finish(&Capabilities::default()).is_err());
    let mut walk = FindWalk::new(query(), globs());
    assert!(!walk.step(WalkEvent::Cancelled));
    let e = walk.finish(&Capabilities::default()).expect_err("cancelled");
    assert!(matches!(e, SubstrateError::Cancelled { .. }), "{e:?}");
    assert!(matches!(
        walker_err_to_substrate("x".to_owned(), true),
        SubstrateError::SymlinkLoop { .. }
    ));
}

#[test]
fn encoded_traversals_are_seen() {
    for bad in ["..", "a/../b", "/a/%2e%2e/b", "%2E%2E", "a%2e%2E/b"] {
        assert!(is_traversal(bad), "{bad}");
    }
    for good in ["", "a", "/a/b", "a..b", "...", "a/..%2fb"] {
        assert!(!is_traversal(good), "{good}");
    }
}

#[test]
fn plans_report_the_first_bad_argument() {
    let mut req = find_request("*", Some(3));
    req.page_cursor = Some("x".to_owned());
    req.modified_since = Some("y".to_owned());
    assert!(plan_find(&req, Some(None), Some(Ok(1))).is_err());
    let query = plan_find(&req, Some(Some(b"/a".to_vec())), Some(Ok(1))).expect("plan");
    assert_eq!(query.anchor.as_deref(), Some(&b"/a"[..]));
    assert_eq!(query.modified_since, Some(1));
    assert_eq!(query.page_size, 3);
}

// ---- Hashing -------------------------------------------------------------------

fn hashed(algorithm: HashAlgorithm, pieces: &[&[u8]]) -> (String, u64) {
    let mut digest = FileDigest::new(algorithm);
    for piece in pieces {
        digest.absorb(piece);
    }
    digest.finish()
}

#[test]
fn blake3_hash_is_deterministic() {
    let one = hashed(HashAlgorithm::Blake3, &[b"substrate-hash-test"]);
    let two = hashed(HashAlgorithm::Blake3, &[b"substrate-", b"hash-test"]);
    assert_eq!(one, two);
    assert_eq!(one.0, blake3::hash(b"substrate-hash-test").to_hex().to_string());
}

#[test]
fn sha256_returns_64_char_hex() {
    let (digest, size) = hashed(HashAlgorithm::Sha256, &[b"abc"]);
    assert_eq!(digest.len(), 64);
    assert_eq!(digest, "ba7816bf8f01cfea414140de5dae2223b00361a396177a9cb410ff61f20015ad");
    assert_eq!(size, 3);
}

#[test]
fn hash_missing_file_returns_not_found() {
    let e = map_io_err(IoFailure::NotFound, "/tmp/__substrate_no_such_file_hash_xyz", true);
    assert!(matches!(e, SubstrateError::NotFound { .. }));
    assert!(e.correlation_id().is_some());
    assert!(matches!(
        map_io_err(IoFailure::PermissionDenied, "/x", false),
        SubstrateError::PermissionDenied { correlation_id: None, .. }
    ));
    assert!(matches!(map_io_err(IoFailure::Other, "/x", false), SubstrateError::IoError { .. }));
}

#[test]
fn blake3_and_sha256_differ_for_same_input() {
    assert_ne!(
        hashed(HashAlgorithm::Blake3, &[b"substrate"]).0,
        hashed(HashAlgorithm::Sha256, &[b"substrate"]).0
    );
}

#[test]
fn sha256_streams_file_larger_than_read_buffer() {
    let size = READ_BUF_SIZE * 3 + 1_234;
    let data: Vec<u8> = (0u8..=255).cycle().take(size).collect();
    let pieces: Vec<&[u8]> = data.chunks(READ_BUF_SIZE).collect();
    let whole = hashed(HashAlgorithm::Sha256, &[&data]);
    assert_eq!(hashed(HashAlgorithm::Sha256, &pieces), whole);
    assert_eq!(whole.1, size as u64);
}

#[test]
fn answers_hold_the_digest_that_was_asked_for() {
    let req = |algorithm| FsHashRequest { path: "/f".to_owned(), algorithm };
    let digest = |algorithm| {
        let mut d = FileDigest::new(algorithm);
        d.absorb(b"abc");
        d
    };
    let resp = hash_answer(req(HashAlgorithm::Sha256), digest(HashAlgorithm::Sha256), &Capabilities::default())
        .expect("answer");
    assert_eq!(
        resp.structured_content.digest,
        "ba7816bf8f01cfea414140de5dae2223b00361a396177a9cb410ff61f20015ad"
    );
    assert_eq!(resp.structured_content.size_bytes, 3);
    assert_eq!(resp.structured_content.algorithm, "sha256");
    assert!(hash_answer(req(HashAlgorithm::Sha256), digest(HashAlgorithm::Blake3), &Capabilities::default()).is_err());
}

#[test]
fn hash_responses_name_algorithm_and_digest() {
    let req = FsHashRequest { path: "/a".to_owned(), algorithm: HashAlgorithm::default() };
    let resp = hash_response(req, "d".to_owned(), 9, &Capabilities::default());
    assert_eq!(resp.structured_content.algorithm, "blake3");
    assert_eq!(resp.structured_content.digest, "d");
    assert_eq!(resp.structured_content.size_bytes, 9);
    assert!(resp.content.starts_with("USE: verify file integrity\nDOES: "));
    assert_eq!(HashAlgorithm::Sha256.name(), "sha256");
}

#[test]
fn hashers_remember_their_tier() {
    let mut factory = HashFactory::new();
    assert_eq!(factory.chosen_tier(), "blake3-portable");
    let mut caps = Capabilities::default();
    caps.hash_tier = HashTier::Blake3Avx2;
    let hasher = factory.build(&caps);
    assert_eq!(factory.chosen_tier(), "blake3-avx2");
    caps.hash_tier = HashTier::Blake3Neon;
    let _second = factory.build(&caps);
    assert_eq!(factory.chosen_tier(), "blake3-avx2", "the first choice stays");
    assert_eq!(hasher.hash_bytes(b"x").to_hex(), blake3::hash(b"x").to_hex().to_string());
    assert_eq!(Blake3Hasher::new().hash_bytes(b"").bytes, *blake3::hash(b"").as_bytes());
}

// ---- Reading -------------------------------------------------------------------

fn read_request(encoding: ReadEncoding, offset_bytes: u64, length_bytes: Option<u64>) -> FsReadRequest {
    FsReadRequest { path: "/srv/data/f".to_owned(), encoding, offset_bytes, length_bytes }
}

fn read_all(req: FsReadRequest, data: &[u8]) -> Result<String, SubstrateError> {
    let plan = plan_read(&req, FileKind::Regular, data.len() as u64)?;
    let bytes = &data[plan.start as usize..(plan.start + plan.len) as usize];
    let resp = read_response(req, bytes, &Capabilities::default())?;
    Ok(resp.structured_content.content)
}

#[test]
fn read_utf8_file() {
    let req = read_request(ReadEncoding::Text, 0, None);
    let resp = read_response(req, b"hello world", &Capabilities::default()).expect("text");
    assert_eq!(resp.structured_content.content, "hello world");
    assert_eq!(resp.structured_content.encoding, "text");
    assert_eq!(resp.structured_content.size_bytes, 11);
    assert!(resp.content.contains(" | content: hello world"));
}

#[test]
fn read_as_base64() {
    let content = read_all(read_request(ReadEncoding::Base64, 0, None), &[0u8, 1, 2, 3]).expect("base64");
    assert_eq!(content, "AAECAw==");
    assert_eq!(base64_simd::STANDARD.decode_to_vec(content.as_bytes()).expect("decode"), vec![0u8, 1, 2, 3]);
    assert_eq!(ReadEncoding::default(), ReadEncoding::Text);
}

#[test]
fn read_missing_file_returns_not_found() {
    let e = map_io_err(IoFailure::NotFound, "/tmp/__substrate_no_such_file_xyz", false);
    assert!(matches!(e, SubstrateError::NotFound { .. }));
}

#[test]
fn read_byte_range() {
    assert_eq!(read_all(read_request(ReadEncoding::Text, 2, Some(4)), b"abcdefghij").expect("range"), "cdef");
    assert_eq!(read_all(read_request(ReadEncoding::Text, 8, Some(9)), b"abcdefghij").expect("tail"), "ij");
    assert_eq!(read_all(read_request(ReadEncoding::Text, 20, Some(9)), b"abcdefghij").expect("past"), "");
}

#[test]
fn large_reads_are_refused() {
    let whole = read_request(ReadEncoding::Text, 0, None);
    let e = plan_read(&whole, FileKind::Regular, 1_048_577).expect_err("too large");
    assert_eq!(e.code(), "SUBSTRATE_PAYLOAD_TOO_LARGE");
    assert!(plan_read(&whole, FileKind::Regular, 1_048_576).expect("fits").whole);
    let range = read_request(ReadEncoding::Text, 0, Some(1_048_577));
    assert!(plan_read(&range, FileKind::Regular, 5_000_000).is_err());
}

#[test]
fn only_regular_files_are_read() {
    for kind in [FileKind::Regular, FileKind::Directory, FileKind::Symlink] {
        assert!(refuse_special_file(kind).is_none(), "looked at later");
    }
    for kind in [FileKind::Fifo, FileKind::Socket, FileKind::BlockDevice, FileKind::CharDevice, FileKind::Special] {
        let e = refuse_special_file(kind).expect("refused");
        assert_eq!(e.code(), "SUBSTRATE_INVALID_ARGUMENT");
    }
    for (kind, name) in [
        (FileKind::Directory, "directory"),
        (FileKind::Symlink, "symlink"),
        (FileKind::Fifo, "fifo"),
        (FileKind::Socket, "socket"),
        (FileKind::BlockDevice, "block device"),
        (FileKind::CharDevice, "char device"),
        (FileKind::Special, "special"),
    ] {
        assert_eq!(classify_file_type(kind), name);
        let e = plan_read(&read_request(ReadEncoding::Text, 0, None), kind, 1).expect_err("refused");
        match e {
            SubstrateError::InvalidArgument { reason, .. } => assert_eq!(
                reason,
                format!("path does not point to a regular file; target is a {name}. regular files only")
            ),
            other => panic!("{other:?}"),
        }
    }
}

#[test]
fn text_that_is_no_utf8_is_refused() {
    let e = encode_content(&[0xff], ReadEncoding::Text, "/f").expect_err("no text");
    assert!(matches!(e, SubstrateError::EncodingError { .. }), "{e:?}");
    assert_eq!(encode_content("→".as_bytes(), ReadEncoding::Text, "/f").expect("text"), "→");
    assert_eq!(encode_content(&[0xff], ReadEncoding::Base64, "/f").expect("base64"), "/w==");
}

// ---- Directories ---------------------------------------------------------------

fn dir_request(page_size: u32, page_cursor: Option<String>) -> FsReadDirRequest {
    FsReadDirRequest { path: "/srv/data".to_owned(), page_size, page_cursor }
}

fn run_read_dir(req: FsReadDirRequest, children: &[&str]) -> Result<ToolResponse<DirPage>, SubstrateError> {
    let plan = plan_read_dir(&req)?;
    let mut listing = DirListing::new(plan);
    for name in children {
        let meta = ChildMeta { is_dir: false, is_symlink: false, is_file: true, size: 1, modified_secs: Some(0) };
        let path = format!("/srv/data/{name}");
        if !listing.offer(list_child(name.as_bytes(), path.as_bytes(), Some(meta))) {
            break;
        }
    }
    Ok(listing.finish(req.path, &Capabilities::default()))
}

#[test]
fn read_dir_empty() {
    let resp = run_read_dir(dir_request(100, None), &[]).expect("ok");
    assert_eq!(resp.structured_content.entries.len(), 0);
    assert_eq!(resp.structured_content.next_cursor, None);
}

#[test]
fn read_dir_lists_files() {
    let resp = run_read_dir(dir_request(100, None), &["a.txt", "b.txt"]).expect("ok");
    assert_eq!(resp.structured_content.entries.len(), 2);
    let first = &resp.structured_content.entries[0];
    assert_eq!(first.name, "a.txt");
    assert_eq!(first.path, "/srv/data/a.txt");
    assert_eq!(first.size_bytes, Some(1));
    assert!(resp.content.starts_with("USE: list directory children\nDOES: returned 2 entries\n"));
}

#[test]
fn read_dir_not_found() {
    let e = map_io_err(IoFailure::NotFound, "/tmp/__substrate_no_dir_xyz", false);
    assert!(matches!(e, SubstrateError::NotFound { .. }));
}

#[test]
fn pagination_cursor_advances() {
    let children = ["f0.txt", "f1.txt", "f2.txt", "f3.txt", "f4.txt"];
    let resp = run_read_dir(dir_request(2, None), &children).expect("ok");
    assert_eq!(resp.structured_content.entries.len(), 2);
    assert!(resp.structured_content.next_cursor.is_some(), "expected next_cursor for 5 entries paged at 2");
    let mut seen = Vec::new();
    let mut cursor = None;
    loop {
        let page = run_read_dir(dir_request(2, cursor), &children).expect("page").structured_content;
        seen.extend(page.entries.iter().map(|e| e.name.clone()));
        cursor = page.next_cursor;
        if cursor.is_none() {
            break;
        }
    }
    assert_eq!(seen, children);
}

#[test]
fn read_dir_page_size_zero_returns_invalid_argument() {
    let e = run_read_dir(dir_request(0, None), &[]).expect_err("zero");
    assert_eq!(e.code(), "SUBSTRATE_INVALID_ARGUMENT");
}

#[test]
fn read_dir_page_size_above_domain_max_returns_invalid_argument() {
    let e = run_read_dir(dir_request(10_001, None), &[]).expect_err("too large");
    assert_eq!(e.code(), "SUBSTRATE_INVALID_ARGUMENT");
}

#[test]
fn read_dir_page_size_above_handler_cap_is_silently_capped() {
    assert_eq!(plan_read_dir(&dir_request(9_000, None)).expect("capped").page_size, 5_000);
    assert_eq!(read_dir::default_page_size(), 100);
}

#[test]
fn read_dir_cursor_overflow_returns_invalid_argument() {
    let malicious_cursor = read_dir::encode_cursor(u64::MAX - 1);
    let e = run_read_dir(dir_request(100, Some(malicious_cursor)), &[]).expect_err("overflow");
    assert_eq!(e.code(), "SUBSTRATE_INVALID_ARGUMENT");
}

#[test]
fn directory_cursors_round_trip() {
    for n in [0u64, 1, 100, u64::MAX] {
        assert_eq!(read_dir::decode_cursor(&read_dir::encode_cursor(n)).expect("decode"), n);
    }
    assert_eq!(read_dir::encode_cursor(1), "AQAAAAAAAAA=");
    assert!(read_dir::decode_cursor("AQ==").is_err());
    assert!(read_dir::decode_cursor("!").is_err());
    assert!(read_dir::offset_of(None).is_err());
    assert_eq!(plan_page(10, Ok(5)).expect("plan").skip, 5);
}

#[test]
fn directories_have_no_size() {
    let meta = ChildMeta { is_dir: true, is_symlink: false, is_file: false, size: 4096, modified_secs: None };
    let e = list_child(b"d", b"/d", Some(meta));
    assert!(e.is_dir);
    assert_eq!(e.size_bytes, None);
    assert_eq!(e.modified_at, None);
    let unknown = list_child(b"\xff", b"/\xff", None);
    assert_eq!(unknown.name, "\u{fffd}");
}

// ---- Describing -----------------------------------------------------------------

fn stat_request() -> FsStatRequest {
    FsStatRequest { path: "/srv/data/file.txt".to_owned() }
}

#[test]
fn stat_regular_file() {
    let stat = PortableStatter::new().stat(5, FileKind::Regular, Some(0), Some(0));
    let content = stat_response(stat_request(), &stat, &Capabilities::default()).structured_content;
    assert!(content.is_file);
    assert!(!content.is_dir);
    assert_eq!(content.size_bytes, 5);
    assert_eq!(content.kind, "file");
}

#[test]
fn stat_directory() {
    let stat = PortableStatter::new().stat(4096, FileKind::Directory, None, None);
    let content = stat_response(stat_request(), &stat, &Capabilities::default()).structured_content;
    assert!(content.is_dir);
}

#[test]
fn stat_missing_returns_not_found() {
    let e = stat_errno(ENOENT, Platform::Linux, "/tmp/__substrate_no_such_path_xyz");
    assert!(matches!(e, SubstrateError::NotFound { .. }));
    assert!(matches!(stat_errno(EACCES, Platform::Linux, "/x"), SubstrateError::PermissionDenied { .. }));
    assert!(matches!(stat_errno(LINUX_ELOOP, Platform::Linux, "/x"), SubstrateError::SymlinkLoop { .. }));
    assert!(matches!(stat_errno(MACOS_ELOOP, Platform::Macos, "/x"), SubstrateError::SymlinkLoop { .. }));
    assert!(matches!(stat_errno(5, Platform::Linux, "/x"), SubstrateError::IoError { .. }));
}

#[test]
fn portable_stat_dir_is_dir() {
    let result = PortableStatter::new().stat(4096, FileKind::Directory, Some(1), Some(2));
    assert!(result.is_dir, "/usr must be reported as a directory");
    assert!(!result.is_file, "/usr must not be reported as a file");
    assert!(!result.is_symlink, "/usr must not be reported as a symlink");
    assert_eq!((result.modified_at, result.accessed_at), (1, 2));
}

#[test]
fn portable_stat_symlink_is_symlink() {
    let result = PortableStatter::new().stat(11, FileKind::Symlink, None, None);
    assert!(result.is_symlink, "/tmp (macOS) must be reported as a symlink");
    assert!(!result.is_dir, "/tmp (macOS) must not be reported as a directory");
}

#[test]
fn linux_statx_dir_is_dir() {
    let result = LinuxStatter::new().stat((S_IFDIR | 0o755) as u16, 4096, 1, 2);
    assert!(result.is_dir, "statx: /usr must be a directory");
    assert!(!result.is_file, "statx: /usr must not be a file");
    assert!(!result.is_symlink, "statx: /usr must not be a symlink");
    assert!(LinuxStatter::new().stat((S_IFREG | 0o644) as u16, 1, 0, 0).is_file);
    assert!(LinuxStatter::new().stat((S_IFLNK | 0o777) as u16, 1, 0, 0).is_symlink);
}

/// What the system writes for a file: length, type, times.
fn attr_buffer(obj_type: u32, mtime: i64, atime: i64) -> Vec<u8> {
    let mut buf = vec![0u8; 64];
    buf[4..8].copy_from_slice(&obj_type.to_le_bytes());
    buf[8..16].copy_from_slice(&mtime.to_le_bytes());
    buf[24..32].copy_from_slice(&atime.to_le_bytes());
    buf
}

#[test]
fn macos_getattrlist_dir_is_dir() {
    let result = MacosStatter::new().stat(&attr_buffer(2, 1_600_000_000, 1), 64);
    assert!(result.is_dir, "getattrlist: /usr must be a directory");
    assert!(!result.is_file, "getattrlist: /usr must not be a file");
    assert!(!result.is_symlink, "getattrlist: /usr must not be a symlink");
    assert!(MacosStatter::new().stat(&attr_buffer(1, 0, 0), 3).is_file);
}

#[test]
fn macos_getattrlist_symlink_is_symlink() {
    let result = MacosStatter::new().stat(&attr_buffer(5, 0, 0), 11);
    assert!(result.is_symlink, "getattrlist: /tmp (macOS) must be a symlink");
    assert!(!result.is_dir, "getattrlist: /tmp (macOS) must not be a dir");
}

#[test]
fn macos_getattrlist_smoke_returns_mtime() {
    let result = MacosStatter::new().stat(&attr_buffer(2, 1_600_000_000, 7), 64);
    assert!(result.modified_at > 0, "mtime must be after Unix epoch");
}

fn chosen(platform: Platform, stat_tier: StatTier) -> &'static str {
    let mut caps = Capabilities::default();
    caps.platform = platform;
    caps.stat_tier = stat_tier;
    let mut factory = StatFactory::new();
    let _port = factory.build(&caps);
    factory.chosen_tier()
}

#[test]
fn factory_selects_linux_statx_tier() {
    assert_eq!(chosen(Platform::Linux, StatTier::LinuxStatx), "linux-statx");
}

#[test]
fn factory_falls_back_on_linux_fstatat() {
    assert_eq!(chosen(Platform::Linux, StatTier::LinuxFstatat), "portable-metadata");
}

#[test]
fn factory_selects_macos_getattrlist_tier() {
    assert_eq!(chosen(Platform::Macos, StatTier::MacosGetattrlist), "macos-getattrlist");
}

#[test]
fn factory_falls_back_on_macos_fstatat() {
    assert_eq!(chosen(Platform::Macos, StatTier::MacosFstatat), "portable-metadata");
}

#[test]
fn factory_portable_tier() {
    let mut factory = StatFactory::new();
    let _port = factory.build(&Capabilities::default());
    assert_eq!(factory.chosen_tier(), "portable-metadata");
}

#[test]
fn paths_with_a_nul_are_refused() {
    assert!(check_c_path(b"/a/b").is_ok());
    let e = check_c_path(b"/a\0b").expect_err("nul");
    assert!(matches!(e, SubstrateError::EncodingError { .. }));
}

#[test]
fn links_are_described_or_refused_by_where_they_lead() {
    let link = LinkStat { kind: FileKind::Symlink, size_bytes: 11, modified_secs: None, accessed_secs: Some(60) };
    let caps = Capabilities::default();
    let content = serve_lstat_response(&link, stat_request(), &caps).structured_content;
    assert_eq!(content.kind, "symlink");
    assert_eq!(content.modified_at.as_deref(), Some("1970-01-01T00:00:00Z"));
    assert_eq!(content.accessed_at.as_deref(), Some("1970-01-01T00:01:00Z"));
    let broken = handle_symlink_escape(SymlinkDisposition::Broken, &link, stat_request(), &caps);
    assert!(matches!(broken.expect_err("leads nowhere"), SubstrateError::NotFound { .. }));
    let inside = SymlinkDisposition::Internal { resolved: b"/srv/data/x".to_vec() };
    assert!(handle_symlink_escape(inside, &link, stat_request(), &caps).is_ok());
    let e = handle_symlink_escape(SymlinkDisposition::Escape, &link, stat_request(), &caps).expect_err("escape");
    assert!(matches!(e, SubstrateError::SymlinkEscape { .. }), "{e:?}");
    assert_eq!(escape_start(Some(FileKind::Symlink)), EscapeStart::Follow);
    assert_eq!(kind_name(false, false, false), "special");
}

#[test]
fn chains_of_links_are_followed_to_their_end() {
    assert_eq!(resolve_target(b"/a/b", b"c"), b"/a/c".to_vec());
    assert_eq!(resolve_target(b"/a/b", b"/c"), b"/c".to_vec());
    let mut chain = LinkChain::new(b"/a/l".to_vec());
    let next = chain.advance(Hop::Link { target: b"m".to_vec(), refused: None, end: HopEnd::Link });
    assert!(next.is_none());
    assert_eq!(chain.path(), b"/a/m");
    let end = chain.advance(Hop::Link { target: b"f".to_vec(), refused: None, end: HopEnd::Other });
    assert!(matches!(end, Some(SymlinkDisposition::Internal { resolved }) if resolved == b"/a/f"));
    let mut chain = LinkChain::new(b"/a/l".to_vec());
    let out = SubstrateError::PathOutsideAllowlist { path: "/x".to_owned(), correlation_id: None };
    let end = chain.advance(Hop::Link { target: b"/x".to_vec(), refused: Some(out), end: HopEnd::Other });
    assert!(matches!(end, Some(SymlinkDisposition::Escape)));
    let mut chain = LinkChain::new(b"/a/l".to_vec());
    let end = chain.advance(Hop::Link { target: b"gone".to_vec(), refused: None, end: HopEnd::Missing });
    assert!(matches!(end, Some(SymlinkDisposition::Broken)));
}

#[test]
fn endless_chains_of_links_are_given_up() {
    let mut chain = LinkChain::new(b"/a/l".to_vec());
    let mut hops = 0u32;
    let end = loop {
        match chain.advance(Hop::Link { target: b"l".to_vec(), refused: None, end: HopEnd::Link }) {
            Some(end) => break end,
            None => hops += 1,
        }
        assert!(hops <= u32::from(MAX_SYMLINK_HOPS));
    };
    assert!(!matches!(end, SymlinkDisposition::Internal { .. }), "{end:?}");
}

// ---- Walking --------------------------------------------------------------------

/// The children of the directories of a small tree: two files and a directory with a file.
fn children_of(dir: &[u8], sizes: [u64; 2]) -> Vec<Child> {
    let found = |name: &str, is_dir: bool, size: u64| Child::Found {
        name: name.as_bytes().to_vec(),
        report: ChildReport::Metadata { is_dir, is_file: !is_dir, size },
    };
    if dir == b"/t" {
        vec![found("alpha.txt", false, sizes[0]), found("beta.txt", false, sizes[1]), found("sub", true, 4096)]
    } else {
        vec![found("gamma.txt", false, 1)]
    }
}

fn walk_tree(max_depth: Option<usize>, sizes: [u64; 2]) -> Vec<(String, Option<u64>)> {
    let mut walk = TreeWalk::new(b"/t".to_vec(), max_depth);
    let mut out = Vec::new();
    while let Some(dir) = walk.next_dir() {
        let children = children_of(&dir, sizes);
        for child in &children {
            let _check = walk.tick();
            let entry = emit_child(&dir, child).expect("readable");
            out.push((String::from_utf8(entry.path).expect("utf-8"), entry.size_bytes));
        }
        walk.descend(&children);
    }
    out
}

#[test]
fn every_directory_is_opened_once() {
    let dir = |name: &str| Child::Found {
        name: name.as_bytes().to_vec(),
        report: ChildReport::TypeOnly { is_dir: true },
    };
    let listing = |path: &[u8]| match path {
        b"/t" => vec![dir("a"), dir("b")],
        b"/t/a" => vec![dir("c")],
        _ => Vec::new(),
    };
    let open_all = |max_depth: Option<usize>| {
        let mut walk = TreeWalk::new(b"/t".to_vec(), max_depth);
        let mut opened = Vec::new();
        while let Some(path) = walk.next_dir() {
            walk.descend(&listing(&path));
            opened.push(String::from_utf8(path).expect("utf-8"));
        }
        opened
    };
    assert_eq!(open_all(None), ["/t", "/t/a", "/t/a/c", "/t/b"]);
    assert_eq!(open_all(Some(1)), ["/t", "/t/a", "/t/b"]);
    assert_eq!(open_all(Some(0)), ["/t"]);
}

#[test]
fn all_pages_but_the_last_are_full() {
    let all = || (0..7).map(|i| file(&format!("/srv/data/f{i}"), i, 0)).collect::<Vec<_>>();
    let mut sizes = Vec::new();
    let mut seen = Vec::new();
    let mut cursor = None;
    loop {
        let mut req = find_request("f*", Some(3));
        req.page_cursor = cursor;
        let page = run_find(&req, all()).expect("page").structured_content;
        sizes.push(page.matches.len());
        seen.extend(page.matches.into_iter().map(|e| e.raw_path));
        cursor = page.next_cursor;
        if cursor.is_none() {
            break;
        }
    }
    assert_eq!(sizes, [3, 3, 1]);
    assert_eq!(seen, all().into_iter().map(|e| e.path).collect::<Vec<_>>());
    assert!(seen.windows(2).all(|w| w[0] < w[1]));
}

fn all_found(entries: &[(String, Option<u64>)]) {
    for name in ["alpha.txt", "beta.txt", "gamma.txt"] {
        assert!(entries.iter().any(|(p, _)| p.ends_with(name)), "{name} not found; got {entries:?}");
    }
}

#[test]
fn linux_walks_all_entries() {
    all_found(&walk_tree(None, [3, 2]));
}

#[test]
fn linux_respects_max_depth_zero() {
    let has_deep = walk_tree(Some(0), [3, 2]).iter().any(|(p, _)| p.ends_with("gamma.txt"));
    assert!(!has_deep, "depth-limited walk should not descend into sub/");
}

#[test]
fn files_have_size_bytes() {
    let entries = walk_tree(None, [3, 2]);
    let alpha = entries.iter().find(|(p, _)| p.ends_with("alpha.txt")).expect("alpha.txt must be in results");
    assert_eq!(alpha.1, Some(3), "alpha.txt is 3 bytes");
    let sub = entries.iter().find(|(p, _)| p.ends_with("sub")).expect("sub");
    assert_eq!(sub.1, None);
}

#[test]
fn macos_walks_all_entries() {
    all_found(&walk_tree(None, [5, 5]));
}

#[test]
fn macos_respects_max_depth_zero() {
    let has_deep = walk_tree(Some(0), [5, 5]).iter().any(|(p, _)| p.ends_with("gamma.txt"));
    assert!(!has_deep, "depth-limited walk should not enter sub/");
}

/// A record as the system writes it, without its length: a reference to the name, the
/// type, and the size.
fn bulk_record(name: &str, obj_type: u32, size: i64) -> Vec<u8> {
    let name_at = 56usize;
    let mut rec = vec![0u8; name_at + name.len() + 1];
    rec[20..24].copy_from_slice(&((name_at - 20) as i32).to_le_bytes());
    rec[24..28].copy_from_slice(&((name.len() + 1) as u32).to_le_bytes());
    rec[28..32].copy_from_slice(&obj_type.to_le_bytes());
    rec[48..56].copy_from_slice(&size.to_le_bytes());
    rec[name_at..name_at + name.len()].copy_from_slice(name.as_bytes());
    rec
}

#[test]
fn files_report_size() {
    let alpha = parse_record(&bulk_record("alpha.txt", 1, 5)).expect("alpha.txt must appear");
    assert_eq!(alpha.name, "alpha.txt");
    assert_eq!(alpha.size, Some(5), "alpha.txt is 5 bytes");
    assert!(!alpha.is_dir);
}

#[test]
fn batches_of_records_are_read_one_by_one() {
    let mut buf = Vec::new();
    for rec in [bulk_record("alpha.txt", 1, 5), bulk_record("sub", 2, 0)] {
        buf.extend_from_slice(&(rec.len() as u32 + 4).to_le_bytes());
        buf.extend(rec);
    }
    let entries = parse_batch(&buf, 2);
    assert_eq!(entries.len(), 2);
    assert_eq!(entries[1].name, "sub");
    assert!(entries[1].is_dir);
    assert_eq!(entries[1].size, None);
    assert_eq!(parse_batch(&buf, 1).len(), 1);
    assert!(parse_record(&[1, 2, 3]).is_none());
    assert_eq!(read_u32_le(&[1, 2, 0, 0, 9], 0), Some(0x0201));
    assert_eq!(read_i32_le(&[0xff, 0xff, 0xff, 0xff], 0), Some(-1));
    assert_eq!(read_i64_le(&[1, 0, 0], 0), None);
    assert_eq!(AttrList::new().bitmapcount, 5);
}

#[test]
fn unreadable_children_are_reported() {
    assert!(emit_child(b"/t", &Child::Unreadable).is_err());
    assert!(matches!(unreadable_dir(b"/t"), SubstrateError::IoError { path, .. } if path == "/t"));
    let kept = LegacyWalker::new().entry(b"/t/f".to_vec(), false, Some((true, 9)));
    assert_eq!(kept.size_bytes, Some(9));
    assert_eq!(LegacyWalker::new().entry(b"/t/d".to_vec(), true, Some((false, 9))).size_bytes, None);
    let e = LegacyWalker::new().failure("gone".to_owned());
    assert!(matches!(e, SubstrateError::IoError { .. }), "{e:?}");
}

#[test]
fn walkers_are_chosen_by_platform_and_tier() {
    let mut caps = Capabilities::default();
    caps.platform = Platform::Linux;
    caps.walker_tier = WalkerTier::LinuxStatx;
    let mut factory = WalkerFactory::new();
    assert_eq!(factory.chosen_tier(), "legacy");
    assert_eq!(factory.build(&caps), WalkerKind::LinuxStatx);
    assert_eq!(factory.chosen_tier(), "linux-statx");
    caps.platform = Platform::Macos;
    caps.walker_tier = WalkerTier::MacosBulk;
    assert_eq!(WalkerFactory::new().build(&caps), WalkerKind::MacosBulk);
    caps.walker_tier = WalkerTier::LinuxStatx;
    assert_eq!(WalkerFactory::new().build(&caps), WalkerKind::Legacy);
    caps.platform = Platform::Other;
    assert_eq!(WalkerFactory::new().build(&caps), WalkerKind::Legacy);
}

// ---- Responses ------------------------------------------------------------------

#[test]
fn hints_name_the_tiers() {
    let mut caps = Capabilities::default();
    caps.simd_tier = SimdTier::Avx2;
    caps.walker_tier = WalkerTier::LinuxStatx;
    let hints = build_hints(Some("fs.read"), None, Some("retry"), &caps, true);
    assert_eq!(hints.next_action_suggested.as_deref(), Some("fs.read"));
    assert_eq!(hints.alternative_tool, None);
    assert_eq!(hints.error_recovery.as_deref(), Some("retry"));
    assert_eq!(hints.simd_tier_used.as_deref(), Some(SimdTier::Avx2.name()));
    assert_eq!(hints.walker_tier_used.as_deref(), Some(WalkerTier::LinuxStatx.name()));
    assert_eq!(build_hints(None, None, None, &caps, false).walker_tier_used, None);
    assert_eq!(build_error_hints("again").error_recovery.as_deref(), Some("again"));
    let plain = ToolResponse::ok("done".to_owned(), 5);
    assert_eq!(plain.structured_content, 5);
    assert_eq!(plain.hints.error_recovery, None);
    let hinted = ToolResponse::with_hints("done".to_owned(), 5, build_error_hints("again"));
    assert_eq!(hinted.hints.error_recovery.as_deref(), Some("again"));
}

#[test]
fn times_beyond_the_calendar_count_as_the_epoch() {
    let beyond = i64::MAX;
    let linux = LinuxStatter::new().stat((S_IFREG | 0o644) as u16, 1, beyond, -5);
    assert_eq!((linux.modified_at, linux.accessed_at), (0, -5));
    let mut buf = [0u8; 44];
    buf[8..16].copy_from_slice(&60i64.to_le_bytes());
    buf[24..32].copy_from_slice(&beyond.to_le_bytes());
    let macos = MacosStatter::new().stat(&buf, 1);
    assert_eq!((macos.modified_at, macos.accessed_at), (60, 0));
    let portable = PortableStatter::new().stat(1, FileKind::Regular, Some(beyond), Some(7));
    assert_eq!((portable.modified_at, portable.accessed_at), (0, 7));
}
